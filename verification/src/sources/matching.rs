//! Matching a Spotify song with the right YouTube video: the text normalisation the score
//! works on. (The score itself weighs floating-point quantities and lives with the program.)

use vstd::prelude::*;
use crate::sources::spotify::{join_strings, join_with, strings_view};
use crate::text::{occurs_in, lemma_find_sub_occurs, chars_of, same_chars, before_sub, join_words, join_vec, string_of, words, split_words, find_sub, find_str, slice_vec, starts, starts_with, push_char};

verus! {

/// The first character of the lowercase mapping of `c` (`char::to_lowercase`).
pub uninterp spec fn lower_first(c: char) -> Option<char>;

/// Whether `c` is alphabetic or numeric in Unicode (`char::is_alphanumeric`).
pub uninterp spec fn alphanumeric(c: char) -> bool;

/// `char::to_lowercase(c).next()`: the mapping always has at least one character.
#[verifier::external_body]
fn to_lower(c: char) -> (r: Option<char>)
    ensures
        r == lower_first(c),
        r is Some,
{
    c.to_lowercase().next()
}

/// `char::is_alphanumeric`.
#[verifier::external_body]
fn is_alnum(c: char) -> (r: bool)
    ensures
        r == alphanumeric(c),
{
    c.is_alphanumeric()
}

/// A lowercase character without its accent; other signs become spaces.
pub open spec fn fold_lower(c: char) -> char {
    if c == 'á' || c == 'à' || c == 'â' || c == 'ä' || c == 'ã' || c == 'å' {
        'a'
    } else if c == 'é' || c == 'è' || c == 'ê' || c == 'ë' {
        'e'
    } else if c == 'í' || c == 'ì' || c == 'î' || c == 'ï' {
        'i'
    } else if c == 'ó' || c == 'ò' || c == 'ô' || c == 'ö' || c == 'õ' || c == 'ø' {
        'o'
    } else if c == 'ú' || c == 'ù' || c == 'û' || c == 'ü' {
        'u'
    } else if c == 'ñ' {
        'n'
    } else if c == 'ç' {
        'c'
    } else if alphanumeric(c) {
        c
    } else {
        ' '
    }
}

pub open spec fn fold_spec(c: char) -> Option<char> {
    match lower_first(c) {
        Some(l) => Some(fold_lower(l)),
        None => None,
    }
}

/// A character lowercased, without accent, or a space for signs.
pub fn fold(c: char) -> (r: Option<char>)
    ensures
        r == fold_spec(c),
{
    let l = match to_lower(c) {
        Some(l) => l,
        None => {
            return None;
        }
    };
    let r = if l == 'á' || l == 'à' || l == 'â' || l == 'ä' || l == 'ã' || l == 'å' {
        'a'
    } else if l == 'é' || l == 'è' || l == 'ê' || l == 'ë' {
        'e'
    } else if l == 'í' || l == 'ì' || l == 'î' || l == 'ï' {
        'i'
    } else if l == 'ó' || l == 'ò' || l == 'ô' || l == 'ö' || l == 'õ' || l == 'ø' {
        'o'
    } else if l == 'ú' || l == 'ù' || l == 'û' || l == 'ü' {
        'u'
    } else if l == 'ñ' {
        'n'
    } else if l == 'ç' {
        'c'
    } else if is_alnum(l) {
        l
    } else {
        ' '
    };
    Some(r)
}

/// The folded characters of `s` (`filter_map(fold)`).
pub open spec fn folded(s: Seq<char>) -> Seq<char>
    decreases s.len(),
{
    if s.len() == 0 {
        Seq::empty()
    } else {
        folded(s.drop_last()) + match fold_spec(s.last()) {
            Some(x) => seq![x],
            None => Seq::empty(),
        }
    }
}

/// Lowercase, without accents or signs, words separated by single spaces.
pub open spec fn norm_spec(s: Seq<char>) -> Seq<char> {
    join_words(words(folded(s)))
}

fn norm_chars(cs: &[char]) -> (r: Vec<char>)
    ensures
        r@ == norm_spec(cs@),
{
    let mut f: Vec<char> = Vec::new();
    let mut i: usize = 0;
    while i < cs.len()
        invariant
            i <= cs.len(),
            f@ == folded(cs@.subrange(0, i as int)),
        decreases cs.len() - i,
    {
        assert(cs@.subrange(0, i + 1).drop_last() =~= cs@.subrange(0, i as int));
        assert(cs@.subrange(0, i + 1).last() == cs@[i as int]);
        let ghost pre = f@;
        match fold(cs[i]) {
            Some(x) => {
                f.push(x);
            }
            None => {
                assert(pre + Seq::<char>::empty() =~= pre);
            }
        }
        i = i + 1;
    }
    assert(cs@.subrange(0, i as int) =~= cs@);
    let ws = split_words(f.as_slice());
    assert(Seq::new(ws@.len(), |i: int| ws@[i]@) =~= words(f@));
    join_vec(&ws)
}

/// Lowercase, without accents or signs.
pub fn norm(s: &str) -> (r: String)
    ensures
        r@ == norm_spec(s@),
{
    string_of(norm_chars(chars_of(s).as_slice()).as_slice())
}

/// The words of a string (`split_whitespace`).
pub fn tokens(s: &str) -> (r: Vec<String>)
    ensures
        r@.len() == words(s@).len(),
        forall|i: int| 0 <= i < r@.len() ==> #[trigger] r@[i]@ == words(s@)[i],
{
    let ws = split_words(chars_of(s).as_slice());
    let mut out: Vec<String> = Vec::new();
    let mut i: usize = 0;
    while i < ws.len()
        invariant
            i <= ws.len(),
            ws@.len() == words(s@).len(),
            forall|j: int| 0 <= j < ws@.len() ==> #[trigger] ws@[j]@ == words(s@)[j],
            out@.len() == i,
            forall|j: int| 0 <= j < i ==> #[trigger] out@[j]@ == words(s@)[j],
        decreases ws.len() - i,
    {
        out.push(string_of(ws[i].as_slice()));
        i = i + 1;
    }
    out
}

/// A year: four digits starting with 1 or 2.
pub open spec fn year_word(w: Seq<char>) -> bool {
    w.len() == 4 && (w[0] == '1' || w[0] == '2') && forall|i: int| 0 <= i < 4 ==> '0' <= #[trigger] w[i] && w[i] <= '9'
}

/// Whether a word is a year.
pub fn is_year(w: &str) -> (r: bool)
    ensures
        r == year_word(w@),
{
    let cs = chars_of(w);
    if cs.len() != 4 || !(cs[0] == '1' || cs[0] == '2') {
        return false;
    }
    let mut i: usize = 0;
    while i < 4
        invariant
            i <= 4,
            cs@ == w@,
            cs.len() == 4,
            forall|j: int| 0 <= j < i ==> '0' <= #[trigger] cs@[j] && cs@[j] <= '9',
        decreases 4 - i,
    {
        if !('0' <= cs[i] && cs[i] <= '9') {
            return false;
        }
        i = i + 1;
    }
    true
}

/// The same word, or one a prefix of the other when both have at least 6 bytes
/// ("remaster" ~ "remastered").
pub open spec fn same_word_spec(a: Seq<char>, b: Seq<char>) -> bool {
    let la = vstd::utf8::encode_utf8(a).len();
    let lb = vstd::utf8::encode_utf8(b).len();
    a == b || ((if la < lb { la } else { lb }) >= 6 && (starts(a, b) || starts(b, a)))
}

/// Whether two words are the same for matching.
pub fn same_word(a: &str, b: &str) -> (r: bool)
    ensures
        r == same_word_spec(a@, b@),
{
    let ac = chars_of(a);
    let bc = chars_of(b);
    if same_chars(ac.as_slice(), bc.as_slice()) {
        return true;
    }
    let la = a.as_bytes().len();
    let lb = b.as_bytes().len();
    let m = if la < lb { la } else { lb };
    m >= 6 && (starts_with(ac.as_slice(), bc.as_slice()) || starts_with(bc.as_slice(), ac.as_slice()))
}

/// Reading a title left to right: the characters outside brackets so far, and the depth.
pub open spec fn outside_brackets(s: Seq<char>) -> (Seq<char>, nat)
    decreases s.len(),
{
    if s.len() == 0 {
        (Seq::empty(), 0)
    } else {
        let (o, d) = outside_brackets(s.drop_last());
        let c = s.last();
        if c == '(' || c == '[' {
            (o, d + 1)
        } else if c == ')' || c == ']' {
            (o, if d > 0 { (d - 1) as nat } else { 0 })
        } else if d == 0 {
            (o.push(c), d)
        } else {
            (o, d)
        }
    }
}

/// The "clean" title to compare: without "(feat. X)", "[...]" and what follows " - "
/// ("- Remastered 2009"), normalised.
pub open spec fn core_title_spec(t: Seq<char>) -> Seq<char> {
    norm_spec(before_sub(outside_brackets(t).0, " - "@))
}

/// The clean title of a song (see `core_title_spec`).
pub fn core_title(title: &str) -> (r: String)
    ensures
        r@ == core_title_spec(title@),
{
    let cs = chars_of(title);
    let mut out: Vec<char> = Vec::new();
    let mut depth: u64 = 0;
    let mut i: usize = 0;
    while i < cs.len()
        invariant
            i <= cs.len(),
            depth <= i,
            (out@, depth as nat) == outside_brackets(cs@.subrange(0, i as int)),
        decreases cs.len() - i,
    {
        assert(cs@.subrange(0, i + 1).drop_last() =~= cs@.subrange(0, i as int));
        assert(cs@.subrange(0, i + 1).last() == cs@[i as int]);
        let c = cs[i];
        if c == '(' || c == '[' {
            depth = depth + 1;
        } else if c == ')' || c == ']' {
            if depth > 0 {
                depth = depth - 1;
            }
        } else if depth == 0 {
            out.push(c);
        }
        i = i + 1;
    }
    assert(cs@.subrange(0, i as int) =~= cs@);
    let sep = chars_of(" - ");
    let head = match find_str(out.as_slice(), sep.as_slice()) {
        Some(k) => slice_vec(out.as_slice(), 0, k),
        None => out,
    };
    string_of(norm_chars(head.as_slice()).as_slice())
}

/// Reading a title left to right: the bracketed pieces closed so far (outermost brackets,
/// without the bracket characters), the piece in progress, and the depth.
pub open spec fn bracket_parts(s: Seq<char>) -> (Seq<Seq<char>>, Seq<char>, nat)
    decreases s.len(),
{
    if s.len() == 0 {
        (Seq::empty(), Seq::empty(), 0)
    } else {
        let (ps, cur, d) = bracket_parts(s.drop_last());
        let c = s.last();
        if c == '(' || c == '[' {
            (ps, cur, d + 1)
        } else if (c == ')' || c == ']') && d > 0 {
            if d == 1 { (ps.push(cur), Seq::empty(), 0) } else { (ps, cur, (d - 1) as nat) }
        } else if d > 0 {
            (ps, cur.push(c), d)
        } else {
            (ps, cur, d)
        }
    }
}

/// A version piece names a collaboration ("feat.", "with ", "ft ").
pub open spec fn collab(p: Seq<char>) -> bool {
    starts(p, "feat"@) || starts(p, "with "@) || starts(p, "ft "@)
}

/// The words of the pieces, normalised, leaving out collaborations.
pub open spec fn piece_words(ps: Seq<Seq<char>>) -> Seq<Seq<char>>
    decreases ps.len(),
{
    if ps.len() == 0 {
        Seq::empty()
    } else {
        let p = norm_spec(ps.last());
        piece_words(ps.drop_last()) + if collab(p) { Seq::empty() } else { words(p) }
    }
}

/// The words of the version a Spotify title asks for: what follows " - " and what is in
/// brackets ("Remastered 2009", "Radio Edit"), except collaborations.
pub open spec fn version_tokens_spec(t: Seq<char>) -> Seq<Seq<char>> {
    let after = match find_sub(t, " - "@) {
        Some(i) => seq![t.subrange(i + 3, t.len() as int)],
        None => Seq::empty(),
    };
    piece_words(after + bracket_parts(t).0)
}

/// The words of the version a Spotify title asks for (see `version_tokens_spec`).
pub fn version_tokens(title: &str) -> (r: Vec<String>)
    ensures
        r@.len() == version_tokens_spec(title@).len(),
        forall|i: int| 0 <= i < r@.len() ==> #[trigger] r@[i]@ == version_tokens_spec(title@)[i],
{
    let cs = chars_of(title);
    let mut parts: Vec<Vec<char>> = Vec::new();
    let sep = chars_of(" - ");
    assert(sep@.len() == 3) by {
        reveal_strlit(" - ");
    }
    match find_str(cs.as_slice(), sep.as_slice()) {
        Some(k) => {
            parts.push(slice_vec(cs.as_slice(), k + 3, cs.len()));
        }
        None => {}
    }
    let ghost first = Seq::new(parts@.len(), |j: int| parts@[j]@);
    let mut cur: Vec<char> = Vec::new();
    let mut depth: u64 = 0;
    let mut i: usize = 0;
    while i < cs.len()
        invariant
            i <= cs.len(),
            depth <= i,
            first.len() <= 1,
            ({
                let (ps, c, d) = bracket_parts(cs@.subrange(0, i as int));
                &&& Seq::new(parts@.len(), |j: int| parts@[j]@) == first + ps
                &&& cur@ == c
                &&& depth == d
            }),
        decreases cs.len() - i,
    {
        assert(cs@.subrange(0, i + 1).drop_last() =~= cs@.subrange(0, i as int));
        assert(cs@.subrange(0, i + 1).last() == cs@[i as int]);
        let c = cs[i];
        let ghost pv = Seq::new(parts@.len(), |j: int| parts@[j]@);
        if c == '(' || c == '[' {
            depth = depth + 1;
        } else if (c == ')' || c == ']') && depth > 0 {
            depth = depth - 1;
            if depth == 0 {
                let ghost cv = cur@;
                parts.push(cur);
                cur = Vec::new();
                assert(Seq::new(parts@.len(), |j: int| parts@[j]@) =~= pv.push(cv));
            }
        } else if depth > 0 {
            cur.push(c);
        }
        i = i + 1;
    }
    assert(cs@.subrange(0, i as int) =~= cs@);
    let ghost all = Seq::new(parts@.len(), |j: int| parts@[j]@);
    assert(all == first + bracket_parts(title@).0);
    let mut out: Vec<String> = Vec::new();
    let mut k: usize = 0;
    let feat = chars_of("feat");
    let with = chars_of("with ");
    let ft = chars_of("ft ");
    while k < parts.len()
        invariant
            k <= parts.len(),
            all == Seq::new(parts@.len(), |j: int| parts@[j]@),
            feat@ == "feat"@,
            with@ == "with "@,
            ft@ == "ft "@,
            out@.len() == piece_words(all.subrange(0, k as int)).len(),
            forall|j: int| 0 <= j < out@.len() ==> #[trigger] out@[j]@ == piece_words(all.subrange(0, k as int))[j],
        decreases parts.len() - k,
    {
        assert(all.subrange(0, k + 1).drop_last() =~= all.subrange(0, k as int));
        assert(all.subrange(0, k + 1).last() == parts@[k as int]@);
        let p = norm_chars(parts[k].as_slice());
        let ghost before = piece_words(all.subrange(0, k as int));
        if !(starts_with(p.as_slice(), feat.as_slice()) || starts_with(p.as_slice(), with.as_slice())
            || starts_with(p.as_slice(), ft.as_slice())) {
            let ws = split_words(p.as_slice());
            let mut m: usize = 0;
            let ghost base = out@.len();
            while m < ws.len()
                invariant
                    m <= ws.len(),
                    base == before.len(),
                    out@.len() == base + m,
                    ws@.len() == words(p@).len(),
                    forall|j: int| 0 <= j < ws@.len() ==> #[trigger] ws@[j]@ == words(p@)[j],
                    forall|j: int| 0 <= j < base ==> #[trigger] out@[j]@ == before[j],
                    forall|j: int| 0 <= j < m ==> #[trigger] out@[base + j]@ == words(p@)[j],
                decreases ws.len() - m,
            {
                out.push(string_of(ws[m].as_slice()));
                m = m + 1;
            }
            assert forall|j: int| 0 <= j < out@.len() implies #[trigger] out@[j]@ == (before + words(p@))[j] by {
                if j >= base {
                    assert(out@[base + (j - base)]@ == words(p@)[j - base]);
                }
            }
        } else {
            assert(before + Seq::<Seq<char>>::empty() =~= before);
        }
        k = k + 1;
    }
    assert(all.subrange(0, k as int) =~= all);
    proof {
        match find_sub(title@, " - "@) {
            Some(x) => { assert(first =~= seq![title@.subrange(x + 3, title@.len() as int)]); }
            None => { assert(first =~= Seq::<Seq<char>>::empty()); }
        }
    }
    out
}

/// How many of the words of `needle` occur among the words of `hay`, counting repeats in
/// `needle`.
pub open spec fn found_count(needle: Seq<Seq<char>>, hay: Seq<Seq<char>>) -> nat
    decreases needle.len(),
{
    if needle.len() == 0 {
        0
    } else {
        found_count(needle.drop_last(), hay) + if hay.contains(needle.last()) { 1nat } else { 0nat }
    }
}

fn contains_word(hay: &Vec<Vec<char>>, w: &[char]) -> (r: bool)
    ensures
        r == exists|j: int| 0 <= j < hay@.len() && #[trigger] hay@[j]@ == w@,
{
    let mut i: usize = 0;
    while i < hay.len()
        invariant
            i <= hay.len(),
            forall|j: int| 0 <= j < i ==> #[trigger] hay@[j]@ != w@,
        decreases hay.len() - i,
    {
        if same_chars(hay[i].as_slice(), w) {
            return true;
        }
        i = i + 1;
    }
    false
}

/// The counts behind the share of the words of `needle` found in `hay`: how many words of
/// `needle` occur in `hay`, and how many words `needle` has (the share is their ratio, zero
/// when `needle` has no words).
pub fn coverage_counts(needle: &str, hay: &str) -> (r: (usize, usize))
    ensures
        r.1 == words(needle@).len(),
        r.0 == found_count(words(needle@), words(hay@)),
{
    let hw = split_words(chars_of(hay).as_slice());
    let nw = split_words(chars_of(needle).as_slice());
    let ghost ws = words(needle@);
    let ghost hs = words(hay@);
    let mut found: usize = 0;
    let mut i: usize = 0;
    while i < nw.len()
        invariant
            i <= nw.len(),
            nw@.len() == ws.len(),
            forall|j: int| 0 <= j < ws.len() ==> #[trigger] nw@[j]@ == ws[j],
            hw@.len() == hs.len(),
            forall|j: int| 0 <= j < hs.len() ==> #[trigger] hw@[j]@ == hs[j],
            found <= i,
            found == found_count(ws.take(i as int), hs),
        decreases nw.len() - i,
    {
        proof {
            assert(ws.take(i as int + 1).drop_last() =~= ws.take(i as int));
            assert(nw@[i as int]@ == ws[i as int]);
        }
        let hit = contains_word(&hw, nw[i].as_slice());
        proof {
            if hit {
                let j = choose|j: int| 0 <= j < hw@.len() && #[trigger] hw@[j]@ == nw@[i as int]@;
                assert(hs[j] == ws[i as int]);
            } else {
                assert forall|j: int| 0 <= j < hs.len() implies hs[j] != ws[i as int] by {
                    assert(hw@[j]@ == hs[j]);
                }
            }
            assert(ws.take(i as int + 1).last() == ws[i as int]);
        }
        if hit {
            found = found + 1;
        }
        i = i + 1;
    }
    proof {
        assert(ws.take(i as int) =~= ws);
    }
    (found, nw.len())
}

// ---------- what the score of a candidate weighs ----------

/// How many words betray another version of a song (remix, live, cover...).
pub const FORBIDDEN_COUNT: usize = 29;

/// The `i`-th word that betrays another version, unless the song's own title has it.
pub open spec fn forbidden_spec(i: int) -> Seq<char> {
    if i == 0 {
        "bassboosted"@
    } else if i == 1 {
        "bassboost"@
    } else if i == 2 {
        "remix"@
    } else if i == 3 {
        "remastered"@
    } else if i == 4 {
        "remaster"@
    } else if i == 5 {
        "reverb"@
    } else if i == 6 {
        "live"@
    } else if i == 7 {
        "acoustic"@
    } else if i == 8 {
        "8d"@
    } else if i == 9 {
        "concert"@
    } else if i == 10 {
        "acapella"@
    } else if i == 11 {
        "slowed"@
    } else if i == 12 {
        "sped"@
    } else if i == 13 {
        "instrumental"@
    } else if i == 14 {
        "cover"@
    } else if i == 15 {
        "karaoke"@
    } else if i == 16 {
        "reaction"@
    } else if i == 17 {
        "nightcore"@
    } else if i == 18 {
        "tutorial"@
    } else if i == 19 {
        "mashup"@
    } else if i == 20 {
        "mix"@
    } else if i == 21 {
        "anniversary"@
    } else if i == 22 {
        "demo"@
    } else if i == 23 {
        "session"@
    } else if i == 24 {
        "mono"@
    } else if i == 25 {
        "edit"@
    } else if i == 26 {
        "extended"@
    } else if i == 27 {
        "take"@
    } else if i == 28 {
        "preview"@
    } else {
        Seq::empty()
    }
}

pub fn forbidden_word(i: usize) -> (w: &'static str)
    requires
        i < FORBIDDEN_COUNT,
    ensures
        w@ == forbidden_spec(i as int),
{
    match i {
        0 => "bassboosted",
        1 => "bassboost",
        2 => "remix",
        3 => "remastered",
        4 => "remaster",
        5 => "reverb",
        6 => "live",
        7 => "acoustic",
        8 => "8d",
        9 => "concert",
        10 => "acapella",
        11 => "slowed",
        12 => "sped",
        13 => "instrumental",
        14 => "cover",
        15 => "karaoke",
        16 => "reaction",
        17 => "nightcore",
        18 => "tutorial",
        19 => "mashup",
        20 => "mix",
        21 => "anniversary",
        22 => "demo",
        23 => "session",
        24 => "mono",
        25 => "edit",
        26 => "extended",
        27 => "take",
        28 => "preview",
        _ => "",
    }
}

/// How many of the first `n` forbidden words are words of the candidate but not of the song.
pub open spec fn forbidden_hits(n: nat, cand: Seq<Seq<char>>, song: Seq<Seq<char>>) -> nat
    decreases n,
{
    if n == 0 {
        0
    } else {
        let w = forbidden_spec(n - 1);
        forbidden_hits((n - 1) as nat, cand, song) + if cand.contains(w) && !song.contains(w) { 1nat } else { 0nat }
    }
}

/// Whether some word of `ws` is the same word as `w` (see `same_word_spec`).
pub open spec fn similar_in(ws: Seq<Seq<char>>, w: Seq<char>) -> bool {
    exists|i: int| 0 <= i < ws.len() && #[trigger] same_word_spec(ws[i], w)
}

/// How many words of the version are among the candidate's words.
pub open spec fn version_hits(vs: Seq<Seq<char>>, cand: Seq<Seq<char>>) -> nat
    decreases vs.len(),
{
    if vs.len() == 0 {
        0
    } else {
        version_hits(vs.drop_last(), cand) + if similar_in(cand, vs.last()) { 1nat } else { 0nat }
    }
}

/// The candidate's words that the song does not explain: how many are years, how many not.
pub open spec fn extra_words(ws: Seq<Seq<char>>, known: Seq<Seq<char>>) -> (nat, nat)
    decreases ws.len(),
{
    if ws.len() == 0 {
        (0, 0)
    } else {
        let (y, o) = extra_words(ws.drop_last(), known);
        let w = ws.last();
        if similar_in(known, w) { (y, o) } else if year_word(w) { (y + 1, o) } else { (y, o + 1) }
    }
}

pub open spec fn ends(s: Seq<char>, p: Seq<char>) -> bool {
    p.len() <= s.len() && s.subrange(s.len() - p.len(), s.len() as int) == p
}

pub open spec fn contains_text(s: Seq<char>, p: Seq<char>) -> bool {
    find_sub(s, p) is Some
}

/// What the score of a YouTube result for a Spotify song is made of, apart from the
/// difference in length (the weights are applied by the program, in floating point).
#[derive(Debug, Clone, Copy, PartialEq, Eq)]
pub struct MatchFacts {
    /// Words of the song's clean title found in the result's title, and how many it has.
    pub title_found: usize,
    pub title_words: usize,
    /// The main artist is unknown or appears in the result's title or channel.
    pub artist_in: bool,
    /// Words of the main artist found in the result's title and channel, and how many it has.
    pub artist_found: usize,
    pub artist_words: usize,
    /// Words of the result's title that betray another version.
    pub forbidden: usize,
    /// The channel is the artist's auto-generated one ("... - Topic").
    pub topic: bool,
    /// The channel's name has the main artist's.
    pub own_channel: bool,
    /// Words of the version the song asks for that the title names, and how many it has.
    pub version_hits: usize,
    pub version_words: usize,
    /// Words of the title the song does not explain: years, and others.
    pub extra_years: usize,
    pub extra_other: usize,
    /// The title is the song's clean title, alone or after the main artist.
    pub exact_title: bool,
}

/// The facts of a result (title `rt`, channel `rc`) for a song (title `st`, artists `sa`).
pub open spec fn facts_hold(f: MatchFacts, st: Seq<char>, sa: Seq<Seq<char>>, rt: Seq<char>, rc: Seq<char>) -> bool {
    let title = core_title_spec(st);
    let cand = norm_spec(rt);
    let channel = norm_spec(rc);
    let main = norm_spec(if sa.len() > 0 { sa[0] } else { Seq::empty() });
    let hay = cand + " "@ + channel;
    let song = norm_spec(st);
    let version = version_tokens_spec(st);
    let known = words(song) + words(norm_spec(join_with(sa, " "@))) + version;
    let (ey, eo) = extra_words(words(cand), known);
    &&& f.title_found == found_count(words(title), words(cand))
    &&& f.title_words == words(title).len()
    &&& f.artist_in == (main.len() == 0 || contains_text(hay, main))
    &&& f.artist_found == found_count(words(main), words(hay))
    &&& f.artist_words == words(main).len()
    &&& f.forbidden == forbidden_hits(FORBIDDEN_COUNT as nat, words(cand), words(song))
    &&& f.topic == ends(rc, "- Topic"@)
    &&& f.own_channel == (main.len() > 0 && contains_text(channel, main))
    &&& f.version_hits == version_hits(version, words(cand))
    &&& f.version_words == version.len()
    &&& f.extra_years == ey
    &&& f.extra_other == eo
    &&& f.exact_title == (cand == title || cand == main + " "@ + title)
}

pub open spec fn texts(v: Seq<String>) -> Seq<Seq<char>> {
    Seq::new(v.len(), |i: int| v[i]@)
}

fn has_word(ws: &Vec<String>, w: &str) -> (r: bool)
    ensures
        r == texts(ws@).contains(w@),
{
    let wc = chars_of(w);
    let mut i: usize = 0;
    while i < ws.len()
        invariant
            i <= ws.len(),
            wc@ == w@,
            forall|j: int| 0 <= j < i ==> texts(ws@)[j] != w@,
        decreases ws.len() - i,
    {
        if same_chars(chars_of(ws[i].as_str()).as_slice(), wc.as_slice()) {
            assert(texts(ws@)[i as int] == w@);
            return true;
        }
        i = i + 1;
    }
    false
}

fn has_similar(ws: &Vec<String>, w: &str) -> (r: bool)
    ensures
        r == similar_in(texts(ws@), w@),
{
    let mut i: usize = 0;
    while i < ws.len()
        invariant
            i <= ws.len(),
            forall|j: int| 0 <= j < i ==> !#[trigger] same_word_spec(texts(ws@)[j], w@),
        decreases ws.len() - i,
    {
        if same_word(ws[i].as_str(), w) {
            assert(same_word_spec(texts(ws@)[i as int], w@));
            return true;
        }
        i = i + 1;
    }
    false
}

fn contains_str(s: &str, p: &str) -> (r: bool)
    ensures
        r == contains_text(s@, p@),
{
    find_str(chars_of(s).as_slice(), chars_of(p).as_slice()).is_some()
}

fn ends_with_str(s: &str, p: &str) -> (r: bool)
    ensures
        r == ends(s@, p@),
{
    let a = chars_of(s);
    let b = chars_of(p);
    if b.len() > a.len() {
        return false;
    }
    let tail = slice_vec(a.as_slice(), a.len() - b.len(), a.len());
    same_chars(tail.as_slice(), b.as_slice())
}

proof fn lemma_texts_tokens(v: Seq<String>, s: Seq<char>)
    requires
        v.len() == words(s).len(),
        forall|i: int| 0 <= i < v.len() ==> #[trigger] v[i]@ == words(s)[i],
    ensures
        texts(v) == words(s),
{
    assert(texts(v) =~= words(s));
}

fn forbidden_in(cand: &Vec<String>, song: &Vec<String>) -> (n: usize)
    ensures
        n == forbidden_hits(FORBIDDEN_COUNT as nat, texts(cand@), texts(song@)),
{
    let mut n: usize = 0;
    let mut i: usize = 0;
    while i < FORBIDDEN_COUNT
        invariant
            i <= FORBIDDEN_COUNT,
            n <= i,
            n == forbidden_hits(i as nat, texts(cand@), texts(song@)),
        decreases FORBIDDEN_COUNT - i,
    {
        let w = forbidden_word(i);
        if has_word(cand, w) && !has_word(song, w) {
            n = n + 1;
        }
        i = i + 1;
    }
    n
}

fn hits_of(vs: &Vec<String>, cand: &Vec<String>) -> (n: usize)
    ensures
        n == version_hits(texts(vs@), texts(cand@)),
{
    let mut n: usize = 0;
    let mut i: usize = 0;
    while i < vs.len()
        invariant
            i <= vs.len(),
            n <= i,
            n == version_hits(texts(vs@).take(i as int), texts(cand@)),
        decreases vs.len() - i,
    {
        assert(texts(vs@).take(i as int + 1).drop_last() =~= texts(vs@).take(i as int));
        assert(texts(vs@).take(i as int + 1).last() == vs@[i as int]@);
        if has_similar(cand, vs[i].as_str()) {
            n = n + 1;
        }
        i = i + 1;
    }
    assert(texts(vs@).take(i as int) =~= texts(vs@));
    n
}

fn extras_of(ws: &Vec<String>, known: &Vec<String>) -> (r: (usize, usize))
    ensures
        (r.0 as nat, r.1 as nat) == extra_words(texts(ws@), texts(known@)),
{
    let mut y: usize = 0;
    let mut o: usize = 0;
    let mut i: usize = 0;
    while i < ws.len()
        invariant
            i <= ws.len(),
            y + o <= i,
            (y as nat, o as nat) == extra_words(texts(ws@).take(i as int), texts(known@)),
        decreases ws.len() - i,
    {
        assert(texts(ws@).take(i as int + 1).drop_last() =~= texts(ws@).take(i as int));
        assert(texts(ws@).take(i as int + 1).last() == ws@[i as int]@);
        if !has_similar(known, ws[i].as_str()) {
            if is_year(ws[i].as_str()) {
                y = y + 1;
            } else {
                o = o + 1;
            }
        }
        i = i + 1;
    }
    assert(texts(ws@).take(i as int) =~= texts(ws@));
    (y, o)
}

fn append_all(dst: &mut Vec<String>, src: &Vec<String>)
    ensures
        texts(final(dst)@) == texts(old(dst)@) + texts(src@),
{
    let mut i: usize = 0;
    let ghost d0 = texts(dst@);
    while i < src.len()
        invariant
            i <= src.len(),
            texts(dst@) == d0 + texts(src@).take(i as int),
        decreases src.len() - i,
    {
        let c = src[i].clone();
        let ghost before = texts(dst@);
        dst.push(c);
        assert(texts(dst@) =~= before.push(src@[i as int]@));
        assert(texts(src@).take(i as int + 1) =~= texts(src@).take(i as int).push(src@[i as int]@));
        assert(texts(dst@) =~= d0 + texts(src@).take(i as int + 1));
        i = i + 1;
    }
    assert(texts(src@).take(i as int) =~= texts(src@));
}

/// What the score of result (title `r_title`, channel `r_channel`) for a song (title
/// `title`, `artists`) weighs (see `facts_hold`).
pub fn match_facts(title: &str, artists: &Vec<String>, r_title: &str, r_channel: &str) -> (f: MatchFacts)
    ensures
        facts_hold(f, title@, texts(artists@), r_title@, r_channel@),
{
    let clean = core_title(title);
    let cand = norm(r_title);
    let channel = norm(r_channel);
    let main = if artists.len() > 0 { norm(artists[0].as_str()) } else { norm("") };
    proof {
        reveal_strlit("");
        if artists@.len() > 0 {
            assert(texts(artists@)[0] == artists@[0]@);
        }
    }
    let mut hay = cand.clone();
    hay.append(" ");
    hay.append(channel.as_str());
    let song = norm(title);
    let clean_w = tokens(clean.as_str());
    let cand_w = tokens(cand.as_str());
    let main_w = tokens(main.as_str());
    let hay_w = tokens(hay.as_str());
    let song_w = tokens(song.as_str());
    proof {
        lemma_texts_tokens(clean_w@, clean@);
        lemma_texts_tokens(cand_w@, cand@);
        lemma_texts_tokens(main_w@, main@);
        lemma_texts_tokens(hay_w@, hay@);
        lemma_texts_tokens(song_w@, song@);
    }
    let (title_found, title_words) = coverage_counts(clean.as_str(), cand.as_str());
    let (artist_found, artist_words) = coverage_counts(main.as_str(), hay.as_str());
    let main_len = chars_of(main.as_str()).len();
    let artist_in = main_len == 0 || contains_str(hay.as_str(), main.as_str());
    let forbidden = forbidden_in(&cand_w, &song_w);
    let topic = ends_with_str(r_channel, "- Topic");
    let own_channel = main_len > 0 && contains_str(channel.as_str(), main.as_str());
    let version = version_tokens(title);
    proof {
        assert(texts(version@) =~= version_tokens_spec(title@));
    }
    let version_hits = hits_of(&version, &cand_w);
    let joined = join_strings(artists, " ");
    proof {
        assert(strings_view(artists@) =~= texts(artists@));
    }
    let artist_norm = norm(joined.as_str());
    let art_w = tokens(artist_norm.as_str());
    proof {
        lemma_texts_tokens(art_w@, artist_norm@);
    }
    let mut known: Vec<String> = Vec::new();
    append_all(&mut known, &song_w);
    append_all(&mut known, &art_w);
    append_all(&mut known, &version);
    proof {
        assert(texts(known@) =~= words(song@) + words(artist_norm@) + version_tokens_spec(title@));
    }
    let (extra_years, extra_other) = extras_of(&cand_w, &known);
    let mut alt = main.clone();
    alt.append(" ");
    alt.append(clean.as_str());
    let cc = chars_of(cand.as_str());
    let exact_title = same_chars(cc.as_slice(), chars_of(clean.as_str()).as_slice())
        || same_chars(cc.as_slice(), chars_of(alt.as_str()).as_slice());
    MatchFacts {
        title_found,
        title_words,
        artist_in,
        artist_found,
        artist_words,
        forbidden,
        topic,
        own_channel,
        version_hits,
        version_words: version.len(),
        extra_years,
        extra_other,
        exact_title,
    }
}


/// A result's channel is the artist's own exactly when the song names a main artist and that
/// artist, normalised, stands somewhere in the channel's normalised name.
pub proof fn lemma_own_channel(f: MatchFacts, st: Seq<char>, sa: Seq<Seq<char>>, rt: Seq<char>, rc: Seq<char>)
    requires
        facts_hold(f, st, sa, rt, rc),
        sa.len() > 0,
    ensures
        f.own_channel <==> (norm_spec(sa[0]).len() > 0 && occurs_in(norm_spec(sa[0]), norm_spec(rc))),
{
    lemma_find_sub_occurs(norm_spec(rc), norm_spec(sa[0]));
}

/// A channel whose name is the artist's, whatever its case or accents, is the artist's own.
pub proof fn lemma_artist_channel_is_own(f: MatchFacts, st: Seq<char>, sa: Seq<Seq<char>>, rt: Seq<char>, rc: Seq<char>)
    requires
        facts_hold(f, st, sa, rt, rc),
        sa.len() > 0,
        norm_spec(rc) == norm_spec(sa[0]),
        norm_spec(sa[0]).len() > 0,
    ensures
        f.own_channel,
{
    lemma_own_channel(f, st, sa, rt, rc);
    let m = norm_spec(sa[0]);
    assert(m.subrange(0, 0 + m.len() as int) =~= m);
}

} // verus!
