//! Spotify METADATA (title, artists, length, cover) from the public "embed" pages, with no
//! account or credentials. The audio never comes from Spotify (it is DRM-protected and left
//! alone): each song is looked up and downloaded from YouTube.

use vstd::prelude::*;
use crate::text::{occurs_in, lemma_sub_occurs, lemma_occurs_trans, lemma_trim_occurs, lemma_trim_twice, lemma_split_all_occurs, lemma_find_char_bounds, find_char, chars_of, same_chars, append_text, same_str, string_of, trim, is_ws, split_acc, lemma_split_acc_tail, lemma_find_char, trim_chars, strip, strip_prefix, split_once, split_once_char,
    split_all, split_chars, starts, starts_with, after_sub, find_sub, find_str, slice_vec, push_char, decimal,
    decimal_string};

use crate::json::{json_of, parse_json, Json, field, item, str_of, u64_of, arr_of, val, get, at, as_str, as_u64, as_array};

verus! {

/// What a Spotify link points at.
#[derive(Clone, Copy, PartialEq, Eq, Debug, Structural)]
pub enum Kind {
    Track,
    Album,
    Playlist,
}

pub open spec fn path_spec(k: Kind) -> Seq<char> {
    match k {
        Kind::Track => "track"@,
        Kind::Album => "album"@,
        Kind::Playlist => "playlist"@,
    }
}

impl Kind {
    /// The kind as it appears in links.
    pub fn path(self) -> (p: &'static str)
        ensures
            p@ == path_spec(self),
    {
        match self {
            Kind::Track => "track",
            Kind::Album => "album",
            Kind::Playlist => "playlist",
        }
    }
}

/// The kind named by a link segment.
pub open spec fn kind_of(s: Seq<char>) -> Option<Kind> {
    if s == "track"@ {
        Some(Kind::Track)
    } else if s == "album"@ {
        Some(Kind::Album)
    } else if s == "playlist"@ {
        Some(Kind::Playlist)
    } else {
        None
    }
}

pub open spec fn ascii_alnum(c: char) -> bool {
    ('a' <= c && c <= 'z') || ('A' <= c && c <= 'Z') || ('0' <= c && c <= '9')
}

/// A Spotify id: 22 ASCII letters and digits.
pub open spec fn sp_id(s: Seq<char>) -> bool {
    s.len() == 22 && forall|i: int| 0 <= i < 22 ==> ascii_alnum(#[trigger] s[i])
}

/// The non-empty pieces.
pub open spec fn nonempty(ps: Seq<Seq<char>>) -> Seq<Seq<char>>
    decreases ps.len(),
{
    if ps.len() == 0 {
        Seq::empty()
    } else {
        nonempty(ps.drop_last()) + if ps.last().len() > 0 { seq![ps.last()] } else { Seq::empty() }
    }
}

/// The pieces after the leading `intl-xx` ones.
pub open spec fn skip_intl(ps: Seq<Seq<char>>) -> Seq<Seq<char>>
    decreases ps.len(),
{
    if ps.len() > 0 && starts(ps[0], "intl-"@) { skip_intl(ps.drop_first()) } else { ps }
}

/// `s` up to its first `?` or `#`.
pub open spec fn before_query(s: Seq<char>) -> Seq<char>
    decreases s.len(),
{
    if s.len() == 0 || s[0] == '?' || s[0] == '#' { Seq::empty() } else { seq![s[0]] + before_query(s.drop_first()) }
}

/// The kind and id of a Spotify link: `https://open.spotify.com/[intl-xx/]track|album|playlist/ID`
/// (with or without scheme, query or fragment) or a `spotify:track:ID` URI.
pub open spec fn link_spec(input: Seq<char>) -> Option<(Kind, Seq<char>)> {
    let input = trim(input);
    match strip(input, "spotify:"@) {
        Some(rest) => {
            let parts = split_all(rest, ':');
            match kind_of(parts[0]) {
                None => None,
                Some(k) => if parts.len() >= 2 && sp_id(parts[1]) { Some((k, parts[1])) } else { None },
            }
        },
        None => {
            let rest = match strip(input, "https://"@) {
                Some(r) => r,
                None => match strip(input, "http://"@) { Some(r) => r, None => input },
            };
            match split_once(rest, '/') {
                None => None,
                Some((host, path)) => if host != "open.spotify.com"@ {
                    None
                } else {
                    let segs = skip_intl(nonempty(split_all(before_query(path), '/')));
                    if segs.len() >= 2 && kind_of(segs[0]) is Some && sp_id(segs[1]) {
                        Some((kind_of(segs[0])->0, segs[1]))
                    } else {
                        None
                    }
                },
            }
        },
    }
}

/// A Spotify URI built from a kind's path and an id reads back as that kind and id.
pub proof fn lemma_uri_reads_back(k: Kind, id: Seq<char>)
    requires
        sp_id(id),
    ensures
        link_spec("spotify:"@ + path_spec(k) + ":"@ + id) == Some((k, id)),
{
    reveal_strlit("spotify:");
    reveal_strlit(":");
    reveal_strlit("track");
    reveal_strlit("album");
    reveal_strlit("playlist");
    let p = path_spec(k);
    let u = "spotify:"@ + p + ":"@ + id;
    assert(!is_ws(u[0]));
    assert(u.last() == id[21]);
    assert(ascii_alnum(id[21]));
    assert(!is_ws(u.last()));
    assert(trim(u) == u);
    let rest = p + ":"@ + id;
    assert(u.subrange(0, 8) =~= "spotify:"@);
    assert(u.subrange(8, u.len() as int) =~= rest);
    assert(strip(u, "spotify:"@) == Some(rest));
    assert forall|i: int| 0 <= i < p.len() implies p[i] != ':' by {}
    assert forall|i: int| 0 <= i < id.len() implies id[i] != ':' by {
        assert(ascii_alnum(id[i]));
    }
    lemma_split_acc_tail(Seq::empty(), p, ':');
    assert(Seq::<char>::empty() + p =~= p);
    assert(split_acc(Seq::<char>::empty(), ':') == (Seq::<Seq<char>>::empty(), Seq::<char>::empty()));
    let pc = p + ":"@;
    assert(pc.drop_last() =~= p);
    assert(pc.last() == ':');
    assert(split_acc(pc, ':') == (seq![p], Seq::<char>::empty())) by {
        assert(Seq::<Seq<char>>::empty().push(p) =~= seq![p]);
    }
    lemma_split_acc_tail(pc, id, ':');
    assert(Seq::<char>::empty() + id =~= id);
    assert(pc + id =~= rest);
    assert(split_all(rest, ':') =~= seq![p, id]);
}

proof fn lemma_before_query_plain(s: Seq<char>)
    requires
        forall|i: int| 0 <= i < s.len() ==> s[i] != '?' && s[i] != '#',
    ensures
        before_query(s) == s,
    decreases s.len(),
{
    if s.len() > 0 {
        let t = s.drop_first();
        assert forall|i: int| 0 <= i < t.len() implies t[i] != '?' && t[i] != '#' by {
            assert(t[i] == s[i + 1]);
        }
        lemma_before_query_plain(t);
        assert(seq![s[0]] + t =~= s);
    }
}

/// A link to a Spotify page built from a kind's path and an id reads back as that kind and id.
pub proof fn lemma_link_reads_back(k: Kind, id: Seq<char>)
    requires
        sp_id(id),
    ensures
        link_spec("https://open.spotify.com/"@ + path_spec(k) + "/"@ + id) == Some((k, id)),
{
    reveal_strlit("https://open.spotify.com/");
    reveal_strlit("https://");
    reveal_strlit("spotify:");
    reveal_strlit("open.spotify.com");
    reveal_strlit("open.spotify.com/");
    reveal_strlit("/");
    reveal_strlit("intl-");
    reveal_strlit("track");
    reveal_strlit("album");
    reveal_strlit("playlist");
    let p = path_spec(k);
    let u = "https://open.spotify.com/"@ + p + "/"@ + id;
    assert(!is_ws(u[0]));
    assert(u.last() == id[21]);
    assert(ascii_alnum(id[21]));
    assert(trim(u) == u);
    assert(!starts(u, "spotify:"@)) by {
        if starts(u, "spotify:"@) {
            assert(u.subrange(0, 8)[0] == "spotify:"@[0]);
        }
    }
    let rest = "open.spotify.com/"@ + p + "/"@ + id;
    assert(u.subrange(0, 8) =~= "https://"@);
    assert(u.subrange(8, u.len() as int) =~= rest);
    assert(strip(u, "https://"@) == Some(rest));
    let host = "open.spotify.com"@;
    let path = p + "/"@ + id;
    assert(rest =~= host + "/"@ + path);
    assert forall|j: int| 0 <= j < 16 implies rest[j] != '/' by {
        assert(rest[j] == host[j]);
    }
    lemma_find_char(rest, '/', 16);
    assert(rest.subrange(0, 16) =~= host);
    assert(rest.subrange(17, rest.len() as int) =~= path);
    assert(split_once(rest, '/') == Some((host, path)));
    assert forall|i: int| 0 <= i < path.len() implies path[i] != '?' && path[i] != '#' by {
        if i >= p.len() + 1 {
            assert(path[i] == id[i - p.len() - 1]);
            assert(ascii_alnum(id[i - p.len() - 1]));
        }
    }
    lemma_before_query_plain(path);
    assert forall|i: int| 0 <= i < p.len() implies p[i] != '/' by {}
    assert forall|i: int| 0 <= i < id.len() implies id[i] != '/' by {
        assert(ascii_alnum(id[i]));
    }
    lemma_split_acc_tail(Seq::empty(), p, '/');
    assert(Seq::<char>::empty() + p =~= p);
    let pc = p + "/"@;
    assert(pc.drop_last() =~= p);
    assert(pc.last() == '/');
    assert(split_acc(pc, '/') == (seq![p], Seq::<char>::empty())) by {
        assert(Seq::<Seq<char>>::empty().push(p) =~= seq![p]);
    }
    lemma_split_acc_tail(pc, id, '/');
    assert(Seq::<char>::empty() + id =~= id);
    assert(pc + id =~= path);
    let parts = split_all(path, '/');
    assert(parts =~= seq![p, id]);
    assert(p.len() > 0);
    assert(nonempty(seq![p]) =~= seq![p]) by {
        assert(seq![p].drop_last() =~= Seq::<Seq<char>>::empty());
        assert(nonempty(Seq::<Seq<char>>::empty()) == Seq::<Seq<char>>::empty());
        assert(seq![p].last() == p);
        assert(Seq::<Seq<char>>::empty() + seq![p] =~= seq![p]);
    }
    assert(nonempty(parts) =~= seq![p, id]) by {
        assert(parts.drop_last() =~= seq![p]);
        assert(parts.last() == id);
        assert(seq![p] + seq![id] =~= seq![p, id]);
    }
    assert(!starts(p, "intl-"@)) by {
        if starts(p, "intl-"@) {
            assert(p.subrange(0, 5)[0] == "intl-"@[0]);
        }
    }
    assert(skip_intl(seq![p, id]) == seq![p, id]);
}

fn kind_of_exec(s: &[char]) -> (r: Option<Kind>)
    ensures
        r == kind_of(s@),
{
    if same_str(s, "track") {
        Some(Kind::Track)
    } else if same_str(s, "album") {
        Some(Kind::Album)
    } else if same_str(s, "playlist") {
        Some(Kind::Playlist)
    } else {
        None
    }
}

fn is_sp_id(s: &[char]) -> (r: bool)
    ensures
        r == sp_id(s@),
{
    if s.len() != 22 {
        return false;
    }
    let mut i: usize = 0;
    while i < 22
        invariant
            i <= 22,
            s.len() == 22,
            forall|j: int| 0 <= j < i ==> ascii_alnum(#[trigger] s@[j]),
        decreases 22 - i,
    {
        let c = s[i];
        if !(('a' <= c && c <= 'z') || ('A' <= c && c <= 'Z') || ('0' <= c && c <= '9')) {
            return false;
        }
        i = i + 1;
    }
    true
}

fn before_query_exec(s: &[char]) -> (r: Vec<char>)
    ensures
        r@ == before_query(s@),
{
    let mut i: usize = 0;
    proof {
        assert(s@.subrange(0, s@.len() as int) =~= s@);
        assert(s@.subrange(0, 0) + before_query(s@) =~= before_query(s@));
    }
    while i < s.len() && s[i] != '?' && s[i] != '#'
        invariant
            i <= s.len(),
            before_query(s@) == s@.subrange(0, i as int) + before_query(s@.subrange(i as int, s@.len() as int)),
        decreases s.len() - i,
    {
        let ghost t = s@.subrange(i as int, s@.len() as int);
        assert(t.drop_first() =~= s@.subrange(i + 1, s@.len() as int));
        assert(s@.subrange(0, i + 1) =~= s@.subrange(0, i as int) + seq![t[0]]);
        i = i + 1;
    }
    assert(before_query(s@.subrange(i as int, s@.len() as int)) =~= Seq::<char>::empty());
    assert(s@.subrange(0, i as int) + Seq::<char>::empty() =~= s@.subrange(0, i as int));
    slice_vec(s, 0, i)
}

fn segments(path: &[char]) -> (r: Vec<Vec<char>>)
    ensures
        r@.len() == skip_intl(nonempty(split_all(path@, '/'))).len(),
        forall|i: int| 0 <= i < r@.len() ==> #[trigger] r@[i]@ == skip_intl(nonempty(split_all(path@, '/')))[i],
{
    let parts = split_chars(path, '/');
    let ghost ps = split_all(path@, '/');
    let mut kept: Vec<Vec<char>> = Vec::new();
    let mut i: usize = 0;
    while i < parts.len()
        invariant
            i <= parts.len(),
            parts@.len() == ps.len(),
            forall|j: int| 0 <= j < parts@.len() ==> #[trigger] parts@[j]@ == ps[j],
            kept@.len() == nonempty(ps.subrange(0, i as int)).len(),
            forall|j: int| 0 <= j < kept@.len() ==> #[trigger] kept@[j]@ == nonempty(ps.subrange(0, i as int))[j],
        decreases parts.len() - i,
    {
        assert(ps.subrange(0, i + 1).drop_last() =~= ps.subrange(0, i as int));
        assert(ps.subrange(0, i + 1).last() == parts@[i as int]@);
        if parts[i].len() > 0 {
            let p = slice_vec(parts[i].as_slice(), 0, parts[i].len());
            assert(p@ =~= parts@[i as int]@);
            kept.push(p);
        } else {
            assert(nonempty(ps.subrange(0, i + 1)) =~= nonempty(ps.subrange(0, i as int)));
        }
        i = i + 1;
    }
    assert(ps.subrange(0, i as int) =~= ps);
    let ghost ne = nonempty(ps);
    let mut k: usize = 0;
    let intl = chars_of("intl-");
    assert(ne.subrange(0, ne.len() as int) =~= ne);
    while k < kept.len() && starts_with(kept[k].as_slice(), intl.as_slice())
        invariant
            k <= kept.len(),
            kept@.len() == ne.len(),
            intl@ == "intl-"@,
            forall|j: int| 0 <= j < kept@.len() ==> #[trigger] kept@[j]@ == ne[j],
            skip_intl(ne) == skip_intl(ne.subrange(k as int, ne.len() as int)),
        decreases kept.len() - k,
    {
        let ghost t = ne.subrange(k as int, ne.len() as int);
        assert(t[0] == kept@[k as int]@);
        assert(t.drop_first() =~= ne.subrange(k + 1, ne.len() as int));
        k = k + 1;
    }
    let ghost t = ne.subrange(k as int, ne.len() as int);
    assert(k < kept.len() ==> t[0] == kept@[k as int]@);
    let mut out: Vec<Vec<char>> = Vec::new();
    let mut m = k;
    while m < kept.len()
        invariant
            k <= m <= kept.len(),
            kept@.len() == ne.len(),
            forall|j: int| 0 <= j < kept@.len() ==> #[trigger] kept@[j]@ == ne[j],
            t == ne.subrange(k as int, ne.len() as int),
            out@.len() == m - k,
            forall|j: int| 0 <= j < out@.len() ==> #[trigger] out@[j]@ == t[j],
        decreases kept.len() - m,
    {
        let p = slice_vec(kept[m].as_slice(), 0, kept[m].len());
        assert(p@ =~= kept@[m as int]@);
        out.push(p);
        m = m + 1;
    }
    out
}

/// What comes before the query is where the text starts.
proof fn lemma_before_query_prefix(s: Seq<char>)
    ensures
        before_query(s).len() <= s.len(),
        before_query(s) == s.subrange(0, before_query(s).len() as int),
    decreases s.len(),
{
    if !(s.len() == 0 || s[0] == '?' || s[0] == '#') {
        lemma_before_query_prefix(s.drop_first());
        assert(seq![s[0]] + before_query(s.drop_first()) =~= s.subrange(0, before_query(s).len() as int));
    }
}

/// The pieces kept by `nonempty` are pieces of the list.
proof fn lemma_nonempty_from(ps: Seq<Seq<char>>)
    ensures
        forall|j: int| 0 <= j < nonempty(ps).len() ==> ps.contains(#[trigger] nonempty(ps)[j]),
    decreases ps.len(),
{
    if ps.len() > 0 {
        let p0 = ps.drop_last();
        lemma_nonempty_from(p0);
        let tail: Seq<Seq<char>> = if ps.last().len() > 0 { seq![ps.last()] } else { Seq::empty() };
        assert forall|j: int| 0 <= j < nonempty(ps).len() implies ps.contains(#[trigger] nonempty(ps)[j]) by {
            if j < nonempty(p0).len() {
                let x = nonempty(p0)[j];
                assert(nonempty(ps)[j] == x);
                let k = choose|k: int| 0 <= k < p0.len() && p0[k] == x;
                assert(ps[k] == x);
            } else {
                assert(nonempty(ps)[j] == ps.last());
                assert(ps[ps.len() - 1] == ps.last());
            }
        }
    }
}

/// Skipping the language segments leaves the end of the list.
proof fn lemma_skip_intl_suffix(ps: Seq<Seq<char>>) -> (k: int)
    ensures
        0 <= k <= ps.len(),
        skip_intl(ps) == ps.subrange(k, ps.len() as int),
    decreases ps.len(),
{
    if ps.len() > 0 && starts(ps[0], "intl-"@) {
        let k = lemma_skip_intl_suffix(ps.drop_first());
        assert(ps.drop_first().subrange(k, ps.len() - 1) =~= ps.subrange(k + 1, ps.len() as int));
        k + 1
    } else {
        assert(ps.subrange(0, ps.len() as int) =~= ps);
        0
    }
}

/// A link is read the same with or without the spaces around it, and the id it gives is 22
/// ASCII letters or digits that stand in the link itself.
pub proof fn lemma_link_id_in_input(input: Seq<char>)
    ensures
        link_spec(trim(input)) == link_spec(input),
        link_spec(input) matches Some((k, id)) ==> sp_id(id) && occurs_in(id, input),
{
    lemma_trim_twice(input);
    let t = trim(input);
    lemma_trim_occurs(input);
    match link_spec(input) {
        None => {},
        Some((k, id)) => {
            match strip(t, "spotify:"@) {
                Some(rest) => {
                    lemma_sub_occurs(t, "spotify:"@.len() as int, t.len() as int);
                    assert(rest == t.subrange("spotify:"@.len() as int, t.len() as int));
                    lemma_split_all_occurs(rest, ':');
                    let parts = split_all(rest, ':');
                    assert(occurs_in(parts[1], rest));
                    lemma_occurs_trans(id, rest, t);
                    lemma_occurs_trans(id, t, input);
                },
                None => {
                    let rest = match strip(t, "https://"@) {
                        Some(r) => r,
                        None => match strip(t, "http://"@) { Some(r) => r, None => t },
                    };
                    assert(occurs_in(rest, t)) by {
                        match strip(t, "https://"@) {
                            Some(r) => { lemma_sub_occurs(t, "https://"@.len() as int, t.len() as int); },
                            None => match strip(t, "http://"@) {
                                Some(r) => { lemma_sub_occurs(t, "http://"@.len() as int, t.len() as int); },
                                None => { lemma_sub_occurs(t, 0, t.len() as int); assert(t.subrange(0, t.len() as int) =~= t); },
                            },
                        }
                    }
                    lemma_find_char_bounds(rest, '/');
                    let i = find_char(rest, '/')->0;
                    let path = rest.subrange(i + 1, rest.len() as int);
                    lemma_sub_occurs(rest, i + 1, rest.len() as int);
                    let bq = before_query(path);
                    lemma_before_query_prefix(path);
                    lemma_sub_occurs(path, 0, bq.len() as int);
                    let all = split_all(bq, '/');
                    lemma_split_all_occurs(bq, '/');
                    lemma_nonempty_from(all);
                    let ne = nonempty(all);
                    let m = lemma_skip_intl_suffix(ne);
                    let segs = skip_intl(ne);
                    assert(segs[1] == ne[m + 1]);
                    assert(all.contains(ne[m + 1]));
                    let q = choose|q: int| 0 <= q < all.len() && all[q] == ne[m + 1];
                    assert(occurs_in(all[q], bq));
                    lemma_occurs_trans(id, bq, path);
                    lemma_occurs_trans(id, path, rest);
                    lemma_occurs_trans(id, rest, t);
                    lemma_occurs_trans(id, t, input);
                },
            }
        },
    }
}

/// The kind and id of a Spotify link (see `link_spec`).
pub fn parse_link(input: &str) -> (r: Option<(Kind, String)>)
    ensures
        match link_spec(input@) {
            Some((k, id)) => r matches Some((rk, rid)) && rk == k && rid@ == id,
            None => r is None,
        },
{
    let all = trim_chars(chars_of(input).as_slice());
    match strip_prefix(all.as_slice(), chars_of("spotify:").as_slice()) {
        Some(rest) => {
            let parts = split_chars(rest.as_slice(), ':');
            let k = match kind_of_exec(parts[0].as_slice()) {
                Some(k) => k,
                None => {
                    return None;
                }
            };
            if parts.len() >= 2 && is_sp_id(parts[1].as_slice()) {
                Some((k, string_of(parts[1].as_slice())))
            } else {
                None
            }
        }
        None => {
            let rest = match strip_prefix(all.as_slice(), chars_of("https://").as_slice()) {
                Some(r) => r,
                None => match strip_prefix(all.as_slice(), chars_of("http://").as_slice()) {
                    Some(r) => r,
                    None => all,
                },
            };
            match split_once_char(rest.as_slice(), '/') {
                None => None,
                Some((host, path)) => {
                    if !same_str(host.as_slice(), "open.spotify.com") {
                        return None;
                    }
                    let segs = segments(before_query_exec(path.as_slice()).as_slice());
                    if segs.len() >= 2 {
                        match kind_of_exec(segs[0].as_slice()) {
                            Some(k) => if is_sp_id(segs[1].as_slice()) {
                                Some((k, string_of(segs[1].as_slice())))
                            } else {
                                None
                            },
                            None => None,
                        }
                    } else {
                        None
                    }
                }
            }
        }
    }
}

// ---------- songs and lists ----------

/// A song's metadata.
pub struct Track {
    pub id: String,
    pub title: String,
    pub artists: Vec<String>,
    pub duration_ms: u64,
    pub album: Option<String>,
    pub year: Option<String>,
    pub cover_url: Option<String>,
}

/// A song, an album or a playlist.
pub struct Collection {
    pub kind: Kind,
    pub name: String,
    pub tracks: Vec<Track>,
}

pub open spec fn strings_view(v: Seq<String>) -> Seq<Seq<char>> {
    Seq::new(v.len(), |i: int| v[i]@)
}

pub open spec fn opt_view(o: Option<String>) -> Option<Seq<char>> {
    match o {
        Some(s) => Some(s@),
        None => None,
    }
}

/// Pieces joined with a separator.
pub open spec fn join_with(ps: Seq<Seq<char>>, sep: Seq<char>) -> Seq<char>
    decreases ps.len(),
{
    if ps.len() == 0 {
        Seq::empty()
    } else if ps.len() == 1 {
        ps[0]
    } else {
        join_with(ps.drop_last(), sep) + sep + ps.last()
    }
}

/// Strings joined with a separator (`join`).
pub fn join_strings(v: &Vec<String>, sep: &str) -> (r: String)
    ensures
        r@ == join_with(strings_view(v@), sep@),
{
    let ghost sv = strings_view(v@);
    let mut r = String::new();
    let mut i: usize = 0;
    while i < v.len()
        invariant
            i <= v.len(),
            sv == strings_view(v@),
            r@ == join_with(sv.subrange(0, i as int), sep@),
        decreases v.len() - i,
    {
        assert(sv.subrange(0, i + 1).drop_last() =~= sv.subrange(0, i as int));
        assert(sv[i as int] == v@[i as int]@);
        let ghost pre = r@;
        if i > 0 {
            append_text(&mut r, sep);
        }
        append_text(&mut r, v[i].as_str());
        proof {
            if i == 0 {
                assert(sv.subrange(0, 1) =~= seq![sv[0]]);
                assert(r@ =~= sv[0]);
            }
        }
        i = i + 1;
    }
    assert(sv.subrange(0, i as int) =~= sv);
    r
}

fn clone_strings(v: &Vec<String>) -> (r: Vec<String>)
    ensures
        strings_view(r@) == strings_view(v@),
{
    let mut r: Vec<String> = Vec::new();
    let mut i: usize = 0;
    while i < v.len()
        invariant
            i <= v.len(),
            r@.len() == i,
            forall|j: int| 0 <= j < i ==> #[trigger] r@[j]@ == v@[j]@,
        decreases v.len() - i,
    {
        r.push(v[i].clone());
        i = i + 1;
    }
    assert(strings_view(r@) =~= strings_view(v@));
    r
}

fn clone_opt(o: &Option<String>) -> (r: Option<String>)
    ensures
        opt_view(r) == opt_view(*o),
{
    match o {
        Some(s) => Some(s.clone()),
        None => None,
    }
}

impl Track {
    /// The first artist ("" when there is none).
    pub fn main_artist(&self) -> (a: &str)
        ensures
            a@ == if self.artists@.len() > 0 { self.artists@[0]@ } else { ""@ },
    {
        if self.artists.len() > 0 {
            self.artists[0].as_str()
        } else {
            ""
        }
    }

    /// "Artist 1, Artist 2 - Title".
    pub fn label(&self) -> (l: String)
        ensures
            l@ == join_with(strings_view(self.artists@), ", "@) + " - "@ + self.title@,
    {
        let mut l = join_strings(&self.artists, ", ");
        append_text(&mut l, " - ");
        append_text(&mut l, self.title.as_str());
        l
    }

    /// A copy of the song.
    pub fn duplicate(&self) -> (t: Track)
        ensures
            t.id@ == self.id@,
            t.title@ == self.title@,
            strings_view(t.artists@) == strings_view(self.artists@),
            t.duration_ms == self.duration_ms,
            opt_view(t.album) == opt_view(self.album),
            opt_view(t.year) == opt_view(self.year),
            opt_view(t.cover_url) == opt_view(self.cover_url),
    {
        Track {
            id: self.id.clone(),
            title: self.title.clone(),
            artists: clone_strings(&self.artists),
            duration_ms: self.duration_ms,
            album: clone_opt(&self.album),
            year: clone_opt(&self.year),
            cover_url: clone_opt(&self.cover_url),
        }
    }
}

/// A song of a list with what its own page says: its artists when it lists any, its length
/// when known, and its cover and year when it has them; the rest stays.
pub fn refined(track: &Track, fresh: Option<&Track>) -> (t: Track)
    ensures
        t.id@ == track.id@,
        t.title@ == track.title@,
        opt_view(t.album) == opt_view(track.album),
        match fresh {
            None => strings_view(t.artists@) == strings_view(track.artists@) && t.duration_ms == track.duration_ms
                && opt_view(t.cover_url) == opt_view(track.cover_url) && opt_view(t.year) == opt_view(track.year),
            Some(f) => {
                &&& strings_view(t.artists@) == if f.artists@.len() == 0 { strings_view(track.artists@) } else { strings_view(f.artists@) }
                &&& t.duration_ms == if f.duration_ms > 0 { f.duration_ms } else { track.duration_ms }
                &&& opt_view(t.cover_url) == if f.cover_url is Some { opt_view(f.cover_url) } else { opt_view(track.cover_url) }
                &&& opt_view(t.year) == if f.year is Some { opt_view(f.year) } else { opt_view(track.year) }
            },
        },
{
    match fresh {
        None => track.duplicate(),
        Some(f) => Track {
            id: track.id.clone(),
            title: track.title.clone(),
            artists: if f.artists.len() == 0 { clone_strings(&track.artists) } else { clone_strings(&f.artists) },
            duration_ms: if f.duration_ms > 0 { f.duration_ms } else { track.duration_ms },
            album: clone_opt(&track.album),
            year: if f.year.is_some() { clone_opt(&f.year) } else { clone_opt(&track.year) },
            cover_url: if f.cover_url.is_some() { clone_opt(&f.cover_url) } else { clone_opt(&track.cover_url) },
        },
    }
}

/// The id at the end of a `spotify:track:ID` URI (what follows the last `:`).
pub fn track_id(uri: &str) -> (id: String)
    ensures
        id@ == split_all(uri@, ':').last(),
{
    let parts = split_chars(chars_of(uri).as_slice(), ':');
    let n = parts.len();
    string_of(parts[n - 1].as_slice())
}

/// The first four characters of a release date: its year.
pub fn year_of(iso: Option<&str>) -> (y: Option<String>)
    ensures
        match iso {
            Some(s) => y matches Some(v) && v@ == if s@.len() > 4 { s@.subrange(0, 4) } else { s@ },
            None => y is None,
        },
{
    match iso {
        Some(s) => {
            let cs = chars_of(s);
            let n: usize = if cs.len() > 4 { 4 } else { cs.len() };
            let v = slice_vec(cs.as_slice(), 0, n);
            assert(cs.len() <= 4 ==> v@ =~= s@);
            Some(string_of(v.as_slice()))
        }
        None => None,
    }
}

/// An artist of a list entry: trimmed, with no-break spaces as plain spaces.
pub open spec fn artist_piece(p: Seq<char>) -> Seq<char> {
    trim(p).map_values(|c: char| if c == '\u{a0}' { ' ' } else { c })
}

/// The artists of a list entry's subtitle: the non-empty comma-separated pieces.
pub open spec fn subtitle_artists(s: Seq<Seq<char>>) -> Seq<Seq<char>>
    decreases s.len(),
{
    if s.len() == 0 {
        Seq::empty()
    } else {
        let a = artist_piece(s.last());
        subtitle_artists(s.drop_last()) + if a.len() > 0 { seq![a] } else { Seq::empty() }
    }
}

/// The artists of a list entry's subtitle ("Artist 1, Artist 2").
pub fn split_artists(subtitle: &str) -> (r: Vec<String>)
    ensures
        strings_view(r@) == subtitle_artists(split_all(subtitle@, ',')),
{
    let parts = split_chars(chars_of(subtitle).as_slice(), ',');
    let ghost ps = split_all(subtitle@, ',');
    let mut out: Vec<String> = Vec::new();
    let mut i: usize = 0;
    while i < parts.len()
        invariant
            i <= parts.len(),
            parts@.len() == ps.len(),
            forall|j: int| 0 <= j < parts@.len() ==> #[trigger] parts@[j]@ == ps[j],
            strings_view(out@) == subtitle_artists(ps.subrange(0, i as int)),
        decreases parts.len() - i,
    {
        assert(ps.subrange(0, i + 1).drop_last() =~= ps.subrange(0, i as int));
        assert(ps.subrange(0, i + 1).last() == parts@[i as int]@);
        let t = trim_chars(parts[i].as_slice());
        let mut a: Vec<char> = Vec::new();
        let mut k: usize = 0;
        while k < t.len()
            invariant
                k <= t.len(),
                a@ == t@.subrange(0, k as int).map_values(|c: char| if c == '\u{a0}' { ' ' } else { c }),
            decreases t.len() - k,
        {
            let c = t[k];
            a.push(if c == '\u{a0}' { ' ' } else { c });
            assert(t@.subrange(0, k + 1).map_values(|c: char| if c == '\u{a0}' { ' ' } else { c })
                =~= t@.subrange(0, k as int).map_values(|c: char| if c == '\u{a0}' { ' ' } else { c }).push(
                if c == '\u{a0}' { ' ' } else { c }));
            k = k + 1;
        }
        assert(t@.subrange(0, k as int) =~= t@);
        let ghost before = strings_view(out@);
        if a.len() > 0 {
            out.push(string_of(a.as_slice()));
            assert(strings_view(out@) =~= before.push(a@));
        } else {
            assert(before + Seq::<Seq<char>>::empty() =~= before);
        }
        i = i + 1;
    }
    assert(ps.subrange(0, i as int) =~= ps);
    out
}

/// An image of a page: its declared widths and its address.
pub struct Image {
    pub max_width: Option<u64>,
    pub width: Option<u64>,
    pub url: Option<String>,
}

pub open spec fn img_width(i: Image) -> u64 {
    match i.max_width {
        Some(w) => w,
        None => match i.width {
            Some(w) => w,
            None => 0,
        },
    }
}

/// The widest image with an address among the first `n` (the last of equals).
pub open spec fn widest(imgs: Seq<Image>, n: nat) -> Option<int>
    decreases n,
{
    if n == 0 {
        None
    } else {
        let r = widest(imgs, (n - 1) as nat);
        let i = n - 1;
        if imgs[i].url is Some && (r matches Some(j) ==> img_width(imgs[i]) >= img_width(imgs[j])) { Some(i) } else { r }
    }
}

/// The address of the widest image.
pub fn best_image(images: &Vec<Image>) -> (r: Option<String>)
    ensures
        match widest(images@, images@.len()) {
            Some(i) => r matches Some(u) && images@[i].url matches Some(x) && u@ == x@,
            None => r is None,
        },
{
    let mut best: Option<usize> = None;
    let mut bw: u64 = 0;
    let mut i: usize = 0;
    while i < images.len()
        invariant
            i <= images.len(),
            best == match widest(images@, i as nat) { Some(j) => Some(j as usize), None => None::<usize> },
            widest(images@, i as nat) matches Some(j) ==> 0 <= j < i && bw == img_width(images@[j]) && images@[j].url is Some,
        decreases images.len() - i,
    {
        let im = &images[i];
        let w = match im.max_width {
            Some(w) => w,
            None => match im.width {
                Some(w) => w,
                None => 0,
            },
        };
        if im.url.is_some() && (best.is_none() || w >= bw) {
            best = Some(i);
            bw = w;
        }
        i = i + 1;
    }
    match best {
        Some(j) => match &images[j].url {
            Some(u) => Some(u.clone()),
            None => None,
        },
        None => None,
    }
}

/// Why a Spotify page gives no data.
#[derive(Clone, Copy, PartialEq, Eq, Debug, Structural)]
pub enum SpotifyError {
    /// No data block: a private or missing link.
    NoData,
    /// The data block is cut short.
    Unreadable,
}

impl SpotifyError {
    pub fn message(&self) -> (m: String)
        ensures
            m@ == match self {
                SpotifyError::NoData => "Spotify no devolvió datos (¿enlace privado o inexistente?)"@,
                SpotifyError::Unreadable => "Página de Spotify ilegible"@,
            },
    {
        match self {
            SpotifyError::NoData => String::from_str("Spotify no devolvió datos (¿enlace privado o inexistente?)"),
            SpotifyError::Unreadable => String::from_str("Página de Spotify ilegible"),
        }
    }
}

/// The JSON text of the `__NEXT_DATA__` script of a page: from the `>` after its id to the
/// next `</script>`.
pub open spec fn next_data_spec(html: Seq<char>) -> Result<Seq<char>, SpotifyError> {
    match find_sub(html, "id=\"__NEXT_DATA__\""@) {
        None => Err(SpotifyError::NoData),
        Some(tag) => match find_sub(html.subrange(tag, html.len() as int), ">"@) {
            None => Err(SpotifyError::Unreadable),
            Some(gt) => {
                let start = tag + gt + 1;
                match find_sub(html.subrange(start, html.len() as int), "</script>"@) {
                    None => Err(SpotifyError::Unreadable),
                    Some(len) => Ok(html.subrange(start, start + len)),
                }
            },
        },
    }
}

/// The JSON text of a Spotify page's data block.
pub fn next_data(html: &str) -> (r: Result<String, SpotifyError>)
    ensures
        match next_data_spec(html@) {
            Ok(t) => r matches Ok(s) && s@ == t,
            Err(e) => r == Err::<String, SpotifyError>(e),
        },
{
    let h = chars_of(html);
    let tag = match find_str(h.as_slice(), chars_of("id=\"__NEXT_DATA__\"").as_slice()) {
        Some(t) => t,
        None => {
            return Err(SpotifyError::NoData);
        }
    };
    let rest = slice_vec(h.as_slice(), tag, h.len());
    let gtc = chars_of(">");
    assert(gtc@.len() == 1) by {
        reveal_strlit(">");
    }
    let gt = match find_str(rest.as_slice(), gtc.as_slice()) {
        Some(g) => g,
        None => {
            return Err(SpotifyError::Unreadable);
        }
    };
    let start = tag + gt + 1;
    let tail = slice_vec(h.as_slice(), start, h.len());
    let len = match find_str(tail.as_slice(), chars_of("</script>").as_slice()) {
        Some(l) => l,
        None => {
            return Err(SpotifyError::Unreadable);
        }
    };
    Ok(string_of(slice_vec(h.as_slice(), start, start + len).as_slice()))
}

// ---------- reading a page's entity ----------

/// An entry of an album's or playlist's track list, as the page gives it.
pub struct ListEntry {
    pub title: Option<String>,
    pub uri: Option<String>,
    pub subtitle: Option<String>,
    pub duration: Option<u64>,
}

/// What the logic reads of a page's entity (`props.pageProps.state.data.entity`).
pub struct Entity {
    /// `name`, and `title` in its absence
    pub name: Option<String>,
    pub title: Option<String>,
    /// `visualIdentity.image`
    pub images: Vec<Image>,
    /// `coverArt.sources[0].url`
    pub cover_source: Option<String>,
    /// `releaseDate.isoString`
    pub release: Option<String>,
    /// the `name` of each of `artists` (a song's page)
    pub artists: Vec<Option<String>>,
    /// `duration` (a song's page)
    pub duration: Option<u64>,
    /// `trackList` when it is a list (an album's or playlist's page)
    pub track_list: Option<Vec<ListEntry>>,
}

/// A song as plain values.
pub struct TrackView {
    pub id: Seq<char>,
    pub title: Seq<char>,
    pub artists: Seq<Seq<char>>,
    pub duration_ms: u64,
    pub album: Option<Seq<char>>,
    pub year: Option<Seq<char>>,
    pub cover_url: Option<Seq<char>>,
}

pub open spec fn track_view(t: Track) -> TrackView {
    TrackView {
        id: t.id@,
        title: t.title@,
        artists: strings_view(t.artists@),
        duration_ms: t.duration_ms,
        album: opt_view(t.album),
        year: opt_view(t.year),
        cover_url: opt_view(t.cover_url),
    }
}

pub open spec fn tracks_view(v: Seq<Track>) -> Seq<TrackView> {
    Seq::new(v.len(), |i: int| track_view(v[i]))
}

/// The year of a release date: its first four characters.
pub open spec fn year_view(iso: Option<Seq<char>>) -> Option<Seq<char>> {
    match iso {
        Some(s) => Some(if s.len() > 4 { s.subrange(0, 4) } else { s }),
        None => None,
    }
}

/// The address of the widest image, as `best_image` gives it.
pub open spec fn best_image_view(imgs: Seq<Image>) -> Option<Seq<char>> {
    match widest(imgs, imgs.len()) {
        Some(i) => opt_view(imgs[i].url),
        None => None,
    }
}

/// The names that are present.
pub open spec fn present(v: Seq<Option<String>>) -> Seq<Seq<char>>
    decreases v.len(),
{
    if v.len() == 0 {
        Seq::empty()
    } else {
        present(v.drop_last()) + match v.last() {
            Some(n) => seq![n@],
            None => Seq::empty(),
        }
    }
}

/// The name of the entity: `name`, else `title`, else empty.
pub open spec fn entity_name(e: Entity) -> Seq<char> {
    match e.name {
        Some(n) => n@,
        None => match e.title {
            Some(t) => t@,
            None => Seq::empty(),
        },
    }
}

/// The cover of the entity: its widest image, else the first cover source.
pub open spec fn entity_cover(e: Entity) -> Option<Seq<char>> {
    match best_image_view(e.images@) {
        Some(u) => Some(u),
        None => opt_view(e.cover_source),
    }
}

/// The song of a list entry that has a title and a URI.
pub open spec fn entry_track(kind: Kind, name: Seq<char>, year: Option<Seq<char>>, cover: Option<Seq<char>>,
    t: ListEntry) -> Option<TrackView> {
    match (t.title, t.uri) {
        (Some(title), Some(uri)) => Some(TrackView {
            id: split_all(uri@, ':').last(),
            title: title@,
            artists: subtitle_artists(split_all(match t.subtitle { Some(s) => s@, None => Seq::empty() }, ',')),
            duration_ms: match t.duration { Some(d) => d, None => 0 },
            album: if kind == Kind::Album { Some(name) } else { None },
            year,
            cover_url: cover,
        }),
        _ => None,
    }
}

/// The songs of the entries that have a title and a URI, in order.
pub open spec fn list_tracks(kind: Kind, name: Seq<char>, year: Option<Seq<char>>, cover: Option<Seq<char>>,
    es: Seq<ListEntry>) -> Seq<TrackView>
    decreases es.len(),
{
    if es.len() == 0 {
        Seq::empty()
    } else {
        list_tracks(kind, name, year, cover, es.drop_last()) + match entry_track(kind, name, year, cover, es.last()) {
            Some(t) => seq![t],
            None => Seq::empty(),
        }
    }
}

/// The songs of a page: the song itself, or the list of an album or playlist.
pub open spec fn entity_tracks(kind: Kind, id: Seq<char>, e: Entity) -> Seq<TrackView> {
    let name = entity_name(e);
    let year = year_view(opt_view(e.release));
    let cover = entity_cover(e);
    match kind {
        Kind::Track => seq![TrackView {
            id,
            title: name,
            artists: present(e.artists@),
            duration_ms: match e.duration { Some(d) => d, None => 0 },
            album: None,
            year,
            cover_url: cover,
        }],
        _ => match e.track_list {
            Some(es) => list_tracks(kind, name, year, cover, es@),
            None => Seq::empty(),
        },
    }
}

/// Why a page's entity gives no songs.
#[derive(Clone, Copy, PartialEq, Eq, Debug, Structural)]
pub enum EntityError {
    /// The page has no entity (a private or missing link).
    Missing,
    /// The entity lists no songs.
    NoTracks,
}

impl EntityError {
    pub fn message(&self) -> (m: String)
        ensures
            m@ == match self {
                EntityError::Missing => "Spotify no devolvió la ficha (¿enlace privado o inexistente?)"@,
                EntityError::NoTracks => "No se encontraron canciones en ese enlace de Spotify"@,
            },
    {
        match self {
            EntityError::Missing => String::from_str("Spotify no devolvió la ficha (¿enlace privado o inexistente?)"),
            EntityError::NoTracks => String::from_str("No se encontraron canciones en ese enlace de Spotify"),
        }
    }
}

fn present_names(v: &Vec<Option<String>>) -> (r: Vec<String>)
    ensures
        strings_view(r@) == present(v@),
{
    let mut out: Vec<String> = Vec::new();
    let mut i: usize = 0;
    while i < v.len()
        invariant
            i <= v.len(),
            strings_view(out@) == present(v@.take(i as int)),
        decreases v.len() - i,
    {
        assert(v@.take(i as int + 1).drop_last() =~= v@.take(i as int));
        assert(v@.take(i as int + 1).last() == v@[i as int]);
        let ghost before = strings_view(out@);
        match &v[i] {
            Some(n) => {
                out.push(n.clone());
                assert(strings_view(out@) =~= before + seq![n@]);
            }
            None => {
                assert(before + Seq::<Seq<char>>::empty() =~= before);
            }
        }
        i = i + 1;
    }
    assert(v@.take(i as int) =~= v@);
    out
}

/// The songs of a Spotify page's entity (`None` when the page has none): a song's page gives
/// the song, an album's or playlist's page the entries of its list that have a title and a
/// URI. All of them share the entity's year and cover; an album's songs also carry its name.
pub fn collection_of(kind: Kind, id: &str, entity: Option<&Entity>) -> (r: Result<Collection, EntityError>)
    ensures
        match entity {
            None => r == Err::<Collection, EntityError>(EntityError::Missing),
            Some(e) => {
                let ts = entity_tracks(kind, id@, *e);
                if ts.len() == 0 {
                    r == Err::<Collection, EntityError>(EntityError::NoTracks)
                } else {
                    r matches Ok(c) && c.kind == kind && c.name@ == entity_name(*e) && tracks_view(c.tracks@) == ts
                }
            },
        },
{
    let e = match entity {
        Some(e) => e,
        None => {
            return Err(EntityError::Missing);
        }
    };
    let name: String = match &e.name {
        Some(n) => n.clone(),
        None => match &e.title {
            Some(t) => t.clone(),
            None => String::new(),
        },
    };
    let cover: Option<String> = match best_image(&e.images) {
        Some(u) => Some(u),
        None => clone_opt(&e.cover_source),
    };
    let year = match &e.release {
        Some(r) => year_of(Some(r.as_str())),
        None => year_of(None),
    };
    let ghost yv = year_view(opt_view(e.release));
    let ghost cv = entity_cover(*e);
    assert(opt_view(year) == yv);
    assert(opt_view(cover) == cv);
    let mut tracks: Vec<Track> = Vec::new();
    match kind {
        Kind::Track => {
            tracks.push(Track {
                id: String::from_str(id),
                title: name.clone(),
                artists: present_names(&e.artists),
                duration_ms: match e.duration {
                    Some(d) => d,
                    None => 0,
                },
                album: None,
                year: clone_opt(&year),
                cover_url: clone_opt(&cover),
            });
            assert(tracks_view(tracks@) =~= entity_tracks(kind, id@, *e));
        },
        _ => {
            match &e.track_list {
                Some(es) => {
                    let mut i: usize = 0;
                    while i < es.len()
                        invariant
                            i <= es.len(),
                            kind != Kind::Track,
                            name@ == entity_name(*e),
                            opt_view(year) == yv,
                            opt_view(cover) == cv,
                            tracks_view(tracks@) == list_tracks(kind, name@, yv, cv, es@.take(i as int)),
                        decreases es.len() - i,
                    {
                        assert(es@.take(i as int + 1).drop_last() =~= es@.take(i as int));
                        assert(es@.take(i as int + 1).last() == es@[i as int]);
                        let t = &es[i];
                        let ghost before = tracks_view(tracks@);
                        match (&t.title, &t.uri) {
                            (Some(title), Some(uri)) => {
                                let artists = match &t.subtitle {
                                    Some(sub) => split_artists(sub.as_str()),
                                    None => split_artists(""),
                                };
                                proof {
                                    reveal_strlit("");
                                }
                                let tr = Track {
                                    id: track_id(uri.as_str()),
                                    title: title.clone(),
                                    artists,
                                    duration_ms: match t.duration {
                                        Some(d) => d,
                                        None => 0,
                                    },
                                    album: if kind == Kind::Album { Some(name.clone()) } else { None },
                                    year: clone_opt(&year),
                                    cover_url: clone_opt(&cover),
                                };
                                proof {
                                    let ev = entry_track(kind, name@, yv, cv, es@[i as int]);
                                    assert(ev == Some(track_view(tr)));
                                }
                                tracks.push(tr);
                                assert(tracks_view(tracks@) =~= before + seq![track_view(tr)]);
                            },
                            _ => {
                                assert(entry_track(kind, name@, yv, cv, es@[i as int]) is None);
                                assert(before + Seq::<TrackView>::empty() =~= before);
                            },
                        }
                        i = i + 1;
                    }
                    assert(es@.take(i as int) =~= es@);
                },
                None => {
                    assert(tracks_view(tracks@) =~= Seq::<TrackView>::empty());
                },
            }
        },
    }
    if tracks.len() == 0 {
        return Err(EntityError::NoTracks);
    }
    Ok(Collection { kind, name, tracks })
}

/// A page answered with a status outside 200..=299.
pub fn page_status(code: u16) -> (r: Result<(), String>)
    ensures
        200 <= code <= 299 ==> r is Ok,
        !(200 <= code <= 299) ==> (r matches Err(m) && m@ == "Spotify respondió HTTP "@ + decimal(code as nat)),
{
    if 200 <= code && code <= 299 {
        Ok(())
    } else {
        let mut m = String::from_str("Spotify respondió HTTP ");
        let d = decimal_string(code as u64);
        m.append(d.as_str());
        Err(m)
    }
}

/// An image entry read from the page.
pub open spec fn image_read(x: Image, j: Json) -> bool {
    &&& x.max_width == u64_of(field(Some(j), "maxWidth"@))
    &&& x.width == u64_of(field(Some(j), "width"@))
    &&& opt_view(x.url) == str_of(field(Some(j), "url"@))
}

/// A list entry read from the page.
pub open spec fn entry_read(x: ListEntry, j: Json) -> bool {
    &&& opt_view(x.title) == str_of(field(Some(j), "title"@))
    &&& opt_view(x.uri) == str_of(field(Some(j), "uri"@))
    &&& opt_view(x.subtitle) == str_of(field(Some(j), "subtitle"@))
    &&& x.duration == u64_of(field(Some(j), "duration"@))
}

pub open spec fn list_of(j: Option<Json>) -> Seq<Json> {
    match arr_of(j) {
        Some(a) => a,
        None => Seq::empty(),
    }
}

/// The entity of a page's data: `props.pageProps.state.data.entity`, unless missing or null.
pub open spec fn entity_json(data: Json) -> Option<Json> {
    let e = field(field(field(field(field(Some(data), "props"@), "pageProps"@), "state"@), "data"@), "entity"@);
    match e {
        Some(Json::Null) => None,
        _ => e,
    }
}

/// What an `Entity` holds of the entity `e` of a page.
pub open spec fn entity_read(x: Entity, e: Json) -> bool {
    let images = list_of(field(field(Some(e), "visualIdentity"@), "image"@));
    let artists = list_of(field(Some(e), "artists"@));
    &&& opt_view(x.name) == str_of(field(Some(e), "name"@))
    &&& opt_view(x.title) == str_of(field(Some(e), "title"@))
    &&& x.images@.len() == images.len()
    &&& forall|i: int| 0 <= i < images.len() ==> image_read(#[trigger] x.images@[i], images[i])
    &&& opt_view(x.cover_source) == str_of(field(item(field(field(Some(e), "coverArt"@), "sources"@), 0), "url"@))
    &&& opt_view(x.release) == str_of(field(field(Some(e), "releaseDate"@), "isoString"@))
    &&& x.artists@.len() == artists.len()
    &&& forall|i: int| 0 <= i < artists.len() ==> opt_view(#[trigger] x.artists@[i]) == str_of(field(Some(artists[i]), "name"@))
    &&& x.duration == u64_of(field(Some(e), "duration"@))
    &&& match arr_of(field(Some(e), "trackList"@)) {
        Some(es) => x.track_list matches Some(l) && l@.len() == es.len()
            && forall|i: int| 0 <= i < es.len() ==> entry_read(#[trigger] l@[i], es[i]),
        None => x.track_list is None,
    }
}

fn opt_str(j: Option<&Json>) -> (r: Option<String>)
    ensures
        opt_view(r) == str_of(val(j)),
{
    match as_str(j) {
        Some(s) => Some(String::from_str(s)),
        None => None,
    }
}

/// The entity of a page's data block, as the library reads it.
pub fn entity_of(data: &Json) -> (r: Option<Entity>)
    ensures
        match entity_json(*data) {
            Some(e) => r matches Some(x) && entity_read(x, e),
            None => r is None,
        },
{
    let eo = get(get(get(get(get(Some(data), "props"), "pageProps"), "state"), "data"), "entity");
    let e: &Json = match eo {
        Some(Json::Null) => {
            return None;
        },
        Some(x) => x,
        None => {
            return None;
        },
    };
    let ej = Some(e);
    let mut images: Vec<Image> = Vec::new();
    match as_array(get(get(ej, "visualIdentity"), "image")) {
        Some(a) => {
            let mut i: usize = 0;
            while i < a.len()
                invariant
                    i <= a.len(),
                    images@.len() == i,
                    forall|k: int| 0 <= k < i ==> image_read(#[trigger] images@[k], a@[k]),
                decreases a.len() - i,
            {
                let it = Some(&a[i]);
                images.push(Image { max_width: as_u64(get(it, "maxWidth")), width: as_u64(get(it, "width")), url: opt_str(get(it, "url")) });
                i = i + 1;
            }
        },
        None => {},
    }
    let mut artists: Vec<Option<String>> = Vec::new();
    match as_array(get(ej, "artists")) {
        Some(a) => {
            let mut i: usize = 0;
            while i < a.len()
                invariant
                    i <= a.len(),
                    artists@.len() == i,
                    forall|k: int| 0 <= k < i ==> opt_view(#[trigger] artists@[k]) == str_of(field(Some(a@[k]), "name"@)),
                decreases a.len() - i,
            {
                artists.push(opt_str(get(Some(&a[i]), "name")));
                i = i + 1;
            }
        },
        None => {},
    }
    let track_list = match as_array(get(ej, "trackList")) {
        Some(a) => {
            let mut l: Vec<ListEntry> = Vec::new();
            let mut i: usize = 0;
            while i < a.len()
                invariant
                    i <= a.len(),
                    l@.len() == i,
                    forall|k: int| 0 <= k < i ==> entry_read(#[trigger] l@[k], a@[k]),
                decreases a.len() - i,
            {
                let t = Some(&a[i]);
                l.push(ListEntry {
                    title: opt_str(get(t, "title")),
                    uri: opt_str(get(t, "uri")),
                    subtitle: opt_str(get(t, "subtitle")),
                    duration: as_u64(get(t, "duration")),
                });
                i = i + 1;
            }
            Some(l)
        },
        None => None,
    };
    Some(Entity {
        name: opt_str(get(ej, "name")),
        title: opt_str(get(ej, "title")),
        images,
        cover_source: opt_str(get(at(get(get(ej, "coverArt"), "sources"), 0), "url")),
        release: opt_str(get(get(ej, "releaseDate"), "isoString")),
        artists,
        duration: as_u64(get(ej, "duration")),
        track_list,
    })
}

/// The songs of a Spotify page's data block (see `entity_of` and `collection_of`).
/// What reading the songs of `data` gives (see `collection_from`).
pub open spec fn collection_holds(kind: Kind, id: Seq<char>, data: Json, r: Result<Collection, EntityError>) -> bool {
    match entity_json(data) {
        None => r == Err::<Collection, EntityError>(EntityError::Missing),
        Some(e) => exists|x: Entity| entity_read(x, e) && {
            let ts = entity_tracks(kind, id, x);
            if ts.len() == 0 {
                r == Err::<Collection, EntityError>(EntityError::NoTracks)
            } else {
                r matches Ok(c) && c.kind == kind && c.name@ == entity_name(x) && tracks_view(c.tracks@) == ts
            }
        },
    }
}

pub fn collection_from(kind: Kind, id: &str, data: &Json) -> (r: Result<Collection, EntityError>)
    ensures
        collection_holds(kind, id@, *data, r),
{
    match entity_of(data) {
        Some(x) => collection_of(kind, id, Some(&x)),
        None => collection_of(kind, id, None),
    }
}


/// Why a Spotify page gives no songs.
#[derive(Debug)]
pub enum PageError {
    /// No data block, or one cut short.
    Page(SpotifyError),
    /// The data block is not JSON (serde_json's message).
    Json(String),
    /// The data has no entity, or no songs.
    Entity(EntityError),
}

impl PageError {
    pub fn message(&self) -> (m: String)
        ensures
            match self {
                PageError::Page(e) => m@ == match e {
                    SpotifyError::NoData => "Spotify no devolvió datos (¿enlace privado o inexistente?)"@,
                    SpotifyError::Unreadable => "Página de Spotify ilegible"@,
                },
                PageError::Json(t) => m@ == t@,
                PageError::Entity(e) => m@ == match e {
                    EntityError::Missing => "Spotify no devolvió la ficha (¿enlace privado o inexistente?)"@,
                    EntityError::NoTracks => "No se encontraron canciones en ese enlace de Spotify"@,
                },
            },
    {
        match self {
            PageError::Page(e) => e.message(),
            PageError::Json(t) => t.clone(),
            PageError::Entity(e) => e.message(),
        }
    }
}

/// The songs of a Spotify embed page: its data block (`next_data`), read as JSON, then its
/// entity (`collection_from`).
pub fn collection_of_page(kind: Kind, id: &str, html: &str) -> (r: Result<Collection, PageError>)
    ensures
        match next_data_spec(html@) {
            Err(e) => r == Err::<Collection, PageError>(PageError::Page(e)),
            Ok(t) => match json_of(t) {
                None => r matches Err(PageError::Json(_)),
                Some(data) => match r {
                    Ok(c) => collection_holds(kind, id@, data, Ok(c)),
                    Err(PageError::Entity(x)) => collection_holds(kind, id@, data, Err(x)),
                    Err(_) => false,
                },
            },
        },
{
    let text = match next_data(html) {
        Ok(t) => t,
        Err(e) => {
            return Err(PageError::Page(e));
        },
    };
    let data = match parse_json(text.as_str()) {
        Ok(d) => d,
        Err(m) => {
            return Err(PageError::Json(m));
        },
    };
    match collection_from(kind, id, &data) {
        Ok(c) => Ok(c),
        Err(x) => Err(PageError::Entity(x)),
    }
}

} // verus!
