//! Character-level helpers on strings.

use vstd::prelude::*;
use vstd::std_specs::iter::IteratorSpec;

verus! {

broadcast use vstd::string::group_string_axioms;

/// The characters of a string.
pub fn chars_of(s: &str) -> (v: Vec<char>)
    ensures
        v@ == s@,
{
    let mut v: Vec<char> = Vec::new();
    let mut it = s.chars();
    let ghost all = it.remaining();
    assert(all == s@);
    loop
        invariant
            all == s@,
            it.obeys_prophetic_iter_laws(),
            all == v@ + it.remaining(),
            it.decrease() is Some,
        decreases it.decrease()->0,
    {
        match it.next() {
            Some(c) => {
                v.push(c);
                assert(all =~= v@ + it.remaining());
            }
            None => {
                assert(v@ =~= all);
                return v;
            }
        }
    }
}

/// `String::push`: appends one character.
#[verifier::external_body]
pub fn push_char(s: &mut String, c: char)
    ensures
        final(s)@ == old(s)@.push(c),
{
    s.push(c)
}

/// A string holding the characters.
pub fn string_of(cs: &[char]) -> (s: String)
    ensures
        s@ == cs@,
{
    let mut s = String::new();
    let mut i: usize = 0;
    while i < cs.len()
        invariant
            i <= cs.len(),
            s@ == cs@.subrange(0, i as int),
        decreases cs.len() - i,
    {
        push_char(&mut s, cs[i]);
        assert(cs@.subrange(0, i + 1) =~= cs@.subrange(0, i as int).push(cs@[i as int]));
        i = i + 1;
    }
    assert(cs@.subrange(0, i as int) =~= cs@);
    s
}

/// Unicode White_Space, what `char::is_whitespace` and `str::split_whitespace` go by.
pub open spec fn is_ws(c: char) -> bool {
    ||| c == ' ' || ('\u{9}' <= c && c <= '\u{d}')
    ||| c == '\u{85}' || c == '\u{a0}' || c == '\u{1680}'
    ||| ('\u{2000}' <= c && c <= '\u{200a}')
    ||| c == '\u{2028}' || c == '\u{2029}' || c == '\u{202f}' || c == '\u{205f}' || c == '\u{3000}'
}

pub fn is_white(c: char) -> (r: bool)
    ensures
        r == is_ws(c),
{
    c == ' ' || ('\u{9}' <= c && c <= '\u{d}') || c == '\u{85}' || c == '\u{a0}' || c == '\u{1680}'
        || ('\u{2000}' <= c && c <= '\u{200a}') || c == '\u{2028}' || c == '\u{2029}' || c == '\u{202f}'
        || c == '\u{205f}' || c == '\u{3000}'
}

/// Splitting on whitespace, read left to right: the words closed so far and the word in
/// progress.
pub open spec fn ws_split(s: Seq<char>) -> (Seq<Seq<char>>, Seq<char>)
    decreases s.len(),
{
    if s.len() == 0 {
        (Seq::empty(), Seq::empty())
    } else {
        let (ws, cur) = ws_split(s.drop_last());
        if is_ws(s.last()) {
            if cur.len() > 0 { (ws.push(cur), Seq::empty()) } else { (ws, Seq::empty()) }
        } else {
            (ws, cur.push(s.last()))
        }
    }
}

/// The words of `s`: the maximal runs of non-whitespace characters, in order.
pub open spec fn words(s: Seq<char>) -> Seq<Seq<char>> {
    let (ws, cur) = ws_split(s);
    if cur.len() > 0 { ws.push(cur) } else { ws }
}

/// `str::split_whitespace`.
pub fn split_words(s: &[char]) -> (r: Vec<Vec<char>>)
    ensures
        r@.len() == words(s@).len(),
        forall|i: int| 0 <= i < r@.len() ==> #[trigger] r@[i]@ == words(s@)[i],
{
    let mut ws: Vec<Vec<char>> = Vec::new();
    let mut cur: Vec<char> = Vec::new();
    let mut i: usize = 0;
    while i < s.len()
        invariant
            i <= s.len(),
            ws_split(s@.subrange(0, i as int)).0.len() == ws@.len(),
            forall|j: int| 0 <= j < ws@.len() ==> #[trigger] ws@[j]@ == ws_split(s@.subrange(0, i as int)).0[j],
            cur@ == ws_split(s@.subrange(0, i as int)).1,
        decreases s.len() - i,
    {
        let c = s[i];
        let ghost pre = s@.subrange(0, i as int);
        assert(s@.subrange(0, i + 1).drop_last() =~= pre);
        assert(s@.subrange(0, i + 1).last() == c);
        if is_white(c) {
            if cur.len() > 0 {
                let w = cur;
                let ghost wv = w@;
                ws.push(w);
                cur = Vec::new();
                proof {
                    let (p0, p1) = ws_split(pre);
                    assert forall|j: int| 0 <= j < ws@.len() implies #[trigger] ws@[j]@ == p0.push(p1)[j] by {}
                }
            }
        } else {
            cur.push(c);
        }
        i = i + 1;
    }
    assert(s@.subrange(0, i as int) =~= s@);
    if cur.len() > 0 {
        ws.push(cur);
    }
    ws
}

/// The decimal digits of `n`.
pub open spec fn decimal(n: nat) -> Seq<char>
    decreases n,
{
    if n < 10 {
        seq![(n + 48) as char]
    } else {
        decimal(n / 10).push((n % 10 + 48) as char)
    }
}

/// `n` written in decimal.
pub fn decimal_string(n: u64) -> (s: String)
    ensures
        s@ == decimal(n as nat),
    decreases n,
{
    if n < 10 {
        let mut s = String::new();
        push_char(&mut s, digit(n));
        assert(s@ =~= decimal(n as nat));
        s
    } else {
        let mut s = decimal_string(n / 10);
        push_char(&mut s, digit(n % 10));
        s
    }
}

fn digit(d: u64) -> (c: char)
    requires
        d < 10,
    ensures
        c == (d + 48) as char,
{
    if d == 0 { '0' } else if d == 1 { '1' } else if d == 2 { '2' } else if d == 3 { '3' } else if d == 4 { '4' }
    else if d == 5 { '5' } else if d == 6 { '6' } else if d == 7 { '7' } else if d == 8 { '8' } else { '9' }
}

/// `s` starts with `p`.
pub open spec fn starts(s: Seq<char>, p: Seq<char>) -> bool {
    p.len() <= s.len() && s.subrange(0, p.len() as int) == p
}

/// Whether two character strings are equal.
pub fn same_chars(a: &[char], b: &[char]) -> (r: bool)
    ensures
        r == (a@ == b@),
{
    if a.len() != b.len() {
        return false;
    }
    let mut i: usize = 0;
    while i < a.len()
        invariant
            i <= a.len(),
            a.len() == b.len(),
            forall|j: int| 0 <= j < i ==> a@[j] == b@[j],
        decreases a.len() - i,
    {
        if a[i] != b[i] {
            return false;
        }
        i = i + 1;
    }
    assert(a@ =~= b@);
    true
}

/// Appends `t` to `s`.
pub fn append_text(s: &mut String, t: &str)
    ensures
        final(s)@ == old(s)@ + t@,
{
    s.append(t);
}

/// Whether a character string is the text `b`.
pub fn same_str(a: &[char], b: &str) -> (r: bool)
    ensures
        r == (a@ == b@),
{
    same_chars(a, chars_of(b).as_slice())
}

pub fn starts_with(s: &[char], p: &[char]) -> (r: bool)
    ensures
        r == starts(s@, p@),
{
    if p.len() > s.len() {
        return false;
    }
    let mut i: usize = 0;
    while i < p.len()
        invariant
            i <= p.len(),
            p.len() <= s.len(),
            forall|j: int| 0 <= j < i ==> s@[j] == p@[j],
        decreases p.len() - i,
    {
        if s[i] != p[i] {
            assert(s@.subrange(0, p.len() as int)[i as int] != p@[i as int]);
            return false;
        }
        i = i + 1;
    }
    assert(s@.subrange(0, p.len() as int) =~= p@);
    true
}

/// The index of the first `c` in `s`.
pub open spec fn find_char(s: Seq<char>, c: char) -> Option<int>
    decreases s.len(),
{
    if s.len() == 0 {
        None
    } else if s[0] == c {
        Some(0)
    } else {
        match find_char(s.drop_first(), c) {
            Some(i) => Some(i + 1),
            None => None,
        }
    }
}

pub proof fn lemma_find_char(s: Seq<char>, c: char, i: int)
    requires
        0 <= i <= s.len(),
        forall|j: int| 0 <= j < i ==> s[j] != c,
    ensures
        i < s.len() && s[i] == c ==> find_char(s, c) == Some(i),
        i == s.len() ==> find_char(s, c) is None,
    decreases i,
{
    if i > 0 {
        assert forall|j: int| 0 <= j < i - 1 implies s.drop_first()[j] != c by {
            assert(s.drop_first()[j] == s[j + 1]);
        }
        lemma_find_char(s.drop_first(), c, i - 1);
    }
}

pub proof fn lemma_find_char_range(s: Seq<char>, c: char)
    ensures
        find_char(s, c) matches Some(i) ==> 0 <= i < s.len() && s[i] == c
            && forall|j: int| 0 <= j < i ==> s[j] != c,
    decreases s.len(),
{
    if s.len() > 0 && s[0] != c {
        lemma_find_char_range(s.drop_first(), c);
        if let Some(i) = find_char(s.drop_first(), c) {
            assert forall|j: int| 0 <= j < i + 1 implies s[j] != c by {
                if j > 0 {
                    assert(s[j] == s.drop_first()[j - 1]);
                }
            }
        }
    }
}

/// The index of the first `c` in `s`.
pub fn index_of(s: &[char], c: char) -> (r: Option<usize>)
    ensures
        r matches Some(k) ==> (find_char(s@, c) == Some(k as int) && k < s.len()),
        r is None ==> find_char(s@, c) is None,
{
    let mut i: usize = 0;
    while i < s.len()
        invariant
            i <= s.len(),
            forall|j: int| 0 <= j < i ==> s@[j] != c,
        decreases s.len() - i,
    {
        if s[i] == c {
            proof {
                lemma_find_char(s@, c, i as int);
            }
            return Some(i);
        }
        i = i + 1;
    }
    proof {
        lemma_find_char(s@, c, i as int);
    }
    None
}

/// What comes before the first `c` (all of `s` without one).
pub open spec fn before(s: Seq<char>, c: char) -> Seq<char> {
    match find_char(s, c) {
        Some(i) => s.subrange(0, i),
        None => s,
    }
}

/// `s` split at its first `c`: before and after it.
pub open spec fn split_once(s: Seq<char>, c: char) -> Option<(Seq<char>, Seq<char>)> {
    match find_char(s, c) {
        Some(i) => Some((s.subrange(0, i), s.subrange(i + 1, s.len() as int))),
        None => None,
    }
}

pub fn before_char(s: &[char], c: char) -> (r: Vec<char>)
    ensures
        r@ == before(s@, c),
{
    proof {
        lemma_find_char_range(s@, c);
    }
    match index_of(s, c) {
        Some(i) => slice_vec(s, 0, i),
        None => slice_vec(s, 0, s.len()),
    }
}

pub fn split_once_char(s: &[char], c: char) -> (r: Option<(Vec<char>, Vec<char>)>)
    ensures
        match split_once(s@, c) {
            Some((a, b)) => r matches Some((x, y)) && x@ == a && y@ == b,
            None => r is None,
        },
{
    proof {
        lemma_find_char_range(s@, c);
    }
    match index_of(s, c) {
        Some(i) => Some((slice_vec(s, 0, i), slice_vec(s, i + 1, s.len()))),
        None => None,
    }
}

/// A copy of `s[a..b]`.
pub fn slice_vec(s: &[char], a: usize, b: usize) -> (r: Vec<char>)
    requires
        a <= b <= s.len(),
    ensures
        r@ == s@.subrange(a as int, b as int),
{
    let mut r: Vec<char> = Vec::new();
    let mut i = a;
    while i < b
        invariant
            a <= i <= b,
            b <= s.len(),
            r@ == s@.subrange(a as int, i as int),
        decreases b - i,
    {
        r.push(s[i]);
        assert(s@.subrange(a as int, i + 1) =~= s@.subrange(a as int, i as int).push(s@[i as int]));
        i = i + 1;
    }
    r
}

/// `s` without the prefix `p`, when it has it.
pub open spec fn strip(s: Seq<char>, p: Seq<char>) -> Option<Seq<char>> {
    if starts(s, p) { Some(s.subrange(p.len() as int, s.len() as int)) } else { None }
}

pub fn strip_prefix(s: &[char], p: &[char]) -> (r: Option<Vec<char>>)
    ensures
        match strip(s@, p@) {
            Some(t) => r matches Some(v) && v@ == t,
            None => r is None,
        },
{
    if starts_with(s, p) {
        Some(slice_vec(s, p.len(), s.len()))
    } else {
        None
    }
}

/// `s` without leading and trailing whitespace (`str::trim`).
pub open spec fn trim(s: Seq<char>) -> Seq<char>
    decreases s.len(),
{
    if s.len() > 0 && is_ws(s[0]) {
        trim(s.drop_first())
    } else if s.len() > 0 && is_ws(s.last()) {
        trim(s.drop_last())
    } else {
        s
    }
}

pub fn trim_chars(s: &[char]) -> (r: Vec<char>)
    ensures
        r@ == trim(s@),
{
    let mut a: usize = 0;
    let mut b: usize = s.len();
    assert(s@.subrange(0, s@.len() as int) =~= s@);
    while a < b && is_white(s[a])
        invariant
            a <= b <= s.len(),
            b == s.len(),
            trim(s@) == trim(s@.subrange(a as int, b as int)),
        decreases b - a,
    {
        assert(s@.subrange(a as int, b as int).drop_first() =~= s@.subrange(a + 1, b as int));
        a = a + 1;
    }
    while a < b && is_white(s[b - 1])
        invariant
            a <= b <= s.len(),
            a == b || !is_ws(s@[a as int]),
            trim(s@) == trim(s@.subrange(a as int, b as int)),
        decreases b - a,
    {
        let ghost t = s@.subrange(a as int, b as int);
        assert(t.drop_last() =~= s@.subrange(a as int, b - 1));
        assert(t[0] == s@[a as int]);
        b = b - 1;
    }
    let ghost t = s@.subrange(a as int, b as int);
    assert(t.len() > 0 ==> t[0] == s@[a as int] && t.last() == s@[b - 1]);
    slice_vec(s, a, b)
}

/// The pieces of `s` between the `c`s (`str::split`), read left to right: the pieces closed
/// so far and the piece in progress.
pub open spec fn split_acc(s: Seq<char>, c: char) -> (Seq<Seq<char>>, Seq<char>)
    decreases s.len(),
{
    if s.len() == 0 {
        (Seq::empty(), Seq::empty())
    } else {
        let (ps, cur) = split_acc(s.drop_last(), c);
        if s.last() == c { (ps.push(cur), Seq::empty()) } else { (ps, cur.push(s.last())) }
    }
}

/// Splitting `a` followed by a piece without `c`: that piece extends the piece in progress.
pub proof fn lemma_split_acc_tail(a: Seq<char>, b: Seq<char>, c: char)
    requires
        forall|i: int| 0 <= i < b.len() ==> b[i] != c,
    ensures
        split_acc(a + b, c) == (split_acc(a, c).0, split_acc(a, c).1 + b),
    decreases b.len(),
{
    if b.len() == 0 {
        assert(a + b =~= a);
        assert(split_acc(a, c).1 + b =~= split_acc(a, c).1);
    } else {
        let b0 = b.drop_last();
        lemma_split_acc_tail(a, b0, c);
        assert((a + b).drop_last() =~= a + b0);
        assert((a + b).last() == b.last());
        assert(split_acc(a, c).1 + b0.push(b.last()) =~= split_acc(a, c).1 + b);
        assert(b0.push(b.last()) =~= b);
    }
}

/// The pieces of `s` between the `c`s; there is always at least one.
pub open spec fn split_all(s: Seq<char>, c: char) -> Seq<Seq<char>> {
    let (ps, cur) = split_acc(s, c);
    ps.push(cur)
}

pub fn split_chars(s: &[char], c: char) -> (r: Vec<Vec<char>>)
    ensures
        r@.len() == split_all(s@, c).len(),
        forall|i: int| 0 <= i < r@.len() ==> #[trigger] r@[i]@ == split_all(s@, c)[i],
{
    let mut ps: Vec<Vec<char>> = Vec::new();
    let mut cur: Vec<char> = Vec::new();
    let mut i: usize = 0;
    while i < s.len()
        invariant
            i <= s.len(),
            split_acc(s@.subrange(0, i as int), c).0.len() == ps@.len(),
            forall|j: int| 0 <= j < ps@.len() ==> #[trigger] ps@[j]@ == split_acc(s@.subrange(0, i as int), c).0[j],
            cur@ == split_acc(s@.subrange(0, i as int), c).1,
        decreases s.len() - i,
    {
        let x = s[i];
        assert(s@.subrange(0, i + 1).drop_last() =~= s@.subrange(0, i as int));
        assert(s@.subrange(0, i + 1).last() == x);
        if x == c {
            ps.push(cur);
            cur = Vec::new();
        } else {
            cur.push(x);
        }
        i = i + 1;
    }
    assert(s@.subrange(0, i as int) =~= s@);
    ps.push(cur);
    ps
}

pub open spec fn is_digit(c: char) -> bool {
    '0' <= c && c <= '9'
}

/// The value of a string of decimal digits.
pub open spec fn digits_value(s: Seq<char>) -> nat
    decreases s.len(),
{
    if s.len() == 0 { 0 } else { digits_value(s.drop_last()) * 10 + (s.last() as nat - 48) as nat }
}

/// `str::parse::<u64>`: an optional `+`, then one or more decimal digits, of value at most
/// `u64::MAX`.
pub open spec fn parse_u64_spec(s: Seq<char>) -> Option<u64> {
    let d = unsigned_part(s);
    if d.len() > 0 && all_digits(d) && digits_value(d) <= u64::MAX {
        Some(digits_value(d) as u64)
    } else {
        None
    }
}

/// The number without its optional `+`.
pub open spec fn unsigned_part(s: Seq<char>) -> Seq<char> {
    if s.len() > 0 && s[0] == '+' { s.drop_first() } else { s }
}

pub open spec fn all_digits(d: Seq<char>) -> bool {
    forall|i: int| 0 <= i < d.len() ==> is_digit(#[trigger] d[i])
}

pub fn parse_u64(s: &[char]) -> (r: Option<u64>)
    ensures
        r == parse_u64_spec(s@),
{
    let start: usize = if s.len() > 0 && s[0] == '+' { 1 } else { 0 };
    let ghost d = unsigned_part(s@);
    assert(d =~= s@.subrange(start as int, s@.len() as int));
    if start >= s.len() {
        return None;
    }
    let mut v: u64 = 0;
    let mut i = start;
    while i < s.len()
        invariant
            start <= i <= s.len(),
            d == s@.subrange(start as int, s@.len() as int),
            d == unsigned_part(s@),
            forall|j: int| start <= j < i ==> is_digit(#[trigger] s@[j]),
            v == digits_value(s@.subrange(start as int, i as int)),
        decreases s.len() - i,
    {
        let c = s[i];
        assert(s@.subrange(start as int, i + 1).drop_last() =~= s@.subrange(start as int, i as int));
        assert(d[i - start] == s@[i as int]);
        if !('0' <= c && c <= '9') {
            assert(!is_digit(d[i - start]));
            assert(!all_digits(d));
            return None;
        }
        let dv = (c as u32 - 48) as u64;
        if v > (0xFFFF_FFFF_FFFF_FFFF - dv) / 10 {
            proof {
                assert(v * 10 + dv > 0xFFFF_FFFF_FFFF_FFFFu64) by (nonlinear_arith)
                    requires v > (0xFFFF_FFFF_FFFF_FFFFu64 - dv) / 10, dv <= 9;
                assert(d.subrange(0, i - start + 1) =~= s@.subrange(start as int, i + 1));
                assert(digits_value(s@.subrange(start as int, i + 1)) == v * 10 + dv);
                lemma_digits_prefix(d, (i - start + 1) as int);
            }
            return None;
        }
        assert(v * 10 + dv <= 0xFFFF_FFFF_FFFF_FFFFu64) by (nonlinear_arith)
            requires v <= (0xFFFF_FFFF_FFFF_FFFFu64 - dv) / 10, dv <= 9;
        v = v * 10 + dv;
        i = i + 1;
    }
    assert(s@.subrange(start as int, i as int) =~= d);
    Some(v)
}

/// A longer prefix of digits is worth at least as much.
proof fn lemma_digits_prefix(d: Seq<char>, k: int)
    requires
        0 <= k <= d.len(),
    ensures
        digits_value(d.subrange(0, k)) <= digits_value(d),
    decreases d.len() - k,
{
    if k < d.len() {
        lemma_digits_prefix(d, k + 1);
        assert(d.subrange(0, k + 1).drop_last() =~= d.subrange(0, k));
    } else {
        assert(d.subrange(0, k) =~= d);
    }
}

/// The index of the first occurrence of `p` in `s` (`str::find`).
pub open spec fn find_sub(s: Seq<char>, p: Seq<char>) -> Option<int>
    decreases s.len(),
{
    if starts(s, p) {
        Some(0)
    } else if s.len() == 0 {
        None
    } else {
        match find_sub(s.drop_first(), p) {
            Some(i) => Some(i + 1),
            None => None,
        }
    }
}

proof fn lemma_find_sub_step(s: Seq<char>, p: Seq<char>, i: int)
    requires
        0 <= i <= s.len(),
        forall|j: int| 0 <= j < i ==> !starts(#[trigger] s.subrange(j, s.len() as int), p),
    ensures
        find_sub(s, p) == match find_sub(s.subrange(i, s.len() as int), p) {
            Some(k) => Some(k + i),
            None => None::<int>,
        },
    decreases i,
{
    if i > 0 {
        assert(s.subrange(0, s.len() as int) =~= s);
        assert(!starts(s, p));
        let t = s.drop_first();
        assert forall|j: int| 0 <= j < i - 1 implies !starts(#[trigger] t.subrange(j, t.len() as int), p) by {
            assert(t.subrange(j, t.len() as int) =~= s.subrange(j + 1, s.len() as int));
        }
        lemma_find_sub_step(t, p, i - 1);
        assert(t.subrange(i - 1, t.len() as int) =~= s.subrange(i, s.len() as int));
    } else {
        assert(s.subrange(0, s.len() as int) =~= s);
    }
}

/// What follows the first occurrence of `p` in `s`.
pub open spec fn after_sub(s: Seq<char>, p: Seq<char>) -> Option<Seq<char>> {
    match find_sub(s, p) {
        Some(i) => Some(s.subrange(i + p.len(), s.len() as int)),
        None => None,
    }
}

proof fn lemma_find_sub_range(s: Seq<char>, p: Seq<char>)
    ensures
        find_sub(s, p) matches Some(i) ==> 0 <= i && i + p.len() <= s.len(),
    decreases s.len(),
{
    if !starts(s, p) && s.len() > 0 {
        lemma_find_sub_range(s.drop_first(), p);
    }
}

/// The index of the first occurrence of `p` in `s`.
pub fn find_str(s: &[char], p: &[char]) -> (r: Option<usize>)
    ensures
        r matches Some(k) ==> find_sub(s@, p@) == Some(k as int) && k + p.len() <= s.len(),
        r is None ==> find_sub(s@, p@) is None,
{
    let mut i: usize = 0;
    while i <= s.len()
        invariant
            i <= s.len(),
            forall|j: int| 0 <= j < i && j <= s.len() ==> !starts(#[trigger] s@.subrange(j, s@.len() as int), p@),
        decreases s.len() + 1 - i,
    {
        let rest = slice_vec(s, i, s.len());
        if starts_with(rest.as_slice(), p) {
            proof {
                lemma_find_sub_step(s@, p@, i as int);
            }
            return Some(i);
        }
        if i == s.len() {
            proof {
                lemma_find_sub_step(s@, p@, i as int);
                assert(s@.subrange(i as int, s@.len() as int) =~= Seq::<char>::empty());
            }
            return None;
        }
        i = i + 1;
    }
    None
}

/// What follows the first `p` in `s`, as characters.
pub fn after_str(s: &[char], p: &[char]) -> (r: Option<Vec<char>>)
    ensures
        match after_sub(s@, p@) {
            Some(t) => r matches Some(v) && v@ == t,
            None => r is None,
        },
{
    match find_str(s, p) {
        Some(i) => Some(slice_vec(s, i + p.len(), s.len())),
        None => None,
    }
}

/// What comes before the first `p` in `s` (all of it without one).
pub open spec fn before_sub(s: Seq<char>, p: Seq<char>) -> Seq<char> {
    match find_sub(s, p) {
        Some(i) => s.subrange(0, i),
        None => s,
    }
}

/// What comes before the first `p` in `s`.
pub fn before_str(s: &[char], p: &[char]) -> (r: Vec<char>)
    ensures
        r@ == before_sub(s@, p@),
{
    match find_str(s, p) {
        Some(i) => slice_vec(s, 0, i),
        None => slice_vec(s, 0, s.len()),
    }
}

/// Words joined with single spaces.
pub open spec fn join_words(ws: Seq<Seq<char>>) -> Seq<char>
    decreases ws.len(),
{
    if ws.len() == 0 {
        Seq::empty()
    } else if ws.len() == 1 {
        ws[0]
    } else {
        join_words(ws.drop_last()) + seq![' '] + ws.last()
    }
}

/// Words joined with single spaces.
pub fn join_vec(ws: &Vec<Vec<char>>) -> (r: Vec<char>)
    ensures
        r@ == join_words(Seq::new(ws@.len(), |i: int| ws@[i]@)),
{
    let ghost wv = Seq::new(ws@.len(), |i: int| ws@[i]@);
    let mut out: Vec<char> = Vec::new();
    let mut i: usize = 0;
    while i < ws.len()
        invariant
            i <= ws.len(),
            wv == Seq::new(ws@.len(), |i: int| ws@[i]@),
            out@ == join_words(wv.subrange(0, i as int)),
        decreases ws.len() - i,
    {
        let ghost pre = out@;
        assert(wv.subrange(0, i + 1).drop_last() =~= wv.subrange(0, i as int));
        if i > 0 {
            out.push(' ');
        }
        let w = &ws[i];
        let mut k: usize = 0;
        let ghost mid = out@;
        while k < w.len()
            invariant
                k <= w.len(),
                out@ == mid + w@.subrange(0, k as int),
            decreases w.len() - k,
        {
            out.push(w[k]);
            assert(w@.subrange(0, k + 1) =~= w@.subrange(0, k as int).push(w@[k as int]));
            k = k + 1;
        }
        assert(w@.subrange(0, k as int) =~= w@);
        proof {
            if i == 0 {
                assert(wv.subrange(0, 1) =~= seq![wv[0]]);
                assert(out@ =~= wv[0]);
            } else {
                assert(out@ =~= pre + seq![' '] + wv[i as int]);
            }
        }
        i = i + 1;
    }
    assert(wv.subrange(0, i as int) =~= wv);
    out
}


// ---------- where a piece of a text comes from ----------

/// `t` stands somewhere in `s`, character for character.
pub open spec fn occurs_in(t: Seq<char>, s: Seq<char>) -> bool {
    exists|i: int| 0 <= i && i + t.len() <= s.len() && #[trigger] s.subrange(i, i + t.len()) == t
}

/// A piece of a text occurs in it.
pub proof fn lemma_sub_occurs(s: Seq<char>, a: int, b: int)
    requires
        0 <= a <= b <= s.len(),
    ensures
        occurs_in(s.subrange(a, b), s),
{
    let t = s.subrange(a, b);
    assert(s.subrange(a, a + t.len()) == t);
}

/// What occurs in a piece of `s` occurs in `s`.
pub proof fn lemma_occurs_trans(t: Seq<char>, u: Seq<char>, s: Seq<char>)
    requires
        occurs_in(t, u),
        occurs_in(u, s),
    ensures
        occurs_in(t, s),
{
    let i = choose|i: int| 0 <= i && i + t.len() <= u.len() && #[trigger] u.subrange(i, i + t.len()) == t;
    let j = choose|j: int| 0 <= j && j + u.len() <= s.len() && #[trigger] s.subrange(j, j + u.len()) == u;
    assert(s.subrange(j + i, j + i + t.len()) =~= t);
}

/// The trimmed text is a piece of the text.
pub proof fn lemma_trim_piece(s: Seq<char>) -> (r: (int, int))
    ensures
        0 <= r.0 <= r.1 <= s.len(),
        trim(s) == s.subrange(r.0, r.1),
    decreases s.len(),
{
    if s.len() > 0 && is_ws(s[0]) {
        let (a, b) = lemma_trim_piece(s.drop_first());
        assert(s.drop_first().subrange(a, b) =~= s.subrange(a + 1, b + 1));
        (a + 1, b + 1)
    } else if s.len() > 0 && is_ws(s.last()) {
        let (a, b) = lemma_trim_piece(s.drop_last());
        assert(s.drop_last().subrange(a, b) =~= s.subrange(a, b));
        (a, b)
    } else {
        assert(s.subrange(0, s.len() as int) =~= s);
        (0, s.len() as int)
    }
}

/// The trimmed text occurs in the text.
pub proof fn lemma_trim_occurs(s: Seq<char>)
    ensures
        occurs_in(trim(s), s),
{
    let (a, b) = lemma_trim_piece(s);
    lemma_sub_occurs(s, a, b);
}

/// A trimmed text starts and ends with something other than white space.
pub proof fn lemma_trim_ends(s: Seq<char>)
    ensures
        trim(s).len() > 0 ==> !is_ws(trim(s)[0]) && !is_ws(trim(s).last()),
    decreases s.len(),
{
    if s.len() > 0 && is_ws(s[0]) {
        lemma_trim_ends(s.drop_first());
    } else if s.len() > 0 && is_ws(s.last()) {
        lemma_trim_ends(s.drop_last());
    }
}

/// Trimming twice is trimming once.
pub proof fn lemma_trim_twice(s: Seq<char>)
    ensures
        trim(trim(s)) == trim(s),
{
    lemma_trim_ends(s);
}

/// Every piece that splitting at `c` gives occurs in the text, and the piece being built is
/// where the text ends.
proof fn lemma_split_acc_occurs(s: Seq<char>, c: char)
    ensures
        forall|j: int| 0 <= j < split_acc(s, c).0.len() ==> occurs_in(#[trigger] split_acc(s, c).0[j], s),
        split_acc(s, c).1.len() <= s.len(),
        split_acc(s, c).1 == s.subrange(s.len() - split_acc(s, c).1.len(), s.len() as int),
    decreases s.len(),
{
    if s.len() > 0 {
        let s0 = s.drop_last();
        lemma_split_acc_occurs(s0, c);
        let (ps, cur) = split_acc(s0, c);
        lemma_sub_occurs(s, 0, s0.len() as int);
        assert(s.subrange(0, s0.len() as int) =~= s0);
        assert forall|j: int| 0 <= j < ps.len() implies occurs_in(#[trigger] ps[j], s) by {
            lemma_occurs_trans(ps[j], s0, s);
        }
        if s.last() == c {
            lemma_sub_occurs(s0, s0.len() - cur.len(), s0.len() as int);
            lemma_occurs_trans(cur, s0, s);
            let ps2 = ps.push(cur);
            assert forall|j: int| 0 <= j < ps2.len() implies occurs_in(#[trigger] ps2[j], s) by {
                if j < ps.len() {
                    assert(ps2[j] == ps[j]);
                }
            }
            assert(s.subrange(s.len() as int, s.len() as int) =~= Seq::<char>::empty());
        } else {
            assert(cur.push(s.last()) =~= s.subrange(s.len() - (cur.len() + 1), s.len() as int));
        }
    }
}

/// Every piece of a split occurs in the text.
pub proof fn lemma_split_all_occurs(s: Seq<char>, c: char)
    ensures
        forall|j: int| 0 <= j < split_all(s, c).len() ==> occurs_in(#[trigger] split_all(s, c)[j], s),
{
    lemma_split_acc_occurs(s, c);
    let (ps, cur) = split_acc(s, c);
    lemma_sub_occurs(s, s.len() - cur.len(), s.len() as int);
    assert forall|j: int| 0 <= j < split_all(s, c).len() implies occurs_in(#[trigger] split_all(s, c)[j], s) by {
        if j < ps.len() {
            assert(split_all(s, c)[j] == ps[j]);
        }
    }
}


/// Where `find_char` finds `c`, it is inside the text.
pub proof fn lemma_find_char_bounds(s: Seq<char>, c: char)
    ensures
        find_char(s, c) matches Some(i) ==> 0 <= i < s.len(),
    decreases s.len(),
{
    if s.len() > 0 && s[0] != c {
        lemma_find_char_bounds(s.drop_first(), c);
    }
}


/// What comes before the first `c` occurs in the text.
pub proof fn lemma_before_occurs(s: Seq<char>, c: char)
    ensures
        occurs_in(before(s, c), s),
{
    lemma_find_char_bounds(s, c);
    match find_char(s, c) {
        Some(i) => { lemma_sub_occurs(s, 0, i); },
        None => { lemma_sub_occurs(s, 0, s.len() as int); assert(s.subrange(0, s.len() as int) =~= s); },
    }
}

/// Both sides of a split at the first `c` occur in the text.
pub proof fn lemma_split_once_occurs(s: Seq<char>, c: char)
    ensures
        split_once(s, c) matches Some((a, b)) ==> occurs_in(a, s) && occurs_in(b, s) && b.len() < s.len(),
{
    lemma_find_char_bounds(s, c);
    match find_char(s, c) {
        Some(i) => {
            lemma_sub_occurs(s, 0, i);
            lemma_sub_occurs(s, i + 1, s.len() as int);
        },
        None => {},
    }
}


/// `find_sub` finds `p` exactly when `p` stands somewhere in `s`.
pub proof fn lemma_find_sub_occurs(s: Seq<char>, p: Seq<char>)
    ensures
        find_sub(s, p) is Some <==> occurs_in(p, s),
    decreases s.len(),
{
    if starts(s, p) {
        assert(s.subrange(0, 0 + p.len() as int) == p);
    } else if s.len() == 0 {
        if occurs_in(p, s) {
            let i = choose|i: int| 0 <= i && i + p.len() <= s.len() && #[trigger] s.subrange(i, i + p.len()) == p;
            assert(p.len() == 0);
            assert(s.subrange(0, p.len() as int) =~= p);
        }
    } else {
        let t = s.drop_first();
        lemma_find_sub_occurs(t, p);
        if occurs_in(p, t) {
            let i = choose|i: int| 0 <= i && i + p.len() <= t.len() && #[trigger] t.subrange(i, i + p.len()) == p;
            assert(s.subrange(i + 1, i + 1 + p.len()) =~= t.subrange(i, i + p.len()));
        }
        if occurs_in(p, s) {
            let i = choose|i: int| 0 <= i && i + p.len() <= s.len() && #[trigger] s.subrange(i, i + p.len()) == p;
            if i == 0 {
                assert(starts(s, p));
            } else {
                assert(t.subrange(i - 1, i - 1 + p.len()) =~= s.subrange(i, i + p.len()));
            }
        }
    }
}

} // verus!
