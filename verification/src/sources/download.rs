//! Downloading a file in ranged pieces, several at a time: YouTube throttles a request for
//! a whole file, but pieces of a few MB arrive at full speed. This module decides how the
//! file is cut, what each piece request asks for, what a failed request leads to, and how
//! an unknown size is read from a `Content-Range` header; the program makes the requests
//! and writes the pieces.

use vstd::prelude::*;
use crate::text::{chars_of, decimal, decimal_string, parse_u64, parse_u64_spec, slice_vec, starts, starts_with};

verus! {

/// Size of a piece.
pub const CHUNK: u64 = 8388608;
/// Attempts per piece.
pub const RETRIES: u32 = 4;
/// Pieces downloaded at once.
pub const CONCURRENCY: usize = 4;

/// Number of pieces of a file of `size` bytes.
pub open spec fn chunk_count(size: nat) -> nat {
    ((size + CHUNK - 1) / (CHUNK as int)) as nat
}

/// The byte range (first, last, inclusive) of piece `i`.
pub open spec fn chunk_at(size: nat, i: nat) -> (int, int) {
    let s = i * CHUNK;
    let e = if s + CHUNK < size { s + CHUNK } else { size as int };
    (s, e - 1)
}

/// The pieces of a file of `size` bytes: `[start, end]` every `CHUNK` bytes, the last one
/// ending at the last byte.
pub fn chunk_ranges(size: u64) -> (r: Vec<(u64, u64)>)
    ensures
        r@.len() == chunk_count(size as nat),
        forall|i: int| 0 <= i < r@.len() ==> (#[trigger] r@[i].0 as int, r@[i].1 as int) == chunk_at(size as nat, i as nat),
{
    let mut r: Vec<(u64, u64)> = Vec::new();
    if size == 0 {
        return r;
    }
    let mut s: u64 = 0;
    loop
        invariant_except_break
            s < size,
            s as int == r@.len() * CHUNK,
        invariant
            0 < size,
            forall|i: int| 0 <= i < r@.len() ==> (#[trigger] r@[i].0 as int, r@[i].1 as int) == chunk_at(size as nat, i as nat),
        ensures
            r@.len() == chunk_count(size as nat),
            forall|i: int| 0 <= i < r@.len() ==> (#[trigger] r@[i].0 as int, r@[i].1 as int) == chunk_at(size as nat, i as nat),
        decreases size - s,
    {
        let ghost n = r@.len();
        if size - s > CHUNK {
            r.push((s, s + CHUNK - 1));
            assert(r@[n as int] == (s, (s + CHUNK - 1) as u64));
            s = s + CHUNK;
        } else {
            r.push((s, size - 1));
            assert(r@[n as int] == (s, (size - 1) as u64));
            assert(chunk_count(size as nat) == n + 1) by (nonlinear_arith)
                requires
                    s == n * CHUNK,
                    s < size,
                    size - s <= CHUNK,
                    CHUNK == 8388608,
            ;
            break;
        }
    }
    r
}

/// The pieces cover the file exactly: the first starts at byte 0, each starts right after
/// the one before it, none is empty, and the last ends at the last byte.
pub proof fn lemma_chunks_tile(size: nat)
    requires
        size > 0,
    ensures
        chunk_count(size) >= 1,
        chunk_at(size, 0).0 == 0,
        forall|i: nat| i < chunk_count(size) ==> #[trigger] chunk_at(size, i).0 <= chunk_at(size, i).1,
        forall|i: nat| i + 1 < chunk_count(size) ==> #[trigger] chunk_at(size, i + 1).0 == chunk_at(size, i).1 + 1,
        chunk_at(size, (chunk_count(size) - 1) as nat).1 == size - 1,
{
    let n = chunk_count(size);
    assert(n >= 1 && (n - 1) * CHUNK < size && size <= n * CHUNK) by (nonlinear_arith)
        requires
            n == (size + CHUNK - 1) / (CHUNK as int),
            size > 0,
            CHUNK == 8388608,
    ;
    assert forall|i: nat| i < chunk_count(size) implies #[trigger] chunk_at(size, i).0 <= chunk_at(size, i).1 by {
        assert(i * CHUNK < size) by (nonlinear_arith)
            requires
                i < n,
                (n - 1) * CHUNK < size,
                CHUNK == 8388608,
        ;
    }
    assert forall|i: nat| i + 1 < chunk_count(size) implies #[trigger] chunk_at(size, i + 1).0 == chunk_at(size, i).1 + 1 by {
        assert((i + 1) * CHUNK < size) by (nonlinear_arith)
            requires
                i + 1 < n,
                (n - 1) * CHUNK < size,
                CHUNK == 8388608,
        ;
        assert((i + 1) * CHUNK == i * CHUNK + CHUNK) by (nonlinear_arith);
    }
    assert(((n - 1) as nat) * CHUNK + CHUNK >= size) by (nonlinear_arith)
        requires
            size <= n * CHUNK,
            n >= 1,
    ;
}

/// The `Range` header value asking for bytes `start..=end`.
pub fn range_header(start: u64, end: u64) -> (s: String)
    ensures
        s@ == "bytes="@ + decimal(start as nat) + "-"@ + decimal(end as nat),
{
    let mut s = String::from_str("bytes=");
    let a = decimal_string(start);
    s.append(a.as_str());
    s.append("-");
    let b = decimal_string(end);
    s.append(b.as_str());
    s
}

/// The number of bytes of the range `start..=end`.
pub fn range_len(start: u64, end: u64) -> (n: u64)
    requires
        start <= end,
        end - start < u64::MAX,
    ensures
        n == end - start + 1,
{
    end - start + 1
}

/// A reply to a range request is usable with status 206 (the range) or 200 (the file);
/// any other status is the error `HTTP <status>`.
pub fn range_status(code: u16) -> (r: Result<(), String>)
    ensures
        (code == 206 || code == 200) ==> r is Ok,
        !(code == 206 || code == 200) ==> (r matches Err(m) && m@ == "HTTP "@ + decimal(code as nat)),
{
    if code == 206 || code == 200 {
        Ok(())
    } else {
        let mut m = String::from_str("HTTP ");
        let d = decimal_string(code as u64);
        m.append(d.as_str());
        Err(m)
    }
}

/// What follows a failed attempt at a piece.
pub enum AfterFailure {
    /// Wait this many milliseconds and try again.
    Retry(u64),
    /// Wait this many milliseconds, then give up with this message.
    GiveUp(u64, String),
    /// Give up at once with this message: YouTube refused the rest of the file.
    Refused(String),
}

/// The wait after failed attempt number `attempt`: 400 ms times its square.
pub open spec fn backoff_ms(attempt: nat) -> nat {
    400 * attempt * attempt
}

pub open spec fn refused_text(start: nat) -> Seq<char> {
    "YouTube cortó la descarga (HTTP 403 a partir del byte "@ + decimal(start)
        + "): no entrega el resto de este vídeo a las apps sin sesión iniciada"@
}

pub open spec fn give_up_text(start: nat, end: nat, last: Seq<char>) -> Seq<char> {
    "Fallo descargando bytes "@ + decimal(start) + "-"@ + decimal(end) + ": "@ + last
}

/// The decision after attempt `attempt` (counted from 1) at the piece `start..=end` failed
/// with `error`: an `HTTP 403` is final (retrying does not mend it); otherwise wait and try
/// again, and after the last attempt give up with the last error.
pub fn after_failure(attempt: u32, error: &str, start: u64, end: u64) -> (r: AfterFailure)
    requires
        1 <= attempt <= RETRIES,
    ensures
        starts(error@, "HTTP 403"@) ==> (r matches AfterFailure::Refused(m) && m@ == refused_text(start as nat)),
        !starts(error@, "HTTP 403"@) && attempt < RETRIES ==> (r matches AfterFailure::Retry(d) && d == backoff_ms(attempt as nat)),
        !starts(error@, "HTTP 403"@) && attempt == RETRIES ==> (r matches AfterFailure::GiveUp(d, m)
            && d == backoff_ms(attempt as nat) && m@ == give_up_text(start as nat, end as nat, error@)),
{
    let e = chars_of(error);
    let p = chars_of("HTTP 403");
    if starts_with(e.as_slice(), p.as_slice()) {
        let mut m = String::from_str("YouTube cortó la descarga (HTTP 403 a partir del byte ");
        let d = decimal_string(start);
        m.append(d.as_str());
        m.append("): no entrega el resto de este vídeo a las apps sin sesión iniciada");
        return AfterFailure::Refused(m);
    }
    assert(attempt * attempt <= 16) by (nonlinear_arith)
        requires
            1 <= attempt <= 4,
    ;
    let sq: u32 = attempt * attempt;
    let delay: u64 = 400 * (sq as u64);
    assert(delay == backoff_ms(attempt as nat)) by (nonlinear_arith)
        requires
            sq == attempt * attempt,
            delay == 400 * sq,
    ;
    if attempt < RETRIES {
        AfterFailure::Retry(delay)
    } else {
        let mut m = String::from_str("Fallo descargando bytes ");
        let a = decimal_string(start);
        m.append(a.as_str());
        m.append("-");
        let b = decimal_string(end);
        m.append(b.as_str());
        m.append(": ");
        m.append(error);
        AfterFailure::GiveUp(delay, m)
    }
}

/// What follows the last `/` of a text (all of it when it has none).
pub open spec fn after_last_slash(s: Seq<char>) -> Seq<char>
    decreases s.len(),
{
    if s.len() == 0 {
        s
    } else if s.last() == '/' {
        Seq::empty()
    } else {
        after_last_slash(s.drop_last()).push(s.last())
    }
}

/// The file size in a `Content-Range` value (`bytes 0-0/12345`): the number after the last
/// `/`, as `str::parse::<u64>` reads it.
pub fn content_range_size(value: &str) -> (r: Option<u64>)
    ensures
        r == parse_u64_spec(after_last_slash(value@)),
{
    let cs = chars_of(value);
    let mut from: usize = 0;
    let mut i: usize = 0;
    while i < cs.len()
        invariant
            cs@ == value@,
            from <= i <= cs.len(),
            after_last_slash(cs@.take(i as int)) == cs@.subrange(from as int, i as int),
        decreases cs.len() - i,
    {
        assert(cs@.take(i as int + 1).drop_last() == cs@.take(i as int));
        if cs[i] == '/' {
            from = i + 1;
        }
        assert(cs@.subrange(from as int, i as int + 1) =~= if cs@[i as int] == '/' {
            Seq::<char>::empty()
        } else {
            cs@.subrange(from as int, i as int).push(cs@[i as int])
        });
        i = i + 1;
    }
    assert(cs@.take(i as int) =~= cs@);
    let tail = slice_vec(cs.as_slice(), from, cs.len());
    parse_u64(tail.as_slice())
}

} // verus!
