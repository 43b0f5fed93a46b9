//! MP4 boxes: bounds-checked reads, box building and walking the box tree.
//!
//! Input files come from the network, so every read is bounds-checked: a corrupt MP4 gives
//! an error, never a panic.

use vstd::prelude::*;
use crate::media::bytes::{be32, be32_value, be64_value, push_be32, extend, lemma_be32_roundtrip};
use crate::text::{decimal, decimal_string};

verus! {

/// Ways an MP4 input can be unusable.
#[derive(Debug, Clone, Copy, PartialEq, Eq)]
pub enum Mp4Error {
    /// A read past the end of the data.
    OutOfRange,
    /// A header too short for the field being rewritten.
    HeaderTooShort,
    /// A box whose size does not fit its parent.
    BadBox([u8; 4]),
    /// A required box is missing.
    MissingBox([u8; 4]),
    /// A top-level box runs past the end of the file.
    Incomplete([u8; 4]),
    NoMoov,
    ZeroTimescale,
    NoSamples,
    FragmentOutsideFile,
    TrafWithoutTfhd,
    TooManySamples,
    TkhdCorrupt,
    EmptyTrak,
    NoLayout,
    NotAac,
    NoEsds,
    BadAudioConfig,
    AudioConfigTooShort,
    UnsupportedProfile(u8, u8),
    SampleTable,
    FrameOutOfRange,
    /// An offset, time or size that does not fit in 64 bits.
    Overflow,
}

/// A box type as text: its bytes read as UTF-8, invalid sequences replaced
/// (`String::from_utf8_lossy`).
pub uninterp spec fn lossy_text(b: Seq<u8>) -> Seq<char>;

/// `String::from_utf8_lossy` on a box type.
#[verifier::external_body]
fn typ_text(t: &[u8; 4]) -> (s: String)
    ensures
        s@ == lossy_text(t@),
{
    String::from_utf8_lossy(t).into_owned()
}

impl Mp4Error {
    /// Text shown for the error.
    pub fn message(&self) -> (m: String)
        ensures
            m@ == match self {
                Mp4Error::OutOfRange => "MP4 corrupto: lectura fuera de rango"@,
                Mp4Error::HeaderTooShort => "MP4 corrupto: cabecera demasiado corta"@,
                Mp4Error::BadBox(t) => "Caja MP4 corrupta ("@ + lossy_text(t@) + ")"@,
                Mp4Error::MissingBox(t) => "Falta la caja "@ + lossy_text(t@) + " en el MP4 de entrada"@,
                Mp4Error::Incomplete(t) => "Archivo MP4 incompleto o corrupto (caja "@ + lossy_text(t@) + ")"@,
                Mp4Error::NoMoov => "El MP4 de entrada no tiene moov"@,
                Mp4Error::ZeroTimescale => "MP4 corrupto: timescale 0"@,
                Mp4Error::NoSamples => "No hay muestras en la pista"@,
                Mp4Error::FragmentOutsideFile => "MP4 corrupto: un fragmento apunta fuera del archivo"@,
                Mp4Error::TrafWithoutTfhd => "traf sin tfhd"@,
                Mp4Error::TooManySamples => "MP4 corrupto: demasiadas muestras en un fragmento"@,
                Mp4Error::TkhdCorrupt => "tkhd corrupto"@,
                Mp4Error::EmptyTrak => "trak vacío"@,
                Mp4Error::NoLayout => "No se pudo calcular la estructura del MP4"@,
                Mp4Error::NotAac => "La pista de audio no es AAC"@,
                Mp4Error::NoEsds => "Falta la caja esds"@,
                Mp4Error::BadAudioConfig => "AudioSpecificConfig ilegible"@,
                Mp4Error::AudioConfigTooShort => "AudioSpecificConfig demasiado corto"@,
                Mp4Error::UnsupportedProfile(o, c) => "Perfil AAC no soportado (tipo "@ + decimal(*o as nat) + ", "@
                    + decimal(*c as nat) + " canales)"@,
                Mp4Error::SampleTable => "Tabla de muestras incoherente"@,
                Mp4Error::FrameOutOfRange => "Fotograma fuera de rango"@,
                Mp4Error::Overflow => "MP4 demasiado grande para este equipo"@,
            },
    {
        match self {
            Mp4Error::OutOfRange => String::from_str("MP4 corrupto: lectura fuera de rango"),
            Mp4Error::HeaderTooShort => String::from_str("MP4 corrupto: cabecera demasiado corta"),
            Mp4Error::BadBox(t) => {
                let mut m = String::from_str("Caja MP4 corrupta (");
                m.append(typ_text(t).as_str());
                m.append(")");
                m
            },
            Mp4Error::MissingBox(t) => {
                let mut m = String::from_str("Falta la caja ");
                m.append(typ_text(t).as_str());
                m.append(" en el MP4 de entrada");
                m
            },
            Mp4Error::Incomplete(t) => {
                let mut m = String::from_str("Archivo MP4 incompleto o corrupto (caja ");
                m.append(typ_text(t).as_str());
                m.append(")");
                m
            },
            Mp4Error::NoMoov => String::from_str("El MP4 de entrada no tiene moov"),
            Mp4Error::ZeroTimescale => String::from_str("MP4 corrupto: timescale 0"),
            Mp4Error::NoSamples => String::from_str("No hay muestras en la pista"),
            Mp4Error::FragmentOutsideFile => String::from_str("MP4 corrupto: un fragmento apunta fuera del archivo"),
            Mp4Error::TrafWithoutTfhd => String::from_str("traf sin tfhd"),
            Mp4Error::TooManySamples => String::from_str("MP4 corrupto: demasiadas muestras en un fragmento"),
            Mp4Error::TkhdCorrupt => String::from_str("tkhd corrupto"),
            Mp4Error::EmptyTrak => String::from_str("trak vacío"),
            Mp4Error::NoLayout => String::from_str("No se pudo calcular la estructura del MP4"),
            Mp4Error::NotAac => String::from_str("La pista de audio no es AAC"),
            Mp4Error::NoEsds => String::from_str("Falta la caja esds"),
            Mp4Error::BadAudioConfig => String::from_str("AudioSpecificConfig ilegible"),
            Mp4Error::AudioConfigTooShort => String::from_str("AudioSpecificConfig demasiado corto"),
            Mp4Error::UnsupportedProfile(o, c) => {
                let mut m = String::from_str("Perfil AAC no soportado (tipo ");
                m.append(decimal_string(*o as u64).as_str());
                m.append(", ");
                m.append(decimal_string(*c as u64).as_str());
                m.append(" canales)");
                m
            },
            Mp4Error::SampleTable => String::from_str("Tabla de muestras incoherente"),
            Mp4Error::FrameOutOfRange => String::from_str("Fotograma fuera de rango"),
            Mp4Error::Overflow => String::from_str("MP4 demasiado grande para este equipo"),
        }
    }
}

/// `b[o..o + n]`, when it is inside `b`.
pub open spec fn in_range(len: nat, o: nat, n: nat) -> bool {
    o + n <= len
}

pub fn rd(b: &[u8], o: usize, n: usize) -> (r: Result<&[u8], Mp4Error>)
    ensures
        in_range(b.len() as nat, o as nat, n as nat) ==> (r matches Ok(s) && s@ == b@.subrange(o as int, o + n)),
        !in_range(b.len() as nat, o as nat, n as nat) ==> r == Err::<&[u8], Mp4Error>(Mp4Error::OutOfRange),
{
    match o.checked_add(n) {
        Some(end) => {
            if end <= b.len() {
                Ok(&b[o..end])
            } else {
                Err(Mp4Error::OutOfRange)
            }
        }
        None => Err(Mp4Error::OutOfRange),
    }
}

pub open spec fn u32_spec(b: Seq<u8>, o: int) -> u32 {
    be32_value(b.subrange(o, o + 4)) as u32
}

pub open spec fn u64_spec(b: Seq<u8>, o: int) -> u64 {
    be64_value(b.subrange(o, o + 8)) as u64
}

pub fn u8_at(b: &[u8], o: usize) -> (r: Result<u8, Mp4Error>)
    ensures
        in_range(b.len() as nat, o as nat, 1) ==> r == Ok::<u8, Mp4Error>(b@[o as int]),
        !in_range(b.len() as nat, o as nat, 1) ==> r == Err::<u8, Mp4Error>(Mp4Error::OutOfRange),
{
    let s = rd(b, o, 1)?;
    Ok(s[0])
}

fn be32_of(s: &[u8]) -> (v: u32)
    requires
        s.len() >= 4,
    ensures
        v == be32_value(s@),
        v as nat == be32_value(s@),
{
    let v = (s[0] as u32) * 0x100_0000 + (s[1] as u32) * 0x1_0000 + (s[2] as u32) * 0x100 + s[3] as u32;
    v
}

/// The big-endian word at `o`, known to be in range.
pub fn u32_in(b: &[u8], o: usize) -> (v: u32)
    requires
        o + 4 <= b.len(),
    ensures
        v == u32_spec(b@, o as int),
{
    let s = &b[o..o + 4];
    assert(s@ =~= b@.subrange(o as int, o + 4));
    be32_of(s)
}

pub fn u32_at(b: &[u8], o: usize) -> (r: Result<u32, Mp4Error>)
    ensures
        in_range(b.len() as nat, o as nat, 4) ==> r == Ok::<u32, Mp4Error>(u32_spec(b@, o as int)),
        !in_range(b.len() as nat, o as nat, 4) ==> r == Err::<u32, Mp4Error>(Mp4Error::OutOfRange),
{
    let s = rd(b, o, 4)?;
    Ok(be32_of(s))
}

pub fn i32_at(b: &[u8], o: usize) -> (r: Result<i32, Mp4Error>)
    ensures
        in_range(b.len() as nat, o as nat, 4) ==> r == Ok::<i32, Mp4Error>(u32_spec(b@, o as int) as i32),
        !in_range(b.len() as nat, o as nat, 4) ==> r == Err::<i32, Mp4Error>(Mp4Error::OutOfRange),
{
    let v = u32_at(b, o)?;
    Ok(v as i32)
}

pub fn u64_at(b: &[u8], o: usize) -> (r: Result<u64, Mp4Error>)
    ensures
        in_range(b.len() as nat, o as nat, 8) ==> r == Ok::<u64, Mp4Error>(u64_spec(b@, o as int)),
        !in_range(b.len() as nat, o as nat, 8) ==> r == Err::<u64, Mp4Error>(Mp4Error::OutOfRange),
{
    let s = rd(b, o, 8)?;
    let hi = be32_of(&s[0..4]);
    let lo = be32_of(&s[4..8]);
    proof {
        assert(s@.subrange(0, 4) =~= b@.subrange(o as int, o + 8).subrange(0, 4));
    }
    Ok((hi as u64) * 0x1_0000_0000 + lo as u64)
}

pub fn i64_at(b: &[u8], o: usize) -> (r: Result<i64, Mp4Error>)
    ensures
        in_range(b.len() as nat, o as nat, 8) ==> r == Ok::<i64, Mp4Error>(u64_spec(b@, o as int) as i64),
        !in_range(b.len() as nat, o as nat, 8) ==> r == Err::<i64, Mp4Error>(Mp4Error::OutOfRange),
{
    let v = u64_at(b, o)?;
    Ok(v as i64)
}

/// The 24-bit flags of a full box whose version byte is at `o`.
pub fn flags_at(b: &[u8], o: usize) -> (r: Result<u32, Mp4Error>)
    requires
        o < usize::MAX,
    ensures
        in_range(b.len() as nat, (o + 1) as nat, 3) ==> r == Ok::<u32, Mp4Error>(
            (b@[o + 1] as nat * 0x1_0000 + b@[o + 2] as nat * 0x100 + b@[o + 3] as nat) as u32),
        !in_range(b.len() as nat, (o + 1) as nat, 3) ==> r == Err::<u32, Mp4Error>(Mp4Error::OutOfRange),
{
    let f = rd(b, o + 1, 3)?;
    Ok((f[0] as u32) * 0x1_0000 + (f[1] as u32) * 0x100 + f[2] as u32)
}

/// `b` with the big-endian bytes of `v` (8 bytes if `big`, else the low 4) written at `o`.
pub open spec fn put_dur_spec(b: Seq<u8>, o: int, v: u64, big: bool) -> Seq<u8> {
    let bytes = if big { crate::media::bytes::be64(v as nat) } else { be32(v as nat % 0x1_0000_0000) };
    b.subrange(0, o) + bytes + b.subrange(o + bytes.len(), b.len() as int)
}

/// Writes a 32- or 64-bit duration at `o`, checking that it fits.
pub fn put_dur(b: &mut Vec<u8>, o: usize, v: u64, big: bool) -> (r: Result<(), Mp4Error>)
    requires
        o + 8 <= usize::MAX,
    ensures
        in_range(old(b).len() as nat, o as nat, if big { 8 } else { 4 }) ==> (r is Ok
            && final(b)@ == put_dur_spec(old(b)@, o as int, v, big)),
        !in_range(old(b).len() as nat, o as nat, if big { 8 } else { 4 }) ==> (r == Err::<(), Mp4Error>(Mp4Error::HeaderTooShort)
            && final(b)@ == old(b)@),
{
    let n: usize = if big { 8 } else { 4 };
    if o + n > b.len() {
        return Err(Mp4Error::HeaderTooShort);
    }
    let mut bytes: Vec<u8> = Vec::new();
    if big {
        crate::media::bytes::push_be64(&mut bytes, v);
    } else {
        push_be32(&mut bytes, (v % 0x1_0000_0000) as u32);
    }
    assert(bytes@.len() == n);
    let mut i: usize = 0;
    while i < n
        invariant
            i <= n,
            n == bytes.len(),
            o + n <= b.len(),
            b.len() == old(b).len(),
            b@ == old(b)@.subrange(0, o as int) + bytes@.subrange(0, i as int)
                + old(b)@.subrange(o + i, old(b).len() as int),
        decreases n - i,
    {
        b.set(o + i, bytes[i]);
        assert(b@ =~= old(b)@.subrange(0, o as int) + bytes@.subrange(0, i + 1)
            + old(b)@.subrange(o + i + 1, old(b).len() as int));
        i = i + 1;
    }
    assert(bytes@.subrange(0, n as int) =~= bytes@);
    Ok(())
}

// ---------- building boxes ----------

/// Concatenation of byte strings.
pub open spec fn flatten(parts: Seq<Seq<u8>>) -> Seq<u8>
    decreases parts.len(),
{
    if parts.len() == 0 { Seq::empty() } else { flatten(parts.drop_last()) + parts.last() }
}

/// Flattening takes the first part, then the rest.
pub proof fn lemma_flatten_front(parts: Seq<Seq<u8>>)
    requires
        parts.len() > 0,
    ensures
        flatten(parts) == parts[0] + flatten(parts.drop_first()),
    decreases parts.len(),
{
    if parts.len() == 1 {
        assert(parts.drop_last() =~= Seq::<Seq<u8>>::empty());
        assert(parts.drop_first() =~= Seq::<Seq<u8>>::empty());
        assert(flatten(parts) =~= parts[0] + flatten(parts.drop_first()));
    } else {
        lemma_flatten_front(parts.drop_last());
        assert(parts.drop_last().drop_first() =~= parts.drop_first().drop_last());
        assert(parts.drop_first().last() == parts.last());
        assert(parts.drop_last()[0] == parts[0]);
        assert(flatten(parts) =~= parts[0] + flatten(parts.drop_first()));
    }
}

pub open spec fn views(parts: Seq<Vec<u8>>) -> Seq<Seq<u8>> {
    Seq::new(parts.len(), |i: int| parts[i]@)
}

/// Big-endian 32-bit words.
pub open spec fn w32_spec(vals: Seq<u32>) -> Seq<u8>
    decreases vals.len(),
{
    if vals.len() == 0 { Seq::empty() } else { w32_spec(vals.drop_last()) + be32(vals.last() as nat) }
}

pub fn w32(vals: &[u32]) -> (out: Vec<u8>)
    ensures
        out@ == w32_spec(vals@),
{
    let mut out: Vec<u8> = Vec::new();
    let mut i: usize = 0;
    while i < vals.len()
        invariant
            i <= vals.len(),
            out@ == w32_spec(vals@.subrange(0, i as int)),
        decreases vals.len() - i,
    {
        push_be32(&mut out, vals[i]);
        assert(vals@.subrange(0, i + 1).drop_last() =~= vals@.subrange(0, i as int));
        i = i + 1;
    }
    assert(vals@.subrange(0, i as int) =~= vals@);
    out
}

/// A four-character box type written as text.
pub open spec fn fourcc(s: Seq<char>) -> Seq<u8> {
    s.map_values(|c: char| c as u8)
}

/// A box: 32-bit size (header included), type, contents.
#[verifier::opaque]
pub open spec fn box_spec(typ: Seq<u8>, body: Seq<u8>) -> Seq<u8> {
    be32((body.len() + 8) % 0x1_0000_0000) + typ + body
}

/// A box is its contents and eight header bytes.
pub proof fn lemma_box_len(typ: Seq<u8>, body: Seq<u8>)
    requires
        typ.len() == 4,
    ensures
        #[trigger] box_spec(typ, body).len() == body.len() + 8,
{
    reveal(box_spec);
}

/// Appends every part, in order.
fn append_all(out: &mut Vec<u8>, parts: &Vec<Vec<u8>>)
    requires
        old(out)@.len() + flatten(views(parts@)).len() <= usize::MAX,
    ensures
        final(out)@ == old(out)@ + flatten(views(parts@)),
{
    let ghost start = out@;
    let mut i: usize = 0;
    while i < parts.len()
        invariant
            i <= parts.len(),
            start.len() + flatten(views(parts@)).len() <= usize::MAX,
            out@ == start + flatten(views(parts@.subrange(0, i as int))),
        decreases parts.len() - i,
    {
        proof {
            let s = parts@.subrange(0, i + 1);
            assert(views(s).drop_last() =~= views(parts@.subrange(0, i as int)));
            assert(views(s).last() == parts@[i as int]@);
            lemma_flatten_prefix_len(views(parts@), i + 1);
            assert(views(parts@).subrange(0, i + 1) =~= views(s));
        }
        extend(out, parts[i].as_slice());
        i = i + 1;
    }
    assert(parts@.subrange(0, i as int) =~= parts@);
}

/// A prefix of the parts never flattens to more bytes than all of them.
pub proof fn lemma_flatten_prefix_len(parts: Seq<Seq<u8>>, k: int)
    requires
        0 <= k <= parts.len(),
    ensures
        flatten(parts.subrange(0, k)).len() <= flatten(parts).len(),
    decreases parts.len() - k,
{
    if k < parts.len() {
        lemma_flatten_prefix_len(parts, k + 1);
        assert(parts.subrange(0, k + 1).drop_last() =~= parts.subrange(0, k));
    } else {
        assert(parts.subrange(0, k) =~= parts);
    }
}

/// Builds a box from its type and contents.
pub fn bx(typ: &[u8; 4], parts: Vec<Vec<u8>>) -> (out: Vec<u8>)
    requires
        flatten(views(parts@)).len() + 8 <= usize::MAX,
    ensures
        out@ == box_spec(typ@, flatten(views(parts@))),
{
    let ghost body = flatten(views(parts@));
    let mut out: Vec<u8> = Vec::new();
    let mut total: usize = 0;
    let mut i: usize = 0;
    while i < parts.len()
        invariant
            i <= parts.len(),
            body == flatten(views(parts@)),
            body.len() + 8 <= usize::MAX,
            total == flatten(views(parts@.subrange(0, i as int))).len(),
        decreases parts.len() - i,
    {
        proof {
            let s = parts@.subrange(0, i + 1);
            assert(views(s).drop_last() =~= views(parts@.subrange(0, i as int)));
            assert(views(s).last() == parts@[i as int]@);
            lemma_flatten_prefix_len(views(parts@), i + 1);
            assert(views(parts@).subrange(0, i + 1) =~= views(s));
        }
        total = total + parts[i].len();
        i = i + 1;
    }
    assert(parts@.subrange(0, i as int) =~= parts@);
    push_be32(&mut out, ((total as u64 + 8) % 0x1_0000_0000) as u32);
    extend(&mut out, typ);
    append_all(&mut out, &parts);
    proof {
        reveal(box_spec);
    }
    out
}

/// Version and flags word of a full box.
pub open spec fn vf_word(version: u8, flags: u32) -> nat {
    version as nat * 0x100_0000 + flags as nat % 0x100_0000
}

/// A full box: version and 24-bit flags before the contents.
pub fn full_box(typ: &[u8; 4], version: u8, flags: u32, parts: Vec<Vec<u8>>) -> (out: Vec<u8>)
    requires
        flatten(views(parts@)).len() + 12 <= usize::MAX,
    ensures
        out@ == box_spec(typ@, be32(vf_word(version, flags)) + flatten(views(parts@))),
{
    let vf = (version as u32) * 0x100_0000 + (flags % 0x100_0000);
    let mut head: Vec<u8> = Vec::new();
    push_be32(&mut head, vf);
    append_all(&mut head, &parts);
    let ghost h = head@;
    let mut all: Vec<Vec<u8>> = Vec::new();
    all.push(head);
    proof {
        assert(views(all@).drop_last() =~= Seq::<Seq<u8>>::empty());
        assert(views(all@).last() == h);
        assert(flatten(Seq::<Seq<u8>>::empty()) == Seq::<u8>::empty());
        assert(flatten(views(all@)) =~= h);
    }
    bx(typ, all)
}

// ---------- reading boxes ----------

/// A box found in a buffer: its type and where its header, contents and end lie.
#[derive(Clone, Copy, Debug, PartialEq, Eq)]
pub struct BoxNode {
    pub typ: [u8; 4],
    pub start: usize,
    pub hdr: usize,
    pub body: usize,
    pub end: usize,
}

/// What a box is, in terms of the buffer it was read from.
pub struct Span {
    pub typ: Seq<u8>,
    pub start: int,
    pub hdr: int,
    pub end: int,
}

impl BoxNode {
    pub open spec fn span(self) -> Span {
        Span { typ: self.typ@, start: self.start as int, hdr: self.hdr as int, end: self.end as int }
    }

    /// The contents start right after the header.
    pub open spec fn wf(self) -> bool {
        self.body == self.start + self.hdr
    }
}

pub open spec fn spans(v: Seq<BoxNode>) -> Seq<Span> {
    Seq::new(v.len(), |i: int| v[i].span())
}

/// The box header at `o` (size, type and, for a 64-bit size, the large size) lies in `b`.
pub open spec fn head_in(b: Seq<u8>, o: int) -> bool {
    o + 8 <= b.len() && (u32_spec(b, o) == 1 ==> o + 16 <= b.len())
}

pub open spec fn hdr_len(b: Seq<u8>, o: int) -> int {
    if u32_spec(b, o) == 1 { 16 } else { 8 }
}

/// The size of the box at `o`: 1 means a 64-bit size follows, 0 means "up to `end`".
pub open spec fn size_at(b: Seq<u8>, o: int, end: int) -> int {
    let s = u32_spec(b, o);
    if s == 1 { u64_spec(b, o + 8) as int } else if s == 0 { end - o } else { s as int }
}

/// The boxes laid end to end in `b[o..end]`, or the offset of the first one that is
/// unreadable or does not fit. Fewer than 8 bytes left end the list.
pub open spec fn box_list(b: Seq<u8>, o: int, end: int) -> Result<Seq<Span>, int>
    decreases end - o,
{
    if o + 8 > end {
        Ok(Seq::empty())
    } else if !head_in(b, o) {
        Err(o)
    } else {
        let size = size_at(b, o, end);
        let hdr = hdr_len(b, o);
        if size < hdr || o + size > end {
            Err(o)
        } else {
            let sp = Span { typ: b.subrange(o + 4, o + 8), start: o, hdr, end: o + size };
            match box_list(b, o + size, end) {
                Ok(rest) => Ok(seq![sp] + rest),
                Err(at) => Err(at),
            }
        }
    }
}

/// Four bytes as a box type.
pub open spec fn arr4(s: Seq<u8>) -> [u8; 4] {
    [s[0], s[1], s[2], s[3]]
}

/// The error for the bad box at `at`: out of range when its header cannot be read,
/// else a bad box of its type.
pub open spec fn fault(b: Seq<u8>, at: int) -> Mp4Error {
    if head_in(b, at) {
        Mp4Error::BadBox(arr4(b.subrange(at + 4, at + 8)))
    } else {
        Mp4Error::OutOfRange
    }
}

/// The boxes of `b[start..end]`, or the error reading them gives.
pub open spec fn children_spec(b: Seq<u8>, start: int, end: int) -> Result<Seq<Span>, Mp4Error> {
    match box_list(b, start, end) {
        Ok(sp) => Ok(sp),
        Err(at) => Err(fault(b, at)),
    }
}

/// `r` is what reading the boxes of `b[start..end]` gives.
pub open spec fn children_result(r: Result<Vec<BoxNode>, Mp4Error>, b: Seq<u8>, start: int, end: int) -> bool {
    match children_spec(b, start, end) {
        Ok(sp) => r matches Ok(v) && spans(v@) == sp && forall|i: int| 0 <= i < v.len() ==> (#[trigger] v@[i]).wf(),
        Err(e) => r == Err::<Vec<BoxNode>, Mp4Error>(e),
    }
}

spec fn join(p: Seq<Span>, r: Result<Seq<Span>, int>) -> Result<Seq<Span>, int> {
    match r {
        Ok(rest) => Ok(p + rest),
        Err(at) => Err(at),
    }
}

fn typ_of(s: &[u8]) -> (t: [u8; 4])
    requires
        s.len() == 4,
    ensures
        t@ == s@,
{
    let t = [s[0], s[1], s[2], s[3]];
    assert(t@ =~= s@);
    t
}

/// Whether two box types are the same.
pub fn same_typ(a: &[u8; 4], b: &[u8; 4]) -> (r: bool)
    ensures
        r == (a@ == b@),
{
    let r = a[0] == b[0] && a[1] == b[1] && a[2] == b[2] && a[3] == b[3];
    if r {
        assert(a@ =~= b@);
    }
    r
}

/// The boxes laid end to end in `buf[start..end]`.
pub fn children(buf: &[u8], start: usize, end: usize) -> (r: Result<Vec<BoxNode>, Mp4Error>)
    ensures
        children_result(r, buf@, start as int, end as int),
{
    let mut out: Vec<BoxNode> = Vec::new();
    let mut o = start;
    proof {
        assert(spans(out@) =~= Seq::<Span>::empty());
        assert(join(Seq::empty(), box_list(buf@, o as int, end as int)) =~= box_list(buf@, o as int, end as int)) by {
            match box_list(buf@, o as int, end as int) {
                Ok(rest) => { assert(Seq::<Span>::empty() + rest =~= rest); }
                Err(_) => {}
            }
        }
    }
    while o <= end && end - o >= 8
        invariant
            box_list(buf@, start as int, end as int) == join(spans(out@), box_list(buf@, o as int, end as int)),
            forall|i: int| 0 <= i < out.len() ==> (#[trigger] out@[i]).wf(),
        decreases end - o,
    {
        let ghost before = out@;
        let size32 = u32_at(buf, o)?;
        let t = rd(buf, o + 4, 4)?;
        let typ = typ_of(t);
        let mut size: u64 = size32 as u64;
        let mut hdr: usize = 8;
        if size32 == 1 {
            size = u64_at(buf, o + 8)?;
            hdr = 16;
        } else if size32 == 0 {
            size = (end - o) as u64;
        }
        assert(head_in(buf@, o as int));
        if size < hdr as u64 || size > (end - o) as u64 {
            proof {
                broadcast use vstd::array::group_array_axioms;
                let a = arr4(buf@.subrange(o + 4, o + 8));
                assert(a@ =~= typ@);
                assert forall|k: int| 0 <= k < 4 implies typ[k] == a[k] by {
                    assert(typ@[k] == a@[k]);
                }
                assert(typ =~= a);
            }
            return Err(Mp4Error::BadBox(typ));
        }
        let sz = size as usize;
        let node = BoxNode { typ, start: o, hdr, body: o + hdr, end: o + sz };
        out.push(node);
        proof {
            let sp = node.span();
            assert(sp == Span { typ: buf@.subrange(o + 4, o + 8), start: o as int, hdr: hdr_len(buf@, o as int),
                end: o + size_at(buf@, o as int, end as int) });
            assert(spans(out@) =~= spans(before) + seq![sp]);
            match box_list(buf@, o + sz, end as int) {
                Ok(rest) => { assert(spans(before) + (seq![sp] + rest) =~= spans(out@) + rest); }
                Err(_) => {}
            }
        }
        o = o + sz;
    }
    proof {
        assert(box_list(buf@, o as int, end as int) == Ok::<Seq<Span>, int>(Seq::empty()));
        assert(spans(out@) + Seq::<Span>::empty() =~= spans(out@));
    }
    Ok(out)
}

/// The index of the first span of type `t`.
pub open spec fn first_of(sp: Seq<Span>, t: Seq<u8>) -> Option<int>
    decreases sp.len(),
{
    if sp.len() == 0 {
        None
    } else if sp[0].typ == t {
        Some(0)
    } else {
        match first_of(sp.drop_first(), t) {
            Some(i) => Some(i + 1),
            None => None,
        }
    }
}

proof fn lemma_first_of(sp: Seq<Span>, t: Seq<u8>, i: int)
    requires
        0 <= i <= sp.len(),
        forall|j: int| 0 <= j < i ==> (#[trigger] sp[j]).typ != t,
    ensures
        i < sp.len() && sp[i].typ == t ==> first_of(sp, t) == Some(i),
        i == sp.len() ==> first_of(sp, t) is None,
    decreases i,
{
    if i > 0 {
        lemma_first_of(sp.drop_first(), t, i - 1);
        assert(sp[0].typ != t);
        assert forall|j: int| 0 <= j < i - 1 implies (#[trigger] sp.drop_first()[j]).typ != t by {
            assert(sp.drop_first()[j] == sp[j + 1]);
        }
    }
}

/// The first box of type `typ` in `b[body..end]`.
pub open spec fn find_spec(b: Seq<u8>, body: int, end: int, typ: [u8; 4]) -> Result<Span, Mp4Error> {
    match children_spec(b, body, end) {
        Ok(sp) => match first_of(sp, typ@) {
            Some(i) => Ok(sp[i]),
            None => Err(Mp4Error::MissingBox(typ)),
        },
        Err(e) => Err(e),
    }
}

/// The first child of type `typ` of a box.
pub open spec fn find_result(r: Result<BoxNode, Mp4Error>, b: Seq<u8>, parent: BoxNode, typ: [u8; 4]) -> bool {
    match find_spec(b, parent.body as int, parent.end as int, typ) {
        Ok(s) => r matches Ok(n) && n.span() == s && n.wf(),
        Err(e) => r == Err::<BoxNode, Mp4Error>(e),
    }
}

/// The first child of `parent` of type `typ`.
pub fn find(buf: &[u8], parent: &BoxNode, typ: &[u8; 4]) -> (r: Result<BoxNode, Mp4Error>)
    ensures
        find_result(r, buf@, *parent, *typ),
{
    let kids = children(buf, parent.body, parent.end)?;
    let ghost sp = spans(kids@);
    let mut i: usize = 0;
    while i < kids.len()
        invariant
            i <= kids.len(),
            sp == spans(kids@),
            children_spec(buf@, parent.body as int, parent.end as int) == Ok::<Seq<Span>, Mp4Error>(sp),
            forall|j: int| 0 <= j < kids.len() ==> (#[trigger] kids@[j]).wf(),
            forall|j: int| 0 <= j < i ==> (#[trigger] sp[j]).typ != typ@,
        decreases kids.len() - i,
    {
        if same_typ(&kids[i].typ, typ) {
            proof {
                lemma_first_of(sp, typ@, i as int);
                assert(kids@[i as int].wf());
                assert(kids@[i as int].span() == sp[i as int]);
            }
            return Ok(kids[i]);
        }
        assert(sp[i as int].typ != typ@);
        i = i + 1;
    }
    proof {
        lemma_first_of(sp, typ@, i as int);
    }
    Err(Mp4Error::MissingBox(*typ))
}

/// The whole of a `moov` buffer as a box.
pub fn top_of(moov: &[u8]) -> (n: BoxNode)
    ensures
        n.typ@ == seq![0x6du8, 0x6f, 0x6f, 0x76],
        n.start == 0,
        n.hdr == 8,
        n.body == 8,
        n.end == moov.len(),
{
    let typ: [u8; 4] = [0x6d, 0x6f, 0x6f, 0x76];
    assert(typ@ =~= seq![0x6du8, 0x6f, 0x6f, 0x76]);
    BoxNode { typ, start: 0, hdr: 8, body: 8, end: moov.len() }
}

/// A box that `bx` or `full_box` writes reads back, with `children`, as exactly one box of
/// that type spanning the whole buffer with an 8-byte header.
pub proof fn lemma_box_reads_back(typ: Seq<u8>, body: Seq<u8>)
    requires
        typ.len() == 4,
        body.len() + 8 <= u32::MAX,
    ensures
        box_list(box_spec(typ, body), 0, body.len() + 8int) == Ok::<Seq<Span>, int>(
            seq![Span { typ, start: 0, hdr: 8, end: body.len() + 8int }]),
{
    reveal(box_spec);
    let b = box_spec(typ, body);
    let n: int = body.len() + 8int;
    lemma_be32_roundtrip(n as u32);
    assert(b.subrange(0, 4) =~= be32(n as nat));
    assert(u32_spec(b, 0) == n);
    assert(b.subrange(4, 8) =~= typ);
    assert(box_list(b, n, n) == Ok::<Seq<Span>, int>(Seq::empty()));
    assert(seq![Span { typ, start: 0, hdr: 8, end: n }] + Seq::<Span>::empty()
        =~= seq![Span { typ, start: 0, hdr: 8, end: n }]);
}

/// Word `i` of what `w32` writes reads back, with `u32_at` at offset `4 * i`, as `vals[i]`.
pub proof fn lemma_w32_reads_back(vals: Seq<u32>, i: int)
    requires
        0 <= i < vals.len(),
    ensures
        w32_spec(vals).len() == 4 * vals.len(),
        u32_spec(w32_spec(vals), 4 * i) == vals[i],
    decreases vals.len(),
{
    lemma_w32_len(vals);
    let last = vals.len() - 1;
    lemma_be32_roundtrip(vals[last]);
    if i < last {
        lemma_w32_reads_back(vals.drop_last(), i);
        let pre = w32_spec(vals.drop_last());
        assert(w32_spec(vals).subrange(4 * i, 4 * i + 4) =~= pre.subrange(4 * i, 4 * i + 4));
    } else {
        lemma_w32_len(vals.drop_last());
        assert(w32_spec(vals).subrange(4 * i, 4 * i + 4) =~= be32(vals[last] as nat));
    }
}

pub proof fn lemma_w32_reads_back_len(vals: Seq<u32>)
    ensures
        w32_spec(vals).len() == 4 * vals.len(),
{
    lemma_w32_len(vals);
}

proof fn lemma_w32_len(vals: Seq<u32>)
    ensures
        w32_spec(vals).len() == 4 * vals.len(),
    decreases vals.len(),
{
    if vals.len() > 0 {
        lemma_w32_len(vals.drop_last());
    }
}

/// Appends one part to a list of box contents.
pub fn push_part(parts: &mut Vec<Vec<u8>>, p: Vec<u8>)
    ensures
        final(parts)@.len() == old(parts)@.len() + 1,
        flatten(views(final(parts)@)) == flatten(views(old(parts)@)) + p@,
{
    let ghost before = parts@;
    let ghost pv = p@;
    parts.push(p);
    proof {
        assert(views(parts@).drop_last() =~= views(before));
        assert(views(parts@).last() == pv);
    }
}

/// The index of the first box of type `typ` in a list read by `children`.
pub fn first_index(kids: &Vec<BoxNode>, typ: &[u8; 4]) -> (r: Option<usize>)
    ensures
        match first_of(spans(kids@), typ@) {
            Some(i) => r == Some(i as usize) && 0 <= i < kids.len(),
            None => r is None,
        },
{
    let ghost sp = spans(kids@);
    let mut i: usize = 0;
    while i < kids.len()
        invariant
            i <= kids.len(),
            sp == spans(kids@),
            forall|j: int| 0 <= j < i ==> (#[trigger] sp[j]).typ != typ@,
        decreases kids.len() - i,
    {
        if same_typ(&kids[i].typ, typ) {
            proof {
                lemma_first_of(sp, typ@, i as int);
            }
            return Some(i);
        }
        assert(sp[i as int].typ != typ@);
        i = i + 1;
    }
    proof {
        lemma_first_of(sp, typ@, i as int);
    }
    None
}

/// A top-level box of a file of `size` bytes that starts at `o`, from its first bytes (up to 16):
/// its type and length. A length of 1 means a 64-bit length follows, 0 means "to the end".
pub open spec fn top_box_spec(head: Seq<u8>, o: int, size: int) -> Result<([u8; 4], u64), Mp4Error> {
    if head.len() < 8 {
        Err(Mp4Error::OutOfRange)
    } else {
        let s = u32_spec(head, 0);
        let typ = arr4(head.subrange(4, 8));
        if s == 1 && head.len() < 16 {
            Err(Mp4Error::OutOfRange)
        } else {
            let len: int = if s == 1 { u64_spec(head, 8) as int } else if s == 0 { size - o } else { s as int };
            if len < 8 || o + len > size { Err(Mp4Error::Incomplete(typ)) } else { Ok((typ, len as u64)) }
        }
    }
}

/// Reads the header of the top-level box at `o` of a file of `size` bytes.
pub fn top_box(head: &[u8], o: u64, size: u64) -> (r: Result<([u8; 4], u64), Mp4Error>)
    requires
        o <= size,
    ensures
        r == top_box_spec(head@, o as int, size as int),
{
    let s = u32_at(head, 0)?;
    let t = rd(head, 4, 4)?;
    let typ = typ_of(t);
    proof {
        broadcast use vstd::array::group_array_axioms;
        let a = arr4(head@.subrange(4, 8));
        assert(a@ =~= typ@);
        assert forall|k: int| 0 <= k < 4 implies typ[k] == a[k] by {
            assert(typ@[k] == a@[k]);
        }
        assert(typ =~= a);
    }
    let len: u64 = if s == 1 {
        u64_at(head, 8)?
    } else if s == 0 {
        size - o
    } else {
        s as u64
    };
    if len < 8 || len > size - o {
        return Err(Mp4Error::Incomplete(typ));
    }
    Ok((typ, len))
}

} // verus!
