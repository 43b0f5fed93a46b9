//! Tags inside an MP4/M4A (the iTunes "ilst" layout that every player reads).

use vstd::prelude::*;
use crate::media::tags::Tags;
use crate::media::bytes::{be32, to_vec};
use crate::media::mp4::boxes::{bx, full_box, w32, box_spec, flatten, views, push_part, vf_word, fourcc, lemma_box_len};

verus! {

/// A tag item: a box of type `typ` holding a "data" full box with the data type
/// (1 = UTF-8 text, 13 = JPEG, 14 = PNG) as flags, the locale (0) and the payload.
pub open spec fn item_spec(typ: Seq<u8>, data_type: u32, payload: Seq<u8>) -> Seq<u8> {
    box_spec(typ, box_spec(fourcc("data"@), be32(vf_word(0, data_type)) + be32(0) + payload))
}

/// An item is its payload and 24 bytes of boxes around it.
pub proof fn lemma_item_len(typ: Seq<u8>, data_type: u32, payload: Seq<u8>)
    requires
        typ.len() == 4,
    ensures
        item_spec(typ, data_type, payload).len() == payload.len() + 24,
{
    reveal_strlit("data");
    lemma_box_len(fourcc("data"@), be32(vf_word(0, data_type)) + be32(0) + payload);
    lemma_box_len(typ, box_spec(fourcc("data"@), be32(vf_word(0, data_type)) + be32(0) + payload));
}

pub fn tag_item(typ: [u8; 4], data_type: u32, payload: &[u8]) -> (out: Vec<u8>)
    requires
        payload.len() + 32 <= usize::MAX,
    ensures
        out@ == item_spec(typ@, data_type, payload@),
{
    let data: [u8; 4] = [0x64, 0x61, 0x74, 0x61];
    let mut inner: Vec<Vec<u8>> = Vec::new();
    let zero: [u32; 1] = [0];
    let z = w32(&zero);
    proof {
        assert(zero@ =~= seq![0u32]);
        reveal_with_fuel(crate::media::mp4::boxes::w32_spec, 2);
        assert(z@ =~= be32(0));
    }
    push_part(&mut inner, z);
    push_part(&mut inner, to_vec(payload));
    proof {
        assert(flatten(views(Seq::<Vec<u8>>::empty())) == Seq::<u8>::empty());
        assert(be32(0) + payload@ =~= Seq::<u8>::empty() + be32(0) + payload@);
        assert(data@ =~= fourcc("data"@)) by {
            reveal_strlit("data");
        }
    }
    let d = full_box(&data, 0, data_type, inner);
    proof {
        lemma_box_len(data@, be32(vf_word(0, data_type)) + (be32(0) + payload@));
    }
    let mut outer: Vec<Vec<u8>> = Vec::new();
    let ghost dv = d@;
    push_part(&mut outer, d);
    proof {
        assert(Seq::<u8>::empty() + dv =~= dv);
        assert(be32(vf_word(0, data_type)) + (be32(0) + payload@) =~= be32(vf_word(0, data_type)) + be32(0) + payload@);
    }
    bx(&typ, outer)
}

/// PNG covers start with the PNG signature; anything else is taken as JPEG.
pub open spec fn png_signature(c: Seq<u8>) -> bool {
    c.len() >= 4 && c[0] == 0x89 && c[1] == 0x50 && c[2] == 0x4e && c[3] == 0x47
}

pub open spec fn utf8(s: Seq<char>) -> Seq<u8> {
    vstd::utf8::encode_utf8(s)
}

pub open spec fn nam() -> Seq<u8> { seq![0xa9u8, 0x6e, 0x61, 0x6d] }
pub open spec fn art() -> Seq<u8> { seq![0xa9u8, 0x41, 0x52, 0x54] }
pub open spec fn alb() -> Seq<u8> { seq![0xa9u8, 0x61, 0x6c, 0x62] }
pub open spec fn day() -> Seq<u8> { seq![0xa9u8, 0x64, 0x61, 0x79] }

/// The tag items: title, artist, then album, year and cover when present.
pub open spec fn ilst_items(t: Tags) -> Seq<u8> {
    item_spec(nam(), 1, utf8(t.title@)) + item_spec(art(), 1, utf8(t.artist@))
        + (if let Some(a) = t.album { item_spec(alb(), 1, utf8(a@)) } else { Seq::empty() })
        + (if let Some(y) = t.year { item_spec(day(), 1, utf8(y@)) } else { Seq::empty() })
        + (if let Some(c) = t.cover {
            item_spec(fourcc("covr"@), if png_signature(c@) { 14 } else { 13 }, c@)
        } else {
            Seq::empty()
        })
}

/// The metadata handler: pre-defined 0, handler "mdir", maker "appl", reserved, empty name.
pub open spec fn hdlr_spec() -> Seq<u8> {
    box_spec(fourcc("hdlr"@), be32(0) + be32(0) + fourcc("mdir"@) + fourcc("appl"@) + be32(0) + be32(0) + seq![0u8])
}

/// `udta` holding `meta` (a full box) holding the handler and the item list.
pub open spec fn udta_spec(t: Tags) -> Seq<u8> {
    box_spec(fourcc("udta"@), box_spec(fourcc("meta"@), be32(0) + hdlr_spec() + box_spec(fourcc("ilst"@), ilst_items(t))))
}

/// Total text and cover bytes of the tags.
pub open spec fn tags_len(t: Tags) -> nat {
    utf8(t.title@).len() + utf8(t.artist@).len()
        + (if let Some(a) = t.album { utf8(a@).len() } else { 0 })
        + (if let Some(y) = t.year { utf8(y@).len() } else { 0 })
        + (if let Some(c) = t.cover { c@.len() } else { 0 })
}

fn text_item(typ: [u8; 4], s: &String) -> (out: Vec<u8>)
    requires
        utf8(s@).len() + 32 <= usize::MAX,
    ensures
        out@ == item_spec(typ@, 1, utf8(s@)),
{
    tag_item(typ, 1, s.as_str().as_bytes())
}

fn word0() -> (v: Vec<u8>)
    ensures
        v@ == be32(0),
{
    let zero: [u32; 1] = [0];
    let z = w32(&zero);
    proof {
        assert(zero@ =~= seq![0u32]);
        reveal_with_fuel(crate::media::mp4::boxes::w32_spec, 2);
        assert(z@ =~= be32(0));
    }
    z
}

fn ascii4(a: u8, b: u8, c: u8, d: u8) -> (v: Vec<u8>)
    ensures
        v@ == seq![a, b, c, d],
{
    let v = vec![a, b, c, d];
    assert(v@ =~= seq![a, b, c, d]);
    v
}

fn items_of(t: &Tags) -> (items: Vec<Vec<u8>>)
    requires
        tags_len(*t) + 512 <= usize::MAX,
    ensures
        flatten(views(items@)) == ilst_items(*t),
        ilst_items(*t).len() <= tags_len(*t) + 120,
{
    let ghost p1 = item_spec(nam(), 1, utf8(t.title@));
    let ghost p2 = item_spec(art(), 1, utf8(t.artist@));
    let ghost pa = if let Some(a) = &t.album { item_spec(alb(), 1, utf8(a@)) } else { Seq::<u8>::empty() };
    let ghost py = if let Some(y) = &t.year { item_spec(day(), 1, utf8(y@)) } else { Seq::<u8>::empty() };
    let ghost pc = if let Some(c) = &t.cover {
        item_spec(fourcc("covr"@), if png_signature(c@) { 14 } else { 13 }, c@)
    } else {
        Seq::<u8>::empty()
    };
    proof {
        reveal_strlit("covr");
        lemma_item_len(nam(), 1, utf8(t.title@));
        lemma_item_len(art(), 1, utf8(t.artist@));
        if let Some(a) = &t.album { lemma_item_len(alb(), 1, utf8(a@)); }
        if let Some(y) = &t.year { lemma_item_len(day(), 1, utf8(y@)); }
        if let Some(c) = &t.cover { lemma_item_len(fourcc("covr"@), if png_signature(c@) { 14 } else { 13 }, c@); }
    }
    let mut items: Vec<Vec<u8>> = Vec::new();
    proof {
        assert(flatten(views(items@)) =~= Seq::<u8>::empty());
        assert([0xa9u8, 0x6e, 0x61, 0x6d]@ =~= nam());
        assert([0xa9u8, 0x41, 0x52, 0x54]@ =~= art());
        assert([0xa9u8, 0x61, 0x6c, 0x62]@ =~= alb());
        assert([0xa9u8, 0x64, 0x61, 0x79]@ =~= day());
    }
    push_part(&mut items, text_item([0xa9, 0x6e, 0x61, 0x6d], &t.title));
    assert(Seq::<u8>::empty() + p1 =~= p1);
    push_part(&mut items, text_item([0xa9, 0x41, 0x52, 0x54], &t.artist));
    assert(flatten(views(items@)) == p1 + p2);
    if let Some(a) = &t.album {
        push_part(&mut items, text_item([0xa9, 0x61, 0x6c, 0x62], a));
    } else {
        assert(p1 + p2 + pa =~= p1 + p2);
    }
    assert(flatten(views(items@)) == p1 + p2 + pa);
    if let Some(y) = &t.year {
        push_part(&mut items, text_item([0xa9, 0x64, 0x61, 0x79], y));
    } else {
        assert(p1 + p2 + pa + py =~= p1 + p2 + pa);
    }
    assert(flatten(views(items@)) == p1 + p2 + pa + py);
    if let Some(c) = &t.cover {
        let png = c.len() >= 4 && c[0] == 0x89 && c[1] == 0x50 && c[2] == 0x4e && c[3] == 0x47;
        let kind: u32 = if png { 14 } else { 13 };
        let covr: [u8; 4] = [0x63, 0x6f, 0x76, 0x72];
        proof {
            reveal_strlit("covr");
            assert(covr@ =~= fourcc("covr"@));
        }
        push_part(&mut items, tag_item(covr, kind, c.as_slice()));
    } else {
        assert(p1 + p2 + pa + py + pc =~= p1 + p2 + pa + py);
    }
    assert(flatten(views(items@)) == p1 + p2 + pa + py + pc);
    items
}

fn hdlr_box() -> (out: Vec<u8>)
    ensures
        out@ == hdlr_spec(),
        out@.len() == 33,
{
    let mut hparts: Vec<Vec<u8>> = Vec::new();
    proof {
        assert(flatten(views(hparts@)) =~= Seq::<u8>::empty());
    }
    push_part(&mut hparts, word0());
    push_part(&mut hparts, ascii4(0x6d, 0x64, 0x69, 0x72));
    push_part(&mut hparts, ascii4(0x61, 0x70, 0x70, 0x6c));
    push_part(&mut hparts, word0());
    push_part(&mut hparts, word0());
    let nul: Vec<u8> = vec![0u8];
    assert(nul@ =~= seq![0u8]);
    push_part(&mut hparts, nul);
    let out = full_box(&[0x68, 0x64, 0x6c, 0x72], 0, 0, hparts);
    proof {
        reveal_strlit("hdlr");
        reveal_strlit("mdir");
        reveal_strlit("appl");
        let body = be32(0) + be32(0) + fourcc("mdir"@) + fourcc("appl"@) + be32(0) + be32(0) + seq![0u8];
        assert(fourcc("hdlr"@) =~= [0x68u8, 0x64, 0x6c, 0x72]@);
        assert(fourcc("mdir"@) =~= seq![0x6du8, 0x64, 0x69, 0x72]);
        assert(fourcc("appl"@) =~= seq![0x61u8, 0x70, 0x70, 0x6c]);
        assert(be32(vf_word(0, 0)) + flatten(views(hparts@)) =~= body);
        lemma_box_len(fourcc("hdlr"@), body);
    }
    out
}

/// The `udta` box with the tags, for the end of `moov`.
pub fn build_udta(t: &Tags) -> (out: Vec<u8>)
    requires
        tags_len(*t) + 512 <= usize::MAX,
    ensures
        out@ == udta_spec(*t),
{
    let items = items_of(t);
    let ghost iv = flatten(views(items@));
    let ilst = bx(&[0x69, 0x6c, 0x73, 0x74], items);
    proof {
        lemma_box_len([0x69u8, 0x6c, 0x73, 0x74]@, iv);
    }
    let mut mparts: Vec<Vec<u8>> = Vec::new();
    proof {
        assert(flatten(views(mparts@)) =~= Seq::<u8>::empty());
    }
    push_part(&mut mparts, hdlr_box());
    push_part(&mut mparts, ilst);
    let ghost mv = flatten(views(mparts@));
    let meta = full_box(&[0x6d, 0x65, 0x74, 0x61], 0, 0, mparts);
    proof {
        lemma_box_len([0x6du8, 0x65, 0x74, 0x61]@, be32(vf_word(0, 0)) + mv);
    }
    let mut uparts: Vec<Vec<u8>> = Vec::new();
    proof {
        assert(flatten(views(uparts@)) =~= Seq::<u8>::empty());
    }
    push_part(&mut uparts, meta);
    let out = bx(&[0x75, 0x64, 0x74, 0x61], uparts);
    proof {
        reveal_strlit("udta");
        reveal_strlit("meta");
        reveal_strlit("ilst");
        assert(fourcc("udta"@) =~= [0x75u8, 0x64, 0x74, 0x61]@);
        assert(fourcc("meta"@) =~= [0x6du8, 0x65, 0x74, 0x61]@);
        assert(fourcc("ilst"@) =~= [0x69u8, 0x6c, 0x73, 0x74]@);
        assert(Seq::<u8>::empty() + hdlr_spec() =~= hdlr_spec());
        assert(be32(vf_word(0, 0)) + mv =~= be32(0) + hdlr_spec() + box_spec(fourcc("ilst"@), ilst_items(*t)));
        assert(out@ == udta_spec(*t));
    }
    out
}

} // verus!
