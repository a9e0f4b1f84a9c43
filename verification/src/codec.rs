//! The binary codec for key and proof material.
//!
//! A record is `len(x) ‖ x ‖ len(y) ‖ y ‖ len(z) ‖ z`: the three
//! projective coordinates of one point, each behind a single
//! length-prefix byte. Records are grouped into vectors; every vector
//! ends with a single zero byte, which can never be a coordinate
//! length. The stream itself carries no group tags: a boundary index,
//! supplied by the caller, says how many leading records are G1 points
//! before the rest are read as G2 points. A proof travels as one flat
//! vector of nine records, base64-encoded into a single text token.

use vstd::prelude::*;
use crate::field::le_val;
use crate::group::{
    g1_coords_ok, g2_coords_ok, g1_wf, g2_wf, G1Elem, G2Elem, GroupElem, GroupElemView,
};
use base64::Engine;

verus! {

/// A failure while decoding key or proof bytes.
#[derive(Debug, Clone, Copy, PartialEq, Eq, Structural)]
pub enum CodecError {
    /// The stream ended inside a record or an unterminated vector.
    TruncatedStream,
    /// A record does not hold a canonical point encoding, or the
    /// decoded stream does not have the expected shape.
    InvalidPointEncoding,
}

/// The record bytes of one point: each coordinate behind its length
/// prefix.
pub open spec fn enc_point(e: GroupElemView) -> Seq<u8> {
    match e {
        GroupElemView::One(b) => seq![32u8] + b.subrange(0, 32) + seq![32u8] + b.subrange(32, 64)
            + seq![32u8] + b.subrange(64, 96),
        GroupElemView::Two(b) => seq![64u8] + b.subrange(0, 64) + seq![64u8] + b.subrange(64, 128)
            + seq![64u8] + b.subrange(128, 192),
    }
}

/// The bytes of one vector: its records in order, then the zero
/// delimiter.
pub open spec fn enc_vec(v: Seq<GroupElemView>) -> Seq<u8>
    decreases v.len(),
{
    if v.len() == 0 {
        seq![0u8]
    } else {
        enc_point(v[0]) + enc_vec(v.drop_first())
    }
}

/// The bytes of a whole key: its vectors in order.
pub open spec fn enc_key(k: Seq<Seq<GroupElemView>>) -> Seq<u8>
    decreases k.len(),
{
    if k.len() == 0 {
        Seq::<u8>::empty()
    } else {
        enc_vec(k[0]) + enc_key(k.drop_first())
    }
}

/// The bytes of a flat record sequence without delimiters, as a proof
/// is carried.
pub open spec fn enc_flat(v: Seq<GroupElemView>) -> Seq<u8>
    decreases v.len(),
{
    if v.len() == 0 {
        Seq::<u8>::empty()
    } else {
        enc_point(v[0]) + enc_flat(v.drop_first())
    }
}

/// One record read from the head of `b`: the decoded point and the
/// number of bytes consumed. `is2` selects the group.
pub open spec fn dec_record(b: Seq<u8>, is2: bool) -> Option<(GroupElemView, int)> {
    if b.len() < 1 {
        None
    } else {
        let l1 = b[0] as int;
        if b.len() < 1 + l1 + 1 {
            None
        } else {
            let x = b.subrange(1, 1 + l1);
            let l2 = b[1 + l1] as int;
            if b.len() < 2 + l1 + l2 + 1 {
                None
            } else {
                let y = b.subrange(2 + l1, 2 + l1 + l2);
                let l3 = b[2 + l1 + l2] as int;
                if b.len() < 3 + l1 + l2 + l3 {
                    None
                } else {
                    let z = b.subrange(3 + l1 + l2, 3 + l1 + l2 + l3);
                    let t = 3 + l1 + l2 + l3;
                    if is2 {
                        if g2_coords_ok(x, y, z) {
                            Some((GroupElemView::Two(x + y + z), t))
                        } else {
                            None
                        }
                    } else {
                        if g1_coords_ok(x, y, z) {
                            Some((GroupElemView::One(x + y + z), t))
                        } else {
                            None
                        }
                    }
                }
            }
        }
    }
}

/// A decoded record consumed between 3 bytes and the whole input.
pub proof fn lemma_dec_record_consumed(b: Seq<u8>, is2: bool)
    ensures
        dec_record(b, is2) matches Some(pc) ==> 3 <= pc.1 <= b.len(),
{
}

/// One vector read from the head of `b`: its records up to the zero
/// delimiter, the remaining bytes, and the record counter after it.
/// The counter is 1-based; a record numbered `boundary` or higher is a
/// G2 point.
pub open spec fn dec_vec(b: Seq<u8>, cnt: int, boundary: int) -> Option<
    (Seq<GroupElemView>, Seq<u8>, int),
>
    decreases b.len(),
    via dec_vec_decreases
{
    if b.len() == 0 {
        None
    } else if b[0] == 0 {
        Some((Seq::<GroupElemView>::empty(), b.drop_first(), cnt))
    } else {
        match dec_record(b, cnt >= boundary) {
            None => None,
            Some(pc) => match dec_vec(b.subrange(pc.1, b.len() as int), cnt + 1, boundary) {
                None => None,
                Some(vrc) => Some((seq![pc.0] + vrc.0, vrc.1, vrc.2)),
            },
        }
    }
}

#[via_fn]
proof fn dec_vec_decreases(b: Seq<u8>, cnt: int, boundary: int) {
    lemma_dec_record_consumed(b, cnt >= boundary);
}

/// A decoded vector leaves a strictly shorter remainder.
pub proof fn lemma_dec_vec_rest(b: Seq<u8>, cnt: int, boundary: int)
    ensures
        dec_vec(b, cnt, boundary) matches Some(vrc) ==> vrc.1.len() < b.len() && vrc.2 >= cnt,
    decreases b.len(),
{
    if b.len() == 0 {
    } else if b[0] == 0 {
    } else {
        match dec_record(b, cnt >= boundary) {
            None => {},
            Some(pc) => {
                lemma_dec_record_consumed(b, cnt >= boundary);
                lemma_dec_vec_rest(b.subrange(pc.1, b.len() as int), cnt + 1, boundary);
            },
        }
    }
}

/// A whole key read from `b`: the sequence of vectors, with records
/// numbered across vector bounds starting at `cnt`.
pub open spec fn dec_key(b: Seq<u8>, cnt: int, boundary: int) -> Option<Seq<Seq<GroupElemView>>>
    decreases b.len(),
    via dec_key_decreases
{
    if b.len() == 0 {
        Some(Seq::<Seq<GroupElemView>>::empty())
    } else {
        match dec_vec(b, cnt, boundary) {
            None => None,
            Some(vrc) => match dec_key(vrc.1, vrc.2, boundary) {
                None => None,
                Some(rest) => Some(seq![vrc.0] + rest),
            },
        }
    }
}

#[via_fn]
proof fn dec_key_decreases(b: Seq<u8>, cnt: int, boundary: int) {
    lemma_dec_vec_rest(b, cnt, boundary);
}

/// A flat record sequence read to the end of `b`, as a proof is
/// carried.
pub open spec fn dec_flat(b: Seq<u8>, cnt: int, boundary: int) -> Option<Seq<GroupElemView>>
    decreases b.len(),
    via dec_flat_decreases
{
    if b.len() == 0 {
        Some(Seq::<GroupElemView>::empty())
    } else {
        match dec_record(b, cnt >= boundary) {
            None => None,
            Some(pc) => match dec_flat(b.subrange(pc.1, b.len() as int), cnt + 1, boundary) {
                None => None,
                Some(rest) => Some(seq![pc.0] + rest),
            },
        }
    }
}

#[via_fn]
proof fn dec_flat_decreases(b: Seq<u8>, cnt: int, boundary: int) {
    lemma_dec_record_consumed(b, cnt >= boundary);
}

/// A tagged point whose encoding is well-formed for its group.
pub open spec fn elem_wf(e: GroupElemView) -> bool {
    match e {
        GroupElemView::One(b) => g1_wf(b),
        GroupElemView::Two(b) => g2_wf(b),
    }
}

/// The records of a flat sequence are well-formed and their tags agree
/// with the boundary index when numbered from `cnt`.
pub open spec fn flat_consistent(v: Seq<GroupElemView>, cnt: int, boundary: int) -> bool {
    forall|i: int| 0 <= i < v.len() ==> elem_wf(#[trigger] v[i]) && ((v[i] is Two) <==> (cnt + i
        >= boundary))
}

/// The vectors of a key are well-formed and their tags agree with the
/// boundary index when records are numbered across vectors from `cnt`.
pub open spec fn key_consistent(k: Seq<Seq<GroupElemView>>, cnt: int, boundary: int) -> bool
    decreases k.len(),
{
    if k.len() == 0 {
        true
    } else {
        flat_consistent(k[0], cnt, boundary) && key_consistent(
            k.drop_first(),
            cnt + k[0].len(),
            boundary,
        )
    }
}

/// Reading back an encoded record returns the point and consumes
/// exactly its bytes, whatever follows.
pub proof fn lemma_dec_record_of_enc(e: GroupElemView, s: Seq<u8>, is2: bool)
    requires
        elem_wf(e),
        is2 == (e is Two),
    ensures
        dec_record(enc_point(e) + s, is2) == Some((e, enc_point(e).len() as int)),
{
    let b = enc_point(e) + s;
    match e {
        GroupElemView::One(p) => {
            assert(b[0] == 32);
            assert(b.subrange(1, 33) =~= p.subrange(0, 32));
            assert(b[33] == 32);
            assert(b.subrange(34, 66) =~= p.subrange(32, 64));
            assert(b[66] == 32);
            assert(b.subrange(67, 99) =~= p.subrange(64, 96));
            assert(g1_coords_ok(p.subrange(0, 32), p.subrange(32, 64), p.subrange(64, 96)));
            assert(p.subrange(0, 32) + p.subrange(32, 64) + p.subrange(64, 96) =~= p);
            assert(enc_point(e).len() == 99);
        },
        GroupElemView::Two(p) => {
            assert(b[0] == 64);
            assert(b.subrange(1, 65) =~= p.subrange(0, 64));
            assert(b[65] == 64);
            assert(b.subrange(66, 130) =~= p.subrange(64, 128));
            assert(b[130] == 64);
            assert(b.subrange(131, 195) =~= p.subrange(128, 192));
            assert(g2_coords_ok(p.subrange(0, 64), p.subrange(64, 128), p.subrange(128, 192)))
                by {
                assert(p.subrange(0, 64).subrange(0, 32) =~= p.subrange(0, 32));
                assert(p.subrange(0, 64).subrange(32, 64) =~= p.subrange(32, 64));
                assert(p.subrange(64, 128).subrange(0, 32) =~= p.subrange(64, 96));
                assert(p.subrange(64, 128).subrange(32, 64) =~= p.subrange(96, 128));
                assert(p.subrange(128, 192).subrange(0, 32) =~= p.subrange(128, 160));
                assert(p.subrange(128, 192).subrange(32, 64) =~= p.subrange(160, 192));
            }
            assert(p.subrange(0, 64) + p.subrange(64, 128) + p.subrange(128, 192) =~= p);
            assert(enc_point(e).len() == 195);
        },
    }
}

/// Reading back an encoded vector returns its records and leaves
/// exactly the following bytes.
pub proof fn lemma_dec_vec_of_enc(v: Seq<GroupElemView>, s: Seq<u8>, cnt: int, boundary: int)
    requires
        flat_consistent(v, cnt, boundary),
    ensures
        dec_vec(enc_vec(v) + s, cnt, boundary) == Some((v, s, cnt + v.len())),
    decreases v.len(),
{
    let b = enc_vec(v) + s;
    if v.len() == 0 {
        assert(b[0] == 0);
        assert(b.drop_first() =~= s);
        assert(Seq::<GroupElemView>::empty() =~= v);
    } else {
        let e = v[0];
        assert(elem_wf(e) && ((e is Two) <==> (cnt >= boundary)));
        assert(b =~= enc_point(e) + (enc_vec(v.drop_first()) + s));
        lemma_dec_record_of_enc(e, enc_vec(v.drop_first()) + s, cnt >= boundary);
        assert(b[0] != 0) by {
            match e {
                GroupElemView::One(_) => {
                    assert(b[0] == 32);
                },
                GroupElemView::Two(_) => {
                    assert(b[0] == 64);
                },
            }
        }
        let t = enc_point(e).len() as int;
        assert(b.subrange(t, b.len() as int) =~= enc_vec(v.drop_first()) + s);
        assert forall|i: int| 0 <= i < v.drop_first().len() implies elem_wf(
            #[trigger] v.drop_first()[i],
        ) && ((v.drop_first()[i] is Two) <==> (cnt + 1 + i >= boundary)) by {
            assert(v.drop_first()[i] == v[i + 1]);
            assert(elem_wf(v[i + 1]) && ((v[i + 1] is Two) <==> (cnt + (i + 1) >= boundary)));
        }
        lemma_dec_vec_of_enc(v.drop_first(), s, cnt + 1, boundary);
        assert(seq![e] + v.drop_first() =~= v);
    }
}

/// Codec round trip for keys: decoding an encoded key, with a boundary
/// index its record tags agree with, reproduces the key exactly.
pub proof fn lemma_key_roundtrip(k: Seq<Seq<GroupElemView>>, cnt: int, boundary: int)
    requires
        key_consistent(k, cnt, boundary),
    ensures
        dec_key(enc_key(k), cnt, boundary) == Some(k),
    decreases k.len(),
{
    if k.len() == 0 {
        assert(enc_key(k) =~= Seq::<u8>::empty());
    } else {
        let v = k[0];
        assert(enc_key(k) =~= enc_vec(v) + enc_key(k.drop_first()));
        lemma_dec_vec_of_enc(v, enc_key(k.drop_first()), cnt, boundary);
        lemma_key_roundtrip(k.drop_first(), cnt + v.len(), boundary);
        assert(seq![v] + k.drop_first() =~= k);
    }
}

/// Codec round trip for flat record sequences: decoding an encoded
/// proof body reproduces its points exactly.
pub proof fn lemma_flat_roundtrip(v: Seq<GroupElemView>, cnt: int, boundary: int)
    requires
        flat_consistent(v, cnt, boundary),
    ensures
        dec_flat(enc_flat(v), cnt, boundary) == Some(v),
    decreases v.len(),
{
    if v.len() == 0 {
        assert(enc_flat(v) =~= Seq::<u8>::empty());
    } else {
        let e = v[0];
        assert(elem_wf(e) && ((e is Two) <==> (cnt >= boundary)));
        assert(enc_flat(v) =~= enc_point(e) + enc_flat(v.drop_first()));
        lemma_dec_record_of_enc(e, enc_flat(v.drop_first()), cnt >= boundary);
        assert(enc_flat(v).len() > 0) by {
            match e {
                GroupElemView::One(_) => {},
                GroupElemView::Two(_) => {},
            }
        }
        let t = enc_point(e).len() as int;
        assert(enc_flat(v).subrange(t, enc_flat(v).len() as int) =~= enc_flat(v.drop_first()));
        assert forall|i: int| 0 <= i < v.drop_first().len() implies elem_wf(
            #[trigger] v.drop_first()[i],
        ) && ((v.drop_first()[i] is Two) <==> (cnt + 1 + i >= boundary)) by {
            assert(v.drop_first()[i] == v[i + 1]);
            assert(elem_wf(v[i + 1]) && ((v[i + 1] is Two) <==> (cnt + (i + 1) >= boundary)));
        }
        lemma_flat_roundtrip(v.drop_first(), cnt + 1, boundary);
        assert(seq![e] + v.drop_first() =~= v);
    }
}

/// The views of a vector of tagged points, in order.
pub open spec fn gev_views(v: Seq<GroupElem>) -> Seq<GroupElemView> {
    Seq::new(v.len(), |i: int| v[i]@)
}

/// The views of a key's vectors, in order.
pub open spec fn key_views(k: Seq<Vec<GroupElem>>) -> Seq<Seq<GroupElemView>> {
    Seq::new(k.len(), |i: int| gev_views(k[i]@))
}

/// Appending one record to an encoded flat sequence.
proof fn lemma_enc_flat_snoc(v: Seq<GroupElemView>, e: GroupElemView)
    ensures
        enc_flat(v.push(e)) == enc_flat(v) + enc_point(e),
    decreases v.len(),
{
    if v.len() == 0 {
        let w = v.push(e);
        assert(w[0] == e);
        assert(w.drop_first() =~= v);
        assert(enc_flat(v) =~= Seq::<u8>::empty());
        assert(enc_flat(w) == enc_point(w[0]) + enc_flat(w.drop_first()));
        assert(enc_flat(w) =~= enc_point(e));
        assert(enc_flat(v) + enc_point(e) =~= enc_point(e));
    } else {
        assert(v.push(e)[0] == v[0]);
        assert(v.push(e).drop_first() =~= v.drop_first().push(e));
        lemma_enc_flat_snoc(v.drop_first(), e);
        assert(enc_flat(v.push(e)) =~= enc_flat(v) + enc_point(e));
    }
}

/// An encoded vector is its encoded records followed by the delimiter.
proof fn lemma_enc_vec_flat(v: Seq<GroupElemView>)
    ensures
        enc_vec(v) == enc_flat(v) + seq![0u8],
    decreases v.len(),
{
    if v.len() == 0 {
        assert(enc_vec(v) =~= enc_flat(v) + seq![0u8]);
    } else {
        lemma_enc_vec_flat(v.drop_first());
        assert(enc_vec(v) =~= enc_flat(v) + seq![0u8]);
    }
}

/// Appending one vector to an encoded key.
proof fn lemma_enc_key_snoc(k: Seq<Seq<GroupElemView>>, v: Seq<GroupElemView>)
    ensures
        enc_key(k.push(v)) == enc_key(k) + enc_vec(v),
    decreases k.len(),
{
    if k.len() == 0 {
        assert(k.push(v)[0] == v);
        assert(k.push(v).drop_first() =~= k);
        assert(enc_key(k.push(v)) =~= enc_vec(v));
        assert(enc_key(k) + enc_vec(v) =~= enc_vec(v));
    } else {
        assert(k.push(v)[0] == k[0]);
        assert(k.push(v).drop_first() =~= k.drop_first().push(v));
        lemma_enc_key_snoc(k.drop_first(), v);
        assert(enc_key(k.push(v)) =~= enc_key(k) + enc_vec(v));
    }
}

/// A copy of the bytes in positions `a..b`.
fn bytes_slice(s: &Vec<u8>, a: usize, b: usize) -> (r: Vec<u8>)
    requires
        a <= b <= s@.len(),
    ensures
        r@ == s@.subrange(a as int, b as int),
{
    let mut r: Vec<u8> = Vec::new();
    let mut i: usize = a;
    while i < b
        invariant
            a <= i <= b <= s@.len(),
            r@ =~= s@.subrange(a as int, i as int),
        decreases b - i,
    {
        r.push(s[i]);
        proof {
            assert(r@ =~= s@.subrange(a as int, i as int + 1));
        }
        i += 1;
    }
    proof {
        assert(r@ =~= s@.subrange(a as int, b as int));
    }
    r
}

/// Appends one coordinate behind its length prefix.
fn push_coord(out: &mut Vec<u8>, b: &Vec<u8>, from: usize, to: usize, lenbyte: u8)
    requires
        from <= to <= b@.len(),
    ensures
        final(out)@ == old(out)@ + seq![lenbyte] + b@.subrange(from as int, to as int),
{
    out.push(lenbyte);
    let mut i: usize = from;
    while i < to
        invariant
            from <= i <= to <= b@.len(),
            out@ =~= old(out)@ + seq![lenbyte] + b@.subrange(from as int, i as int),
        decreases to - i,
    {
        out.push(b[i]);
        proof {
            assert(out@ =~= old(out)@ + seq![lenbyte] + b@.subrange(from as int, i as int + 1));
        }
        i += 1;
    }
}

/// Appends the record of one point.
fn encode_elem(out: &mut Vec<u8>, e: &GroupElem)
    ensures
        final(out)@ == old(out)@ + enc_point(e@),
{
    match e {
        GroupElem::One(p) => {
            let b = p.to_bytes();
            push_coord(out, &b, 0, 32, 32);
            push_coord(out, &b, 32, 64, 32);
            push_coord(out, &b, 64, 96, 32);
            proof {
                assert(out@ =~= old(out)@ + enc_point(e@));
            }
        },
        GroupElem::Two(p) => {
            let b = p.to_bytes();
            push_coord(out, &b, 0, 64, 64);
            push_coord(out, &b, 64, 128, 64);
            push_coord(out, &b, 128, 192, 64);
            proof {
                assert(out@ =~= old(out)@ + enc_point(e@));
            }
        },
    }
}

/// Encodes a whole key: every vector's records in order, each vector
/// closed by the zero delimiter.
#[verifier::loop_isolation(false)]
pub fn encode_key(key: &Vec<Vec<GroupElem>>) -> (r: Vec<u8>)
    ensures
        r@ == enc_key(key_views(key@)),
{
    let mut out: Vec<u8> = Vec::new();
    let mut j: usize = 0;
    proof {
        assert(key_views(key@).take(0) =~= Seq::<Seq<GroupElemView>>::empty());
        assert(out@ =~= enc_key(key_views(key@).take(0)));
    }
    while j < key.len()
        invariant
            j <= key@.len(),
            out@ == enc_key(key_views(key@).take(j as int)),
        decreases key@.len() - j,
    {
        let v = &key[j];
        let mut i: usize = 0;
        let ghost out0 = out@;
        proof {
            assert(gev_views(v@).take(0) =~= Seq::<GroupElemView>::empty());
            assert(out@ =~= out0 + enc_flat(gev_views(v@).take(0)));
        }
        while i < v.len()
            invariant
                i <= v@.len(),
                out@ == out0 + enc_flat(gev_views(v@).take(i as int)),
            decreases v@.len() - i,
        {
            encode_elem(&mut out, &v[i]);
            proof {
                let prev = gev_views(v@).take(i as int);
                assert(gev_views(v@).take(i as int + 1) =~= prev.push(v@[i as int]@));
                lemma_enc_flat_snoc(prev, v@[i as int]@);
                assert(out@ =~= out0 + enc_flat(gev_views(v@).take(i as int + 1)));
            }
            i += 1;
        }
        out.push(0u8);
        proof {
            assert(gev_views(v@).take(v@.len() as int) =~= gev_views(v@));
            lemma_enc_vec_flat(gev_views(v@));
            assert(out@ =~= out0 + enc_vec(gev_views(v@)));
            let prek = key_views(key@).take(j as int);
            assert(key_views(key@).take(j as int + 1) =~= prek.push(gev_views(v@)));
            lemma_enc_key_snoc(prek, gev_views(v@));
            assert(out@ =~= enc_key(key_views(key@).take(j as int + 1)));
        }
        j += 1;
    }
    proof {
        assert(key_views(key@).take(key@.len() as int) =~= key_views(key@));
    }
    out
}

/// Reads one record at `pos`; on success, the point and the position
/// after it.
#[verifier::loop_isolation(false)]
fn read_record(bytes: &Vec<u8>, pos: usize, is2: bool) -> (r: Result<
    (GroupElem, usize),
    CodecError,
>)
    requires
        pos <= bytes@.len(),
    ensures
        (match (r, dec_record(bytes@.skip(pos as int), is2)) {
            (Ok(pe), Some(et)) => pe.0@ == et.0 && pe.1 == pos + et.1 && pos + 3 <= pe.1
                <= bytes@.len() && ((pe.0@ is Two) == is2),
            (Err(_), None) => true,
            _ => false,
        }),
{
    let ghost s = bytes@.skip(pos as int);
    let n = bytes.len();
    let avail = n - pos;
    if avail < 1 {
        return Err(CodecError::TruncatedStream);
    }
    let l1 = bytes[pos] as usize;
    proof {
        assert(s[0] == bytes@[pos as int]);
    }
    if avail - 1 < l1 + 1 {
        proof {
            assert(s.len() < 1 + l1 + 1);
        }
        return Err(CodecError::TruncatedStream);
    }
    let x = bytes_slice(bytes, pos + 1, pos + 1 + l1);
    let l2 = bytes[pos + 1 + l1] as usize;
    proof {
        assert(x@ =~= s.subrange(1, 1 + l1 as int));
        assert(s[1 + l1 as int] == bytes@[pos + 1 + l1 as int]);
    }
    if avail - 2 - l1 < l2 + 1 {
        proof {
            assert(s.len() < 2 + l1 + l2 + 1);
        }
        return Err(CodecError::TruncatedStream);
    }
    let y = bytes_slice(bytes, pos + 2 + l1, pos + 2 + l1 + l2);
    let l3 = bytes[pos + 2 + l1 + l2] as usize;
    proof {
        assert(y@ =~= s.subrange(2 + l1 as int, 2 + l1 as int + l2 as int));
        assert(s[2 + l1 as int + l2 as int] == bytes@[pos + 2 + l1 + l2 as int]);
    }
    if avail - 3 - l1 - l2 < l3 {
        proof {
            assert(s.len() < 3 + l1 + l2 + l3);
        }
        return Err(CodecError::TruncatedStream);
    }
    let z = bytes_slice(bytes, pos + 3 + l1 + l2, pos + 3 + l1 + l2 + l3);
    proof {
        assert(z@ =~= s.subrange(
            3 + l1 as int + l2 as int,
            3 + l1 as int + l2 as int + l3 as int,
        ));
    }
    if is2 {
        match G2Elem::from_coords(&x, &y, &z) {
            Some(p) => Ok((GroupElem::Two(p), pos + 3 + l1 + l2 + l3)),
            None => Err(CodecError::InvalidPointEncoding),
        }
    } else {
        match G1Elem::from_coords(&x, &y, &z) {
            Some(p) => Ok((GroupElem::One(p), pos + 3 + l1 + l2 + l3)),
            None => Err(CodecError::InvalidPointEncoding),
        }
    }
}

/// The records already decoded, put in front of the rest of a vector's
/// decode.
pub open spec fn prepend_rec(
    done: Seq<GroupElemView>,
    r: Option<(Seq<GroupElemView>, Seq<u8>, int)>,
) -> Option<(Seq<GroupElemView>, Seq<u8>, int)> {
    match r {
        Some(vrc) => Some((done + vrc.0, vrc.1, vrc.2)),
        None => None,
    }
}

/// The vectors already decoded, put in front of the rest of a key's
/// decode.
pub open spec fn prepend_vecs(
    done: Seq<Seq<GroupElemView>>,
    r: Option<Seq<Seq<GroupElemView>>>,
) -> Option<Seq<Seq<GroupElemView>>> {
    match r {
        Some(ks) => Some(done + ks),
        None => None,
    }
}

/// Reads one vector starting at `pos`: its records up to the zero
/// delimiter, the position after the delimiter, and the new record
/// counter.
#[verifier::loop_isolation(false)]
fn decode_one_vec(bytes: &Vec<u8>, pos: usize, cnt: usize, boundary: usize) -> (r: Result<
    (Vec<GroupElem>, usize, usize),
    CodecError,
>)
    requires
        pos <= bytes@.len(),
        cnt <= pos + 1,
    ensures
        (match (r, dec_vec(bytes@.skip(pos as int), cnt as int, boundary as int)) {
            (Ok(vpc), Some(vrc)) => gev_views(vpc.0@) == vrc.0 && bytes@.skip(vpc.1 as int)
                == vrc.1 && vpc.2 == vrc.2 && pos < vpc.1 <= bytes@.len() && vpc.2 <= vpc.1 + 1
                && cnt <= vpc.2,
            (Err(_), None) => true,
            _ => false,
        }),
{
    let n = bytes.len();
    let mut cur: Vec<GroupElem> = Vec::new();
    let mut p = pos;
    let mut c = cnt;
    proof {
        assert(gev_views(cur@) =~= Seq::<GroupElemView>::empty());
        match dec_vec(bytes@.skip(p as int), c as int, boundary as int) {
            Some(vrc) => {
                assert(Seq::<GroupElemView>::empty() + vrc.0 =~= vrc.0);
            },
            None => {},
        }
    }
    loop
        invariant
            pos <= p <= n,
            c <= p + 1,
            cnt <= c,
            n == bytes@.len(),
            dec_vec(bytes@.skip(pos as int), cnt as int, boundary as int) == prepend_rec(
                gev_views(cur@),
                dec_vec(bytes@.skip(p as int), c as int, boundary as int),
            ),
        decreases n - p,
    {
        let ghost s = bytes@.skip(p as int);
        if p >= n {
            proof {
                assert(s.len() == 0);
            }
            return Err(CodecError::TruncatedStream);
        }
        proof {
            assert(s[0] == bytes@[p as int]);
        }
        if bytes[p] == 0 {
            proof {
                assert(s.drop_first() =~= bytes@.skip(p as int + 1));
            }
            return Ok((cur, p + 1, c));
        }
        match read_record(bytes, p, c >= boundary) {
            Err(e) => {
                return Err(e);
            },
            Ok((elem, p2)) => {
                let ghost old_cur = gev_views(cur@);
                let ghost et = dec_record(s, c as int >= boundary as int).unwrap();
                cur.push(elem);
                proof {
                    assert(gev_views(cur@) =~= old_cur.push(et.0));
                    assert(bytes@.skip(p2 as int) =~= s.subrange(et.1, s.len() as int));
                    match dec_vec(
                        s.subrange(et.1, s.len() as int),
                        c as int + 1,
                        boundary as int,
                    ) {
                        Some(vrc) => {
                            assert(old_cur + (seq![et.0] + vrc.0) =~= old_cur.push(et.0) + vrc.0);
                        },
                        None => {},
                    }
                }
                p = p2;
                c = c + 1;
            },
        }
    }
}

/// Decodes a whole key from its byte stream, reading records before
/// the 1-based `boundary` as G1 points and the rest as G2 points.
#[verifier::loop_isolation(false)]
pub fn decode_key(bytes: &Vec<u8>, boundary: usize) -> (r: Result<Vec<Vec<GroupElem>>, CodecError>)
    ensures
        (r is Err) <==> (dec_key(bytes@, 1, boundary as int) is None),
        r matches Ok(k) ==> dec_key(bytes@, 1, boundary as int) == Some(key_views(k@)),
{
    let n = bytes.len();
    let mut out: Vec<Vec<GroupElem>> = Vec::new();
    let mut p: usize = 0;
    let mut c: usize = 1;
    proof {
        assert(bytes@.skip(0) =~= bytes@);
        assert(key_views(out@) =~= Seq::<Seq<GroupElemView>>::empty());
        match dec_key(bytes@, 1, boundary as int) {
            Some(ks) => {
                assert(Seq::<Seq<GroupElemView>>::empty() + ks =~= ks);
            },
            None => {},
        }
    }
    while p < n
        invariant
            p <= n,
            c <= p + 1,
            n == bytes@.len(),
            dec_key(bytes@, 1, boundary as int) == prepend_vecs(
                key_views(out@),
                dec_key(bytes@.skip(p as int), c as int, boundary as int),
            ),
        decreases n - p,
    {
        match decode_one_vec(bytes, p, c, boundary) {
            Err(e) => {
                proof {
                    assert(bytes@.skip(p as int).len() > 0);
                }
                return Err(e);
            },
            Ok((v, p2, c2)) => {
                let ghost old_out = key_views(out@);
                let ghost vrc = dec_vec(
                    bytes@.skip(p as int),
                    c as int,
                    boundary as int,
                ).unwrap();
                out.push(v);
                proof {
                    assert(key_views(out@) =~= old_out.push(vrc.0));
                    match dec_key(bytes@.skip(p2 as int), c2 as int, boundary as int) {
                        Some(ks) => {
                            assert(old_out + (seq![vrc.0] + ks) =~= old_out.push(vrc.0) + ks);
                        },
                        None => {},
                    }
                    assert(bytes@.skip(p as int).len() > 0);
                }
                p = p2;
                c = c2;
            },
        }
    }
    proof {
        assert(bytes@.skip(n as int) =~= Seq::<u8>::empty());
        match dec_key(bytes@, 1, boundary as int) {
            Some(ks) => {
                assert(key_views(out@) + Seq::<Seq<GroupElemView>>::empty() =~= key_views(out@));
            },
            None => {},
        }
    }
    Ok(out)
}

/// The text that base64 encoding produces for a byte string.
pub uninterp spec fn b64_of(b: Seq<u8>) -> Seq<char>;

/// What base64 decoding yields on a text: the bytes, or nothing on a
/// malformed token.
pub uninterp spec fn b64_dec_of(s: Seq<char>) -> Option<Seq<u8>>;

/// Relies on the `base64` crate's standard alphabet engine: encoding is
/// a function of the bytes alone, and decoding the produced text gives
/// the bytes back.
#[verifier::external_body]
fn b64_encode(b: &Vec<u8>) -> (r: String)
    ensures
        r@ == b64_of(b@),
        b64_dec_of(r@) == Some(b@),
{
    base64::engine::general_purpose::STANDARD.encode(&b[..])
}

/// Relies on the `base64` crate's standard alphabet engine: decoding is
/// a function of the text alone and fails exactly on malformed tokens.
#[verifier::external_body]
fn b64_decode(s: &str) -> (r: Option<Vec<u8>>)
    ensures
        (match (r, b64_dec_of(s@)) {
            (Some(v), Some(b)) => v@ == b,
            (None, None) => true,
            _ => false,
        }),
{
    match base64::engine::general_purpose::STANDARD.decode(s) {
        Ok(v) => Some(v),
        Err(_) => None,
    }
}

/// A proof: nine group elements, six in G1 and three in G2, in the
/// fixed transport order.
#[derive(Debug)]
pub struct Proof {
    /// The encrypted left evaluation `g_l^{L(s)}`.
    pub g_lop: G1Elem,
    /// The encrypted right evaluation `g_r^{R(s)}` in G1.
    pub g_rop: G1Elem,
    /// The encrypted output evaluation `g_o^{O(s)}`.
    pub g_oop: G1Elem,
    /// The knowledge-shifted left evaluation.
    pub g_lop_shift: G1Elem,
    /// The knowledge-shifted output evaluation.
    pub g_oop_shift: G1Elem,
    /// The variable-consistency element.
    pub g_z: G1Elem,
    /// The encrypted right evaluation in G2.
    pub g2_rop: G2Elem,
    /// The knowledge-shifted right evaluation in G2.
    pub g2_rop_shift: G2Elem,
    /// The commitment to the quotient polynomial in G2.
    pub g2_h: G2Elem,
}

/// The encodings of a proof's nine elements.
pub struct ProofView {
    pub lop: Seq<u8>,
    pub rop: Seq<u8>,
    pub oop: Seq<u8>,
    pub lop_shift: Seq<u8>,
    pub oop_shift: Seq<u8>,
    pub z: Seq<u8>,
    pub rop2: Seq<u8>,
    pub rop2_shift: Seq<u8>,
    pub h: Seq<u8>,
}

impl View for Proof {
    type V = ProofView;

    open spec fn view(&self) -> ProofView {
        ProofView {
            lop: self.g_lop@,
            rop: self.g_rop@,
            oop: self.g_oop@,
            lop_shift: self.g_lop_shift@,
            oop_shift: self.g_oop_shift@,
            z: self.g_z@,
            rop2: self.g2_rop@,
            rop2_shift: self.g2_rop_shift@,
            h: self.g2_h@,
        }
    }
}

/// The transport order of a proof's records: the six G1 elements, then
/// the three G2 elements.
pub open spec fn proof_records(p: ProofView) -> Seq<GroupElemView> {
    seq![
        GroupElemView::One(p.lop),
        GroupElemView::One(p.rop),
        GroupElemView::One(p.oop),
        GroupElemView::One(p.lop_shift),
        GroupElemView::One(p.oop_shift),
        GroupElemView::One(p.z),
        GroupElemView::Two(p.rop2),
        GroupElemView::Two(p.rop2_shift),
        GroupElemView::Two(p.h),
    ]
}

/// The boundary index of a proof: the seventh record is the first G2
/// element.
pub open spec fn proof_boundary() -> int {
    7
}

/// What parsing a proof token yields: base64 decoding, then the flat
/// record decode, then the arity check.
pub open spec fn spec_parse_proof(s: Seq<char>) -> Option<ProofView> {
    match b64_dec_of(s) {
        None => None,
        Some(b) => match dec_flat(b, 1, proof_boundary()) {
            None => None,
            Some(v) => if v.len() == 9 {
                Some(
                    ProofView {
                        lop: gev_bytes(v[0]),
                        rop: gev_bytes(v[1]),
                        oop: gev_bytes(v[2]),
                        lop_shift: gev_bytes(v[3]),
                        oop_shift: gev_bytes(v[4]),
                        z: gev_bytes(v[5]),
                        rop2: gev_bytes(v[6]),
                        rop2_shift: gev_bytes(v[7]),
                        h: gev_bytes(v[8]),
                    },
                )
            } else {
                None
            },
        },
    }
}

/// The encoding a tagged point carries.
pub open spec fn gev_bytes(e: GroupElemView) -> Seq<u8> {
    match e {
        GroupElemView::One(b) => b,
        GroupElemView::Two(b) => b,
    }
}

/// The group tags of a decoded flat sequence follow the record counter
/// and the boundary.
pub proof fn lemma_dec_flat_tags(b: Seq<u8>, cnt: int, boundary: int)
    ensures
        dec_flat(b, cnt, boundary) matches Some(v) ==> forall|i: int|
            0 <= i < v.len() ==> ((#[trigger] v[i] is Two) <==> (cnt + i >= boundary)),
    decreases b.len(),
{
    if b.len() == 0 {
    } else {
        match dec_record(b, cnt >= boundary) {
            None => {},
            Some(pc) => {
                lemma_dec_record_consumed(b, cnt >= boundary);
                lemma_dec_flat_tags(b.subrange(pc.1, b.len() as int), cnt + 1, boundary);
                match dec_flat(b.subrange(pc.1, b.len() as int), cnt + 1, boundary) {
                    None => {},
                    Some(rest) => {
                        let v = seq![pc.0] + rest;
                        assert forall|i: int| 0 <= i < v.len() implies ((#[trigger] v[i]
                            is Two) <==> (cnt + i >= boundary)) by {
                            if i == 0 {
                                assert(v[0] == pc.0);
                            } else {
                                assert(v[i] == rest[i - 1]);
                            }
                        }
                    },
                }
            },
        }
    }
}

/// Appends the record of one G1 point.
fn encode_g1_into(out: &mut Vec<u8>, p: &G1Elem)
    ensures
        final(out)@ == old(out)@ + enc_point(GroupElemView::One(p@)),
{
    let b = p.to_bytes();
    push_coord(out, &b, 0, 32, 32);
    push_coord(out, &b, 32, 64, 32);
    push_coord(out, &b, 64, 96, 32);
    proof {
        assert(out@ =~= old(out)@ + enc_point(GroupElemView::One(p@)));
    }
}

/// Appends the record of one G2 point.
fn encode_g2_into(out: &mut Vec<u8>, p: &G2Elem)
    ensures
        final(out)@ == old(out)@ + enc_point(GroupElemView::Two(p@)),
{
    let b = p.to_bytes();
    push_coord(out, &b, 0, 64, 64);
    push_coord(out, &b, 64, 128, 64);
    push_coord(out, &b, 128, 192, 64);
    proof {
        assert(out@ =~= old(out)@ + enc_point(GroupElemView::Two(p@)));
    }
}

/// Serializes a proof's nine elements and base64-encodes the result
/// into a single transport token.
pub fn generate_proof_string(proof: &Proof) -> (r: String)
    ensures
        r@ == b64_of(enc_flat(proof_records(proof@))),
        b64_dec_of(r@) == Some(enc_flat(proof_records(proof@))),
{
    let mut out: Vec<u8> = Vec::new();
    encode_g1_into(&mut out, &proof.g_lop);
    encode_g1_into(&mut out, &proof.g_rop);
    encode_g1_into(&mut out, &proof.g_oop);
    encode_g1_into(&mut out, &proof.g_lop_shift);
    encode_g1_into(&mut out, &proof.g_oop_shift);
    encode_g1_into(&mut out, &proof.g_z);
    encode_g2_into(&mut out, &proof.g2_rop);
    encode_g2_into(&mut out, &proof.g2_rop_shift);
    encode_g2_into(&mut out, &proof.g2_h);
    proof {
        let recs = proof_records(proof@);
        assert(enc_flat(recs.skip(8)) =~= enc_point(recs[8]) + enc_flat(recs.skip(9))) by {
            assert(recs.skip(8)[0] == recs[8]);
            assert(recs.skip(8).drop_first() =~= recs.skip(9));
        }
        assert(enc_flat(recs.skip(9)) =~= Seq::<u8>::empty()) by {
            assert(recs.skip(9).len() == 0);
        }
        assert(enc_flat(recs.skip(7)) =~= enc_point(recs[7]) + enc_flat(recs.skip(8))) by {
            assert(recs.skip(7)[0] == recs[7]);
            assert(recs.skip(7).drop_first() =~= recs.skip(8));
        }
        assert(enc_flat(recs.skip(6)) =~= enc_point(recs[6]) + enc_flat(recs.skip(7))) by {
            assert(recs.skip(6)[0] == recs[6]);
            assert(recs.skip(6).drop_first() =~= recs.skip(7));
        }
        assert(enc_flat(recs.skip(5)) =~= enc_point(recs[5]) + enc_flat(recs.skip(6))) by {
            assert(recs.skip(5)[0] == recs[5]);
            assert(recs.skip(5).drop_first() =~= recs.skip(6));
        }
        assert(enc_flat(recs.skip(4)) =~= enc_point(recs[4]) + enc_flat(recs.skip(5))) by {
            assert(recs.skip(4)[0] == recs[4]);
            assert(recs.skip(4).drop_first() =~= recs.skip(5));
        }
        assert(enc_flat(recs.skip(3)) =~= enc_point(recs[3]) + enc_flat(recs.skip(4))) by {
            assert(recs.skip(3)[0] == recs[3]);
            assert(recs.skip(3).drop_first() =~= recs.skip(4));
        }
        assert(enc_flat(recs.skip(2)) =~= enc_point(recs[2]) + enc_flat(recs.skip(3))) by {
            assert(recs.skip(2)[0] == recs[2]);
            assert(recs.skip(2).drop_first() =~= recs.skip(3));
        }
        assert(enc_flat(recs.skip(1)) =~= enc_point(recs[1]) + enc_flat(recs.skip(2))) by {
            assert(recs.skip(1)[0] == recs[1]);
            assert(recs.skip(1).drop_first() =~= recs.skip(2));
        }
        assert(enc_flat(recs) =~= enc_point(recs[0]) + enc_flat(recs.skip(1))) by {
            assert(recs.skip(0) =~= recs);
            assert(recs[0] == recs.skip(0)[0]);
            assert(recs.drop_first() =~= recs.skip(1));
        }
        assert(out@ =~= enc_flat(recs));
    }
    b64_encode(&out)
}

/// Decodes a flat record stream to its end.
#[verifier::loop_isolation(false)]
fn decode_flat_records(bytes: &Vec<u8>, boundary: usize) -> (r: Result<Vec<GroupElem>, CodecError>)
    ensures
        (r is Err) <==> (dec_flat(bytes@, 1, boundary as int) is None),
        r matches Ok(v) ==> dec_flat(bytes@, 1, boundary as int) == Some(gev_views(v@)),
{
    let n = bytes.len();
    let mut out: Vec<GroupElem> = Vec::new();
    let mut p: usize = 0;
    let mut c: usize = 1;
    proof {
        assert(bytes@.skip(0) =~= bytes@);
        match dec_flat(bytes@, 1, boundary as int) {
            Some(v) => {
                assert(Seq::<GroupElemView>::empty() + v =~= v);
            },
            None => {},
        }
    }
    while p < n
        invariant
            p <= n,
            c <= p + 1,
            n == bytes@.len(),
            (match dec_flat(bytes@.skip(p as int), c as int, boundary as int) {
                Some(v) => dec_flat(bytes@, 1, boundary as int) == Some(gev_views(out@) + v),
                None => dec_flat(bytes@, 1, boundary as int) is None,
            }),
        decreases n - p,
    {
        let ghost s = bytes@.skip(p as int);
        proof {
            assert(s.len() > 0);
        }
        match read_record(bytes, p, c >= boundary) {
            Err(e) => {
                return Err(e);
            },
            Ok((elem, p2)) => {
                let ghost old_out = gev_views(out@);
                let ghost et = dec_record(s, c as int >= boundary as int).unwrap();
                out.push(elem);
                proof {
                    assert(gev_views(out@) =~= old_out.push(et.0));
                    assert(bytes@.skip(p2 as int) =~= s.subrange(et.1, s.len() as int));
                    match dec_flat(s.subrange(et.1, s.len() as int), c as int + 1, boundary as int) {
                        Some(v) => {
                            assert(old_out + (seq![et.0] + v) =~= old_out.push(et.0) + v);
                        },
                        None => {},
                    }
                }
                p = p2;
                c = c + 1;
            },
        }
    }
    proof {
        assert(bytes@.skip(n as int) =~= Seq::<u8>::empty());
        assert(gev_views(out@) + Seq::<GroupElemView>::empty() =~= gev_views(out@));
    }
    Ok(out)
}

/// Parses a base64 proof token into its nine group elements. Fails on
/// a malformed token, a malformed record, or the wrong element count,
/// never by crashing.
pub fn parse_proof(proof_str: &str) -> (r: Result<Proof, CodecError>)
    ensures
        (r is Ok) <==> (spec_parse_proof(proof_str@) is Some),
        r matches Ok(p) ==> spec_parse_proof(proof_str@) == Some(p@),
{
    let bytes = match b64_decode(proof_str) {
        None => {
            return Err(CodecError::InvalidPointEncoding);
        },
        Some(b) => b,
    };
    let recs = match decode_flat_records(&bytes, 7) {
        Err(e) => {
            return Err(e);
        },
        Ok(v) => v,
    };
    if recs.len() != 9 {
        return Err(CodecError::InvalidPointEncoding);
    }
    proof {
        lemma_dec_flat_tags(bytes@, 1, proof_boundary());
    }
    let mut it = recs;
    let r8 = it.pop().unwrap();
    let r7 = it.pop().unwrap();
    let r6 = it.pop().unwrap();
    let r5 = it.pop().unwrap();
    let r4 = it.pop().unwrap();
    let r3 = it.pop().unwrap();
    let r2 = it.pop().unwrap();
    let r1 = it.pop().unwrap();
    let r0 = it.pop().unwrap();
    let g_lop = take_g1(r0);
    let g_rop = take_g1(r1);
    let g_oop = take_g1(r2);
    let g_lop_shift = take_g1(r3);
    let g_oop_shift = take_g1(r4);
    let g_z = take_g1(r5);
    let g2_rop = take_g2(r6);
    let g2_rop_shift = take_g2(r7);
    let g2_h = take_g2(r8);
    let p = Proof {
        g_lop,
        g_rop,
        g_oop,
        g_lop_shift,
        g_oop_shift,
        g_z,
        g2_rop,
        g2_rop_shift,
        g2_h,
    };
    Ok(p)
}

/// The G1 point of a record known to carry one.
fn take_g1(e: GroupElem) -> (r: G1Elem)
    requires
        !(e@ is Two),
    ensures
        e@ == GroupElemView::One(r@),
{
    match e {
        GroupElem::One(p) => p,
        GroupElem::Two(_) => {
            proof {
                assert(false);
            }
            vstd::pervasive::unreached()
        },
    }
}

/// The G2 point of a record known to carry one.
fn take_g2(e: GroupElem) -> (r: G2Elem)
    requires
        e@ is Two,
    ensures
        e@ == GroupElemView::Two(r@),
{
    match e {
        GroupElem::Two(p) => p,
        GroupElem::One(_) => {
            proof {
                assert(false);
            }
            vstd::pervasive::unreached()
        },
    }
}

/// Round trip for proofs: a token that base64-decodes to the encoded
/// records of a proof parses back to exactly those nine elements.
/// `generate_proof_string` produces such a token for its input.
pub proof fn lemma_proof_roundtrip(p: ProofView, t: Seq<char>)
    requires
        g1_wf(p.lop),
        g1_wf(p.rop),
        g1_wf(p.oop),
        g1_wf(p.lop_shift),
        g1_wf(p.oop_shift),
        g1_wf(p.z),
        g2_wf(p.rop2),
        g2_wf(p.rop2_shift),
        g2_wf(p.h),
        b64_dec_of(t) == Some(enc_flat(proof_records(p))),
    ensures
        spec_parse_proof(t) == Some(p),
{
    let recs = proof_records(p);
    assert(flat_consistent(recs, 1, proof_boundary())) by {
        assert forall|i: int| 0 <= i < recs.len() implies elem_wf(#[trigger] recs[i]) && ((
        recs[i] is Two) <==> (1 + i >= proof_boundary())) by {
            assert(recs.len() == 9);
        }
    }
    lemma_flat_roundtrip(recs, 1, proof_boundary());
}

} // verus!
