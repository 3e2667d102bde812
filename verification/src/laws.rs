//! The laws of the protocol: what encoding guarantees to decoding.
//!
//! The central result is that reconstructing from a binary image succeeds,
//! consumes exactly the image, yields a value equal (under the protocol's
//! equality) to the one encoded, normalizes every capacity word, touches no
//! byte outside the image, and leaves a buffer that validation accepts with
//! the very same value. Truncation safety and sequencing follow.

use vstd::prelude::*;
use crate::layout::{Ty, head_size, splice};
use crate::value::{Val, wf, neutral, equiv, normalized};
use crate::image::{head_bytes, tail_bytes, heads_of, tails_of, image, lemma_head_bytes_len, lemma_neutral_head_len};
use vstd::bytes::{spec_u64_to_le_bytes, spec_u64_from_le_bytes};
use crate::codec::{exhumed, exhumed_seq, validated, validated_seq, patched_words, patched_pair, lemma_exhumed_bounds, lemma_exhumed_seq_bounds, lemma_validated_bounds, lemma_validated_seq_bounds};

verus! {

broadcast use vstd::std_specs::vec::group_vec_axioms;

/// Validation reads nothing outside the header region and the bytes it
/// consumes, so it gives the same verdict on any buffer that agrees there.
pub proof fn lemma_validated_frame(
    t: Ty,
    b1: Seq<u8>,
    b2: Seq<u8>,
    hpos: int,
    pos: int,
    w: Val,
    p: int,
)
    requires
        0 <= hpos,
        hpos + head_size(t) <= pos,
        pos <= b1.len(),
        b1.len() == b2.len(),
        validated(t, b1, hpos, pos) == Some((w, p)),
        forall|j: int| hpos <= j < hpos + head_size(t) ==> b2[j] == b1[j],
        forall|j: int| pos <= j < p ==> b2[j] == b1[j],
    ensures
        validated(t, b2, hpos, pos) == Some((w, p)),
    decreases t, 0nat, 0nat,
{
    lemma_validated_bounds(t, b1, hpos, pos);
    match t {
        Ty::U8 | Ty::I8 | Ty::Bool => {
            assert(b2[hpos] == b1[hpos]);
        },
        Ty::U16 | Ty::I16 => {
            assert(b2.subrange(hpos, hpos + 2) =~= b1.subrange(hpos, hpos + 2));
        },
        Ty::U32 | Ty::I32 => {
            assert(b2.subrange(hpos, hpos + 4) =~= b1.subrange(hpos, hpos + 4));
        },
        Ty::U64 | Ty::I64 => {
            assert(b2.subrange(hpos, hpos + 8) =~= b1.subrange(hpos, hpos + 8));
        },
        Ty::Unit => {},
        Ty::Pair(ta, tb) => {
            if let Some((x, p1)) = validated(*ta, b1, hpos, pos) {
                lemma_validated_bounds(*ta, b1, hpos, pos);
                lemma_validated_bounds(*tb, b1, hpos + head_size(*ta), p1);
                lemma_validated_frame(*ta, b1, b2, hpos, pos, x, p1);
                if let Some((y, p2)) = validated(*tb, b1, hpos + head_size(*ta), p1) {
                    lemma_validated_frame(*tb, b1, b2, hpos + head_size(*ta), p1, y, p2);
                }
            }
        },
        Ty::Opt(te) => {
            assert(b2[hpos] == b1[hpos]);
            if b1[hpos] != 0 {
                if let Some((x, p1)) = validated(*te, b1, hpos + 1, pos) {
                    lemma_validated_frame(*te, b1, b2, hpos + 1, pos, x, p1);
                }
            }
        },
        Ty::Arr(te) => {
            assert(b2.subrange(hpos, hpos + 8) =~= b1.subrange(hpos, hpos + 8));
            assert(b2.subrange(hpos + 8, hpos + 16) =~= b1.subrange(hpos + 8, hpos + 16));
            assert(b2.subrange(hpos + 16, hpos + 24) =~= b1.subrange(hpos + 16, hpos + 24));
            let len = vstd::bytes::spec_u64_from_le_bytes(b1.subrange(hpos + 8, hpos + 16)) as int;
            let need = len * head_size(*te);
            let ad = vstd::bytes::spec_u64_from_le_bytes(b1.subrange(hpos, hpos + 8));
            if !(pos + need > b1.len() || ad != pos || (head_size(*te) == 0 && len > usize::MAX)) {
                assert(need >= 0) by (nonlinear_arith)
                    requires len >= 0, need == len * head_size(*te), head_size(*te) >= 0,
                ;
                if let Some((ws, p1)) = validated_seq(*te, b1, pos, 0, len, pos + need) {
                    lemma_validated_seq_bounds(*te, b1, pos, 0, len, pos + need);
                    lemma_validated_seq_frame(*te, b1, b2, pos, 0, len, pos + need, ws, p1);
                }
            }
        },
        Ty::Text => {
            assert(b2.subrange(hpos, hpos + 8) =~= b1.subrange(hpos, hpos + 8));
            assert(b2.subrange(hpos + 8, hpos + 16) =~= b1.subrange(hpos + 8, hpos + 16));
            assert(b2.subrange(hpos + 16, hpos + 24) =~= b1.subrange(hpos + 16, hpos + 24));
            let len = vstd::bytes::spec_u64_from_le_bytes(b1.subrange(hpos + 8, hpos + 16)) as int;
            let ad = vstd::bytes::spec_u64_from_le_bytes(b1.subrange(hpos, hpos + 8));
            if !(pos + len > b1.len() || ad != pos) {
                assert(b2.subrange(pos, pos + len) =~= b1.subrange(pos, pos + len));
            }
        },
        Ty::Slice(te) => {
            assert(b2.subrange(hpos, hpos + 8) =~= b1.subrange(hpos, hpos + 8));
            assert(b2.subrange(hpos + 8, hpos + 16) =~= b1.subrange(hpos + 8, hpos + 16));
            let len = vstd::bytes::spec_u64_from_le_bytes(b1.subrange(hpos + 8, hpos + 16)) as int;
            let need = len * head_size(*te);
            let ad = vstd::bytes::spec_u64_from_le_bytes(b1.subrange(hpos, hpos + 8));
            if !(pos + need > b1.len() || ad != pos || (head_size(*te) == 0 && len > usize::MAX)) {
                assert(need >= 0) by (nonlinear_arith)
                    requires len >= 0, need == len * head_size(*te), head_size(*te) >= 0,
                ;
                if let Some((ws, p1)) = validated_seq(*te, b1, pos, 0, len, pos + need) {
                    lemma_validated_seq_bounds(*te, b1, pos, 0, len, pos + need);
                    lemma_validated_seq_frame(*te, b1, b2, pos, 0, len, pos + need, ws, p1);
                }
            }
        },
        Ty::Boxed(te) => {
            assert(b2.subrange(hpos, hpos + 8) =~= b1.subrange(hpos, hpos + 8));
            let need = head_size(*te);
            let ad = vstd::bytes::spec_u64_from_le_bytes(b1.subrange(hpos, hpos + 8));
            if !(pos + need > b1.len() || ad != pos) {
                lemma_validated_bounds(*te, b1, pos, pos + need);
                if let Some((x, p1)) = validated(*te, b1, pos, pos + need) {
                    lemma_validated_frame(*te, b1, b2, pos, pos + need, x, p1);
                }
            }
        },
    }
}

/// Element validation likewise reads only the element headers and the
/// bytes it consumes.
pub proof fn lemma_validated_seq_frame(
    t: Ty,
    b1: Seq<u8>,
    b2: Seq<u8>,
    hbase: int,
    i: int,
    n: int,
    pos: int,
    ws: Seq<Val>,
    p: int,
)
    requires
        0 <= hbase,
        0 <= i,
        hbase + n * head_size(t) <= pos,
        pos <= b1.len(),
        b1.len() == b2.len(),
        validated_seq(t, b1, hbase, i, n, pos) == Some((ws, p)),
        forall|j: int|
            hbase + i * head_size(t) <= j < hbase + n * head_size(t) ==> b2[j] == b1[j],
        forall|j: int| pos <= j < p ==> b2[j] == b1[j],
    ensures
        validated_seq(t, b2, hbase, i, n, pos) == Some((ws, p)),
    decreases t, 1nat, n - i,
{
    if i >= n {
    } else {
        let hs = head_size(t) as int;
        assert(hbase + i * hs + hs <= hbase + n * hs && hbase + i * hs >= hbase + i * hs)
            by (nonlinear_arith)
            requires 0 <= i, i < n, hs >= 0,
        ;
        assert(hbase + i * hs >= 0) by (nonlinear_arith)
            requires hbase >= 0, i >= 0, hs >= 0,
        ;
        lemma_validated_bounds(t, b1, hbase + i * hs, pos);
        if let Some((w, p1)) = validated(t, b1, hbase + i * hs, pos) {
            lemma_validated_seq_bounds(t, b1, hbase, i + 1, n, p1);
            assert(forall|j: int| hbase + i * hs <= j < hbase + i * hs + hs ==> b2[j] == b1[j]);
            lemma_validated_frame(t, b1, b2, hbase + i * hs, pos, w, p1);
            if let Some((ws1, p2)) = validated_seq(t, b1, hbase, i + 1, n, p1) {
                assert((i + 1) * hs == i * hs + hs) by (nonlinear_arith);
                lemma_validated_seq_frame(t, b1, b2, hbase, i + 1, n, p1, ws1, p2);
            }
        }
    }
}

/// A region that holds a concatenation holds each part in place.
pub proof fn lemma_region_split(b: Seq<u8>, off: int, s1: Seq<u8>, s2: Seq<u8>)
    requires
        0 <= off,
        off + s1.len() + s2.len() <= b.len(),
        b.subrange(off, off + s1.len() + s2.len()) == s1 + s2,
    ensures
        b.subrange(off, off + s1.len() as int) == s1,
        b.subrange(off + s1.len(), off + s1.len() + s2.len()) == s2,
{
    let l1 = s1.len() as int;
    let l2 = s2.len() as int;
    assert forall|m: int| 0 <= m < l1 implies b[off + m] == s1[m] by {
        assert((s1 + s2)[m] == s1[m]);
        assert(b.subrange(off, off + l1 + l2)[m] == b[off + m]);
    }
    assert forall|m: int| 0 <= m < l2 implies b[off + l1 + m] == s2[m] by {
        assert((s1 + s2)[l1 + m] == s2[m]);
        assert(b.subrange(off, off + l1 + l2)[l1 + m] == b[off + l1 + m]);
    }
    assert(b.subrange(off, off + l1) =~= s1);
    assert(b.subrange(off + l1, off + l1 + l2) =~= s2);
}

/// A region that holds a sequence holds each of its subranges in place.
pub proof fn lemma_region_part(b: Seq<u8>, off: int, s: Seq<u8>, x: int, y: int)
    requires
        0 <= off,
        off + s.len() <= b.len(),
        b.subrange(off, off + s.len() as int) == s,
        0 <= x <= y <= s.len(),
    ensures
        b.subrange(off + x, off + y) == s.subrange(x, y),
{
    assert forall|m: int| 0 <= m < s.len() implies b[off + m] == s[m] by {
        assert(b.subrange(off, off + s.len() as int)[m] == b[off + m]);
    }
    assert(b.subrange(off + x, off + y) =~= s.subrange(x, y));
}

/// Reconstruction from a binary image: it succeeds, consumes exactly the
/// image's tail, yields a well-formed value equal to the encoded one under
/// the protocol's equality, normalizes every capacity word, writes nothing
/// outside the image's header and tail regions, and leaves a buffer that
/// validation accepts with the very same value.
#[verifier::rlimit(100)]
pub proof fn lemma_exhume_image(t: Ty, v: Val, b: Seq<u8>, hpos: int, pos: int)
    requires
        wf(t, v),
        0 <= hpos,
        hpos + head_size(t) <= pos,
        pos + tail_bytes(t, v).len() <= b.len(),
        b.len() <= usize::MAX,
        b.subrange(hpos, hpos + head_size(t)) == head_bytes(t, neutral(t, v)),
        b.subrange(pos, pos + tail_bytes(t, v).len() as int) == tail_bytes(t, v),
    ensures
        exhumed(t, b, hpos, pos) matches Some(rr) && {
            let p = pos + tail_bytes(t, v).len();
            &&& rr.1 == p
            &&& wf(t, rr.0)
            &&& equiv(t, rr.0, v)
            &&& normalized(t, rr.0)
            &&& rr.2.len() == b.len()
            &&& (forall|j: int|
                0 <= j < b.len() && !(hpos <= j < hpos + head_size(t)) && !(pos <= j < p)
                    ==> rr.2[j] == b[j])
            &&& validated(t, rr.2, hpos, pos) == Some((rr.0, p))
        },
    decreases t, 0nat, 1nat,
{
    vstd::bytes::lemma_auto_spec_u16_to_from_le_bytes();
    vstd::bytes::lemma_auto_spec_u32_to_from_le_bytes();
    vstd::bytes::lemma_auto_spec_u64_to_from_le_bytes();
    lemma_head_bytes_len(t, v);
    lemma_neutral_head_len(t, v);
    let hs = head_size(t) as int;
    match t {
        Ty::U8 => {
            let x = v->U8_0;
            assert(b[hpos] == b.subrange(hpos, hpos + 1)[0]);
            assert(b[hpos] == x);
        },
        Ty::I8 => {
            let x = v->I8_0;
            assert(b[hpos] == b.subrange(hpos, hpos + 1)[0]);
            assert(b[hpos] == crate::layout::i8_bits(x));
        },
        Ty::Bool => {
            let x = v->Bool_0;
            assert(b[hpos] == b.subrange(hpos, hpos + 1)[0]);
        },
        Ty::U16 | Ty::U32 | Ty::U64 | Ty::I16 | Ty::I32 | Ty::I64 | Ty::Unit => {},
        Ty::Pair(ta, tb) => {
            let x = *v->Pair_0;
            let y = *v->Pair_1;
            let ha = head_size(*ta) as int;
            let hb = head_size(*tb) as int;
            let tx = tail_bytes(*ta, x);
            let ty = tail_bytes(*tb, y);
            lemma_neutral_head_len(*ta, x);
            lemma_neutral_head_len(*tb, y);
            lemma_region_split(b, hpos, head_bytes(*ta, neutral(*ta, x)), head_bytes(*tb, neutral(*tb, y)));
            lemma_region_split(b, pos, tx, ty);
            lemma_exhume_image(*ta, x, b, hpos, pos);
            let rra = exhumed(*ta, b, hpos, pos)->Some_0;
            let p1 = pos + tx.len();
            let b1 = rra.2;
            assert(b1.subrange(hpos + ha, hpos + ha + hb) =~= b.subrange(hpos + ha, hpos + ha + hb));
            assert(b1.subrange(p1, p1 + ty.len()) =~= b.subrange(p1, p1 + ty.len()));
            lemma_exhume_image(*tb, y, b1, hpos + ha, p1);
            let rrb = exhumed(*tb, b1, hpos + ha, p1)->Some_0;
            let p2 = p1 + ty.len();
            let b2 = rrb.2;
            lemma_validated_frame(*ta, b1, b2, hpos, pos, rra.0, p1);
            assert(validated(t, b2, hpos, pos) == Some(
                (Val::Pair(Box::new(rra.0), Box::new(rrb.0)), p2),
            ));
        },
        Ty::Opt(te) => {
            match v {
                Val::Opt(None) => {
                    assert(b[hpos] == b.subrange(hpos, hpos + hs)[0]);
                    assert(b[hpos] == 0);
                },
                Val::Opt(Some(x)) => {
                    assert(b[hpos] == b.subrange(hpos, hpos + hs)[0]);
                    assert(b[hpos] == 1);
                    lemma_neutral_head_len(*te, *x);
                    lemma_region_split(b, hpos, seq![1u8], head_bytes(*te, neutral(*te, *x)));
                    lemma_exhume_image(*te, *x, b, hpos + 1, pos);
                },
                _ => {},
            }
        },
        Ty::Arr(_) => {
            lemma_exhume_image_arr(t, v, b, hpos, pos);
        },
        Ty::Text => {
            let d = v->Text_2;
            let n = d.len() as int;
            assert(b.subrange(hpos + 8, hpos + 16) =~= head_bytes(t, neutral(t, v)).subrange(
                8,
                16,
            ));
            assert(head_bytes(t, neutral(t, v)).subrange(8, 16) =~= spec_u64_to_le_bytes(
                n as u64,
            ));
            assert(spec_u64_from_le_bytes(b.subrange(hpos + 8, hpos + 16)) == n as u64);
            assert(tail_bytes(t, v) == d);
            assert(b.subrange(pos, pos + n) =~= d);
            let b2 = splice(b, hpos, patched_words(pos, n));
            assert(b2.len() == b.len());
            assert(b2.subrange(hpos, hpos + 8) =~= spec_u64_to_le_bytes(pos as u64));
            assert(b2.subrange(hpos + 8, hpos + 16) =~= spec_u64_to_le_bytes(n as u64));
            assert(b2.subrange(hpos + 16, hpos + 24) =~= spec_u64_to_le_bytes(n as u64));
            assert(b2.subrange(pos, pos + n) =~= d);
        },
        Ty::Slice(_) => {
            lemma_exhume_image_slice(t, v, b, hpos, pos);
        },
        Ty::Boxed(te) => {
            let x = *v->Boxed_1;
            let he = head_size(*te) as int;
            lemma_neutral_head_len(*te, x);
            lemma_region_split(b, pos, head_bytes(*te, neutral(*te, x)), tail_bytes(*te, x));
            lemma_exhume_image(*te, x, b, pos, pos + he);
            let rrx = exhumed(*te, b, pos, pos + he)->Some_0;
            let p = pos + he + tail_bytes(*te, x).len();
            let b2 = splice(rrx.2, hpos, spec_u64_to_le_bytes(pos as u64));
            assert(b2.len() == rrx.2.len());
            assert(b2.subrange(hpos, hpos + 8) =~= spec_u64_to_le_bytes(pos as u64));
            assert(forall|j: int| 0 <= j < b2.len() && !(hpos <= j < hpos + 8) ==> b2[j]
                == rrx.2[j]);
            lemma_validated_frame(*te, rrx.2, b2, pos, pos + he, rrx.0, p);
            assert(validated(t, b2, hpos, pos) == Some((Val::Boxed(pos as u64, Box::new(rrx.0)), p)));
        },
    }
}

/// Element reconstruction from the image of a dynamic array's storage and
/// element tails, from element `i` on.
#[verifier::rlimit(100)]
pub proof fn lemma_exhume_image_seq(t: Ty, es: Seq<Val>, b: Seq<u8>, hbase: int, i: int, pos: int)
    requires
        0 <= hbase,
        0 <= i <= es.len(),
        forall|k: int| i <= k < es.len() ==> wf(t, #[trigger] es[k]),
        hbase + es.len() * head_size(t) <= pos,
        pos + tails_of(t, es.skip(i)).len() <= b.len(),
        b.len() <= usize::MAX,
        forall|k: int|
            i <= k < es.len() ==> b.subrange(
                hbase + k * head_size(t),
                hbase + (k + 1) * head_size(t),
            ) == head_bytes(t, neutral(t, #[trigger] es[k])),
        b.subrange(pos, pos + tails_of(t, es.skip(i)).len() as int) == tails_of(t, es.skip(i)),
    ensures
        exhumed_seq(t, b, hbase, i, es.len() as int, pos) matches Some(rr) && {
            let p = pos + tails_of(t, es.skip(i)).len();
            &&& rr.1 == p
            &&& rr.0.len() == es.len() - i
            &&& (forall|k: int|
                0 <= k < rr.0.len() ==> wf(t, #[trigger] rr.0[k]) && equiv(t, rr.0[k], es[i + k])
                    && normalized(t, rr.0[k]))
            &&& rr.2.len() == b.len()
            &&& (forall|j: int|
                0 <= j < b.len() && !(hbase + i * head_size(t) <= j < hbase + es.len()
                    * head_size(t)) && !(pos <= j < p) ==> rr.2[j] == b[j])
            &&& validated_seq(t, rr.2, hbase, i, es.len() as int, pos) == Some((rr.0, p))
        },
    decreases t, 1nat, es.len() - i,
{
    let hs = head_size(t) as int;
    let n = es.len() as int;
    if i >= n {
        assert(es.skip(i) =~= Seq::<Val>::empty());
        assert(tails_of(t, es.skip(i)) =~= Seq::<u8>::empty());
    } else {
        let ehpos = hbase + i * hs;
        assert(0 <= i * hs && i * hs + hs <= n * hs) by (nonlinear_arith)
            requires 0 <= i, i < n, hs >= 0,
        ;
        let sk = es.skip(i);
        assert(sk[0] == es[i]);
        assert(sk.drop_first() =~= es.skip(i + 1));
        let ti = tail_bytes(t, es[i]);
        let rest = tails_of(t, es.skip(i + 1));
        assert(tails_of(t, sk) == ti + rest);
        lemma_region_split(b, pos, ti, rest);
        assert((i + 1) * hs == i * hs + hs) by (nonlinear_arith);
        assert(b.subrange(ehpos, ehpos + hs) == head_bytes(t, neutral(t, es[i])));
        lemma_exhume_image(t, es[i], b, ehpos, pos);
        let rrw = exhumed(t, b, ehpos, pos)->Some_0;
        let w = rrw.0;
        let p1 = pos + ti.len();
        let b1 = rrw.2;
        assert forall|k: int| i + 1 <= k < n implies b1.subrange(
            hbase + k * hs,
            hbase + (k + 1) * hs,
        ) == head_bytes(t, neutral(t, #[trigger] es[k])) by {
            assert(0 <= k * hs && i * hs + hs <= k * hs && (k + 1) * hs == k * hs + hs && (k + 1)
                * hs <= n * hs) by (nonlinear_arith)
                requires i < k, k < n, hs >= 0, 0 <= i,
            ;
            assert(b1.subrange(hbase + k * hs, hbase + (k + 1) * hs) =~= b.subrange(
                hbase + k * hs,
                hbase + (k + 1) * hs,
            ));
        }
        assert(b1.subrange(p1, p1 + rest.len()) =~= rest);
        lemma_exhume_image_seq(t, es, b1, hbase, i + 1, p1);
        let rrs = exhumed_seq(t, b1, hbase, i + 1, n, p1)->Some_0;
        let p = p1 + rest.len();
        let b2 = rrs.2;
        assert(exhumed_seq(t, b, hbase, i, n, pos) == Some((seq![w] + rrs.0, p, b2)));
        assert forall|k: int| 0 <= k < (seq![w] + rrs.0).len() implies wf(
            t,
            #[trigger] (seq![w] + rrs.0)[k],
        ) && equiv(t, (seq![w] + rrs.0)[k], es[i + k]) && normalized(t, (seq![w] + rrs.0)[k]) by {
            if k == 0 {
                assert((seq![w] + rrs.0)[0] == w);
            } else {
                assert((seq![w] + rrs.0)[k] == rrs.0[k - 1]);
                assert(equiv(t, rrs.0[k - 1], es[i + 1 + (k - 1)]));
            }
        }
        assert(i * hs + hs == (i + 1) * hs) by (nonlinear_arith);
        lemma_validated_frame(t, b1, b2, ehpos, pos, w, p1);
        assert(validated_seq(t, b2, hbase, i, n, pos) == Some((seq![w] + rrs.0, p)));
    }
}


/// Round trip: a buffer that holds the binary image of a well-formed value
/// `v` between arbitrary surrounding bytes decodes successfully. Decoding
/// consumes exactly the image, yields a well-formed value equal to `v`
/// under the protocol's equality whose every capacity word equals its
/// length, touches no byte before or after the image, and leaves the buffer
/// in a state that validation accepts with the very same value — so a
/// decode followed by a validation of the same buffer agrees.
#[verifier::rlimit(60)]
pub proof fn lemma_round_trip(t: Ty, v: Val, pre: Seq<u8>, rest: Seq<u8>)
    requires
        wf(t, v),
        pre.len() + image(t, v).len() + rest.len() <= usize::MAX,
    ensures
        ({
            let b = pre + image(t, v) + rest;
            let start = pre.len() as int;
            let hs = head_size(t) as int;
            exhumed(t, b, start, start + hs) matches Some(rr) && {
                &&& rr.1 == start + image(t, v).len()
                &&& wf(t, rr.0)
                &&& equiv(t, rr.0, v)
                &&& normalized(t, rr.0)
                &&& rr.2.len() == b.len()
                &&& rr.2.subrange(0, start) == pre
                &&& rr.2.subrange(rr.1, rr.2.len() as int) == rest
                &&& validated(t, rr.2, start, start + hs) == Some((rr.0, rr.1))
            }
        }),
{
    let b = pre + image(t, v) + rest;
    let start = pre.len() as int;
    let hs = head_size(t) as int;
    let nh = head_bytes(t, neutral(t, v));
    let tl = tail_bytes(t, v);
    lemma_neutral_head_len(t, v);
    assert(image(t, v) == nh + tl);
    assert(b.subrange(start, start + image(t, v).len() as int) =~= image(t, v));
    lemma_region_split(b, start, nh, tl);
    lemma_exhume_image(t, v, b, start, start + hs);
    let rr = exhumed(t, b, start, start + hs)->Some_0;
    let p = start + image(t, v).len() as int;
    assert forall|j: int| 0 <= j < start implies rr.2[j] == pre[j] by {
        assert(b[j] == pre[j]);
        assert(rr.2[j] == b[j]);
    }
    assert forall|j: int| p <= j < rr.2.len() implies rr.2[j] == rest[j - p] by {
        assert(b[j] == rest[j - p]);
        assert(rr.2[j] == b[j]);
    }
    assert(rr.2.subrange(0, start) =~= pre);
    assert(rr.2.subrange(rr.1, rr.2.len() as int) =~= rest);
}

/// Sequencing: encoding two values into one buffer and then decoding them
/// in order reproduces both, with the second decode ending exactly at the
/// end of the buffer.
#[verifier::rlimit(60)]
pub proof fn lemma_sequencing(t1: Ty, v1: Val, t2: Ty, v2: Val)
    requires
        wf(t1, v1),
        wf(t2, v2),
        image(t1, v1).len() + image(t2, v2).len() <= usize::MAX,
    ensures
        ({
            let b = image(t1, v1) + image(t2, v2);
            let hs1 = head_size(t1) as int;
            let hs2 = head_size(t2) as int;
            let p1 = image(t1, v1).len() as int;
            exhumed(t1, b, 0, hs1) matches Some(r1) && {
                &&& r1.1 == p1
                &&& equiv(t1, r1.0, v1)
                &&& exhumed(t2, r1.2, p1, p1 + hs2) matches Some(r2) && {
                    &&& r2.1 == b.len()
                    &&& equiv(t2, r2.0, v2)
                    &&& r2.2.len() == b.len()
                }
            }
        }),
{
    let b = image(t1, v1) + image(t2, v2);
    let hs1 = head_size(t1) as int;
    let hs2 = head_size(t2) as int;
    let p1 = image(t1, v1).len() as int;
    assert(b =~= Seq::<u8>::empty() + image(t1, v1) + image(t2, v2));
    lemma_round_trip(t1, v1, Seq::empty(), image(t2, v2));
    let r1 = exhumed(t1, b, 0, hs1)->Some_0;
    assert(r1.2 =~= r1.2.subrange(0, p1) + image(t2, v2) + Seq::<u8>::empty()) by {
        assert(r1.2.subrange(r1.1, r1.2.len() as int) == image(t2, v2));
        assert(forall|j: int| p1 <= j < r1.2.len() ==> r1.2[j] == #[trigger] r1.2.subrange(
            r1.1,
            r1.2.len() as int,
        )[j - p1]);
    }
    lemma_round_trip(t2, v2, r1.2.subrange(0, p1), Seq::empty());
}


/// A successful reconstruction reads and writes nothing at or beyond the
/// offset it returns, so cutting the buffer anywhere past that offset
/// leaves the result intact.
#[verifier::rlimit(100)]
pub proof fn lemma_exhumed_take(
    t: Ty,
    b: Seq<u8>,
    hpos: int,
    pos: int,
    w: Val,
    p: int,
    b2: Seq<u8>,
    m: int,
)
    requires
        0 <= hpos,
        hpos + head_size(t) <= pos,
        pos <= b.len(),
        b.len() <= usize::MAX,
        exhumed(t, b, hpos, pos) == Some((w, p, b2)),
        p <= m <= b.len(),
    ensures
        exhumed(t, b.take(m), hpos, pos) == Some((w, p, b2.take(m))),
    decreases t, 0nat, 0nat,
{
    vstd::bytes::lemma_auto_spec_u64_to_from_le_bytes();
    lemma_exhumed_bounds(t, b, hpos, pos);
    let bm = b.take(m);
    let hs = head_size(t) as int;
    assert(forall|j: int| 0 <= j < m ==> bm[j] == b[j]);
    match t {
        Ty::U8 | Ty::I8 | Ty::Bool | Ty::Unit => {
            assert(bm.take(m) =~= b2.take(m));
        },
        Ty::U16 | Ty::I16 => {
            assert(bm.subrange(hpos, hpos + 2) =~= b.subrange(hpos, hpos + 2));
            assert(bm.take(m) =~= b2.take(m));
        },
        Ty::U32 | Ty::I32 => {
            assert(bm.subrange(hpos, hpos + 4) =~= b.subrange(hpos, hpos + 4));
            assert(bm.take(m) =~= b2.take(m));
        },
        Ty::U64 | Ty::I64 => {
            assert(bm.subrange(hpos, hpos + 8) =~= b.subrange(hpos, hpos + 8));
            assert(bm.take(m) =~= b2.take(m));
        },
        Ty::Pair(ta, tb) => {
            let rra = exhumed(*ta, b, hpos, pos)->Some_0;
            lemma_exhumed_bounds(*ta, b, hpos, pos);
            lemma_exhumed_bounds(*tb, rra.2, hpos + head_size(*ta), rra.1);
            lemma_exhumed_take(*ta, b, hpos, pos, rra.0, rra.1, rra.2, m);
            let rrb = exhumed(*tb, rra.2, hpos + head_size(*ta), rra.1)->Some_0;
            lemma_exhumed_take(*tb, rra.2, hpos + head_size(*ta), rra.1, rrb.0, rrb.1, rrb.2, m);
        },
        Ty::Opt(te) => {
            assert(bm[hpos] == b[hpos]);
            if b[hpos] != 0 {
                let rrx = exhumed(*te, b, hpos + 1, pos)->Some_0;
                lemma_exhumed_take(*te, b, hpos + 1, pos, rrx.0, rrx.1, rrx.2, m);
            } else {
                assert(bm.take(m) =~= b2.take(m));
            }
        },
        Ty::Arr(te) => {
            assert(bm.subrange(hpos + 8, hpos + 16) =~= b.subrange(hpos + 8, hpos + 16));
            let len = spec_u64_from_le_bytes(b.subrange(hpos + 8, hpos + 16)) as int;
            let he = head_size(*te) as int;
            let need = len * he;
            assert(need >= 0) by (nonlinear_arith)
                requires len >= 0, he >= 0, need == len * he,
            ;
            lemma_exhumed_seq_bounds(*te, b, pos, 0, len, pos + need);
            let rrs = exhumed_seq(*te, b, pos, 0, len, pos + need)->Some_0;
            lemma_exhumed_seq_take(*te, b, pos, 0, len, pos + need, rrs.0, rrs.1, rrs.2, m);
            assert(splice(rrs.2.take(m), hpos, patched_words(pos, len)) =~= splice(
                rrs.2,
                hpos,
                patched_words(pos, len),
            ).take(m));
        },
        Ty::Text => {
            assert(bm.subrange(hpos + 8, hpos + 16) =~= b.subrange(hpos + 8, hpos + 16));
            let len = spec_u64_from_le_bytes(b.subrange(hpos + 8, hpos + 16)) as int;
            assert(bm.subrange(pos, pos + len) =~= b.subrange(pos, pos + len));
            assert(splice(bm, hpos, patched_words(pos, len)) =~= splice(b, hpos, patched_words(
                pos,
                len,
            )).take(m));
        },
        Ty::Slice(te) => {
            assert(bm.subrange(hpos + 8, hpos + 16) =~= b.subrange(hpos + 8, hpos + 16));
            let len = spec_u64_from_le_bytes(b.subrange(hpos + 8, hpos + 16)) as int;
            let he = head_size(*te) as int;
            let need = len * he;
            assert(need >= 0) by (nonlinear_arith)
                requires len >= 0, he >= 0, need == len * he,
            ;
            lemma_exhumed_seq_bounds(*te, b, pos, 0, len, pos + need);
            let rrs = exhumed_seq(*te, b, pos, 0, len, pos + need)->Some_0;
            lemma_exhumed_seq_take(*te, b, pos, 0, len, pos + need, rrs.0, rrs.1, rrs.2, m);
            assert(splice(rrs.2.take(m), hpos, patched_pair(pos, len)) =~= splice(
                rrs.2,
                hpos,
                patched_pair(pos, len),
            ).take(m));
        },
        Ty::Boxed(te) => {
            let he = head_size(*te) as int;
            let rrx = exhumed(*te, b, pos, pos + he)->Some_0;
            lemma_exhumed_bounds(*te, b, pos, pos + he);
            lemma_exhumed_take(*te, b, pos, pos + he, rrx.0, rrx.1, rrx.2, m);
            assert(splice(rrx.2.take(m), hpos, spec_u64_to_le_bytes(pos as u64)) =~= splice(
                rrx.2,
                hpos,
                spec_u64_to_le_bytes(pos as u64),
            ).take(m));
        },
    }
}

/// Element reconstruction likewise survives cutting the buffer anywhere at
/// or past the offset it returns.
#[verifier::rlimit(100)]
pub proof fn lemma_exhumed_seq_take(
    t: Ty,
    b: Seq<u8>,
    hbase: int,
    i: int,
    n: int,
    pos: int,
    ws: Seq<Val>,
    p: int,
    b2: Seq<u8>,
    m: int,
)
    requires
        0 <= hbase,
        0 <= i,
        hbase + n * head_size(t) <= pos,
        pos <= b.len(),
        b.len() <= usize::MAX,
        exhumed_seq(t, b, hbase, i, n, pos) == Some((ws, p, b2)),
        p <= m <= b.len(),
    ensures
        exhumed_seq(t, b.take(m), hbase, i, n, pos) == Some((ws, p, b2.take(m))),
    decreases t, 1nat, n - i,
{
    if i >= n {
        assert(b.take(m) =~= b2.take(m));
    } else {
        let hs = head_size(t) as int;
        assert(0 <= i * hs && i * hs + hs <= n * hs) by (nonlinear_arith)
            requires 0 <= i, i < n, hs >= 0,
        ;
        lemma_exhumed_bounds(t, b, hbase + i * hs, pos);
        let rrw = exhumed(t, b, hbase + i * hs, pos)->Some_0;
        lemma_exhumed_seq_bounds(t, rrw.2, hbase, i + 1, n, rrw.1);
        lemma_exhumed_take(t, b, hbase + i * hs, pos, rrw.0, rrw.1, rrw.2, m);
        let rrs = exhumed_seq(t, rrw.2, hbase, i + 1, n, rrw.1)->Some_0;
        lemma_exhumed_seq_take(t, rrw.2, hbase, i + 1, n, rrw.1, rrs.0, rrs.1, rrs.2, m);
    }
}

/// Truncation safety: cutting a buffer anywhere strictly before the offset
/// a successful reconstruction would reach makes reconstruction fail.
#[verifier::rlimit(100)]
pub proof fn lemma_exhumed_trunc(
    t: Ty,
    b: Seq<u8>,
    hpos: int,
    pos: int,
    w: Val,
    p: int,
    b2: Seq<u8>,
    m: int,
)
    requires
        0 <= hpos,
        hpos + head_size(t) <= pos,
        pos <= b.len(),
        b.len() <= usize::MAX,
        exhumed(t, b, hpos, pos) == Some((w, p, b2)),
        pos <= m < p,
        m <= b.len(),
    ensures
        exhumed(t, b.take(m), hpos, pos) is None,
    decreases t, 0nat, 0nat,
{
    vstd::bytes::lemma_auto_spec_u64_to_from_le_bytes();
    lemma_exhumed_bounds(t, b, hpos, pos);
    let bm = b.take(m);
    let hs = head_size(t) as int;
    assert(forall|j: int| 0 <= j < m ==> bm[j] == b[j]);
    match t {
        Ty::U8 | Ty::I8 | Ty::Bool | Ty::Unit | Ty::U16 | Ty::I16 | Ty::U32 | Ty::I32 | Ty::U64
            | Ty::I64 => {},
        Ty::Pair(ta, tb) => {
            let rra = exhumed(*ta, b, hpos, pos)->Some_0;
            lemma_exhumed_bounds(*ta, b, hpos, pos);
            lemma_exhumed_bounds(*tb, rra.2, hpos + head_size(*ta), rra.1);
            let rrb = exhumed(*tb, rra.2, hpos + head_size(*ta), rra.1)->Some_0;
            if m < rra.1 {
                lemma_exhumed_trunc(*ta, b, hpos, pos, rra.0, rra.1, rra.2, m);
            } else {
                lemma_exhumed_take(*ta, b, hpos, pos, rra.0, rra.1, rra.2, m);
                lemma_exhumed_trunc(
                    *tb,
                    rra.2,
                    hpos + head_size(*ta),
                    rra.1,
                    rrb.0,
                    rrb.1,
                    rrb.2,
                    m,
                );
            }
        },
        Ty::Opt(te) => {
            assert(bm[hpos] == b[hpos]);
            if b[hpos] != 0 {
                let rrx = exhumed(*te, b, hpos + 1, pos)->Some_0;
                lemma_exhumed_trunc(*te, b, hpos + 1, pos, rrx.0, rrx.1, rrx.2, m);
            }
        },
        Ty::Arr(te) => {
            assert(bm.subrange(hpos + 8, hpos + 16) =~= b.subrange(hpos + 8, hpos + 16));
            let len = spec_u64_from_le_bytes(b.subrange(hpos + 8, hpos + 16)) as int;
            let he = head_size(*te) as int;
            let need = len * he;
            assert(need >= 0) by (nonlinear_arith)
                requires len >= 0, he >= 0, need == len * he,
            ;
            lemma_exhumed_seq_bounds(*te, b, pos, 0, len, pos + need);
            let rrs = exhumed_seq(*te, b, pos, 0, len, pos + need)->Some_0;
            if pos + need > m {
            } else {
                lemma_exhumed_seq_trunc(*te, b, pos, 0, len, pos + need, rrs.0, rrs.1, rrs.2, m);
            }
        },
        Ty::Text => {
            assert(bm.subrange(hpos + 8, hpos + 16) =~= b.subrange(hpos + 8, hpos + 16));
        },
        Ty::Slice(te) => {
            assert(bm.subrange(hpos + 8, hpos + 16) =~= b.subrange(hpos + 8, hpos + 16));
            let len = spec_u64_from_le_bytes(b.subrange(hpos + 8, hpos + 16)) as int;
            let he = head_size(*te) as int;
            let need = len * he;
            assert(need >= 0) by (nonlinear_arith)
                requires len >= 0, he >= 0, need == len * he,
            ;
            lemma_exhumed_seq_bounds(*te, b, pos, 0, len, pos + need);
            let rrs = exhumed_seq(*te, b, pos, 0, len, pos + need)->Some_0;
            if pos + need > m {
            } else {
                lemma_exhumed_seq_trunc(*te, b, pos, 0, len, pos + need, rrs.0, rrs.1, rrs.2, m);
            }
        },
        Ty::Boxed(te) => {
            let he = head_size(*te) as int;
            let rrx = exhumed(*te, b, pos, pos + he)->Some_0;
            lemma_exhumed_bounds(*te, b, pos, pos + he);
            if pos + he > m {
            } else {
                lemma_exhumed_trunc(*te, b, pos, pos + he, rrx.0, rrx.1, rrx.2, m);
            }
        },
    }
}

/// Truncation safety for the elements of a dynamic array.
#[verifier::rlimit(100)]
pub proof fn lemma_exhumed_seq_trunc(
    t: Ty,
    b: Seq<u8>,
    hbase: int,
    i: int,
    n: int,
    pos: int,
    ws: Seq<Val>,
    p: int,
    b2: Seq<u8>,
    m: int,
)
    requires
        0 <= hbase,
        0 <= i,
        hbase + n * head_size(t) <= pos,
        pos <= b.len(),
        b.len() <= usize::MAX,
        exhumed_seq(t, b, hbase, i, n, pos) == Some((ws, p, b2)),
        pos <= m < p,
        m <= b.len(),
    ensures
        exhumed_seq(t, b.take(m), hbase, i, n, pos) is None,
    decreases t, 1nat, n - i,
{
    if i >= n {
    } else {
        let hs = head_size(t) as int;
        assert(0 <= i * hs && i * hs + hs <= n * hs) by (nonlinear_arith)
            requires 0 <= i, i < n, hs >= 0,
        ;
        lemma_exhumed_bounds(t, b, hbase + i * hs, pos);
        let rrw = exhumed(t, b, hbase + i * hs, pos)->Some_0;
        lemma_exhumed_seq_bounds(t, rrw.2, hbase, i + 1, n, rrw.1);
        let rrs = exhumed_seq(t, rrw.2, hbase, i + 1, n, rrw.1)->Some_0;
        if m < rrw.1 {
            lemma_exhumed_trunc(t, b, hbase + i * hs, pos, rrw.0, rrw.1, rrw.2, m);
        } else {
            lemma_exhumed_take(t, b, hbase + i * hs, pos, rrw.0, rrw.1, rrw.2, m);
            lemma_exhumed_seq_trunc(t, rrw.2, hbase, i + 1, n, rrw.1, rrs.0, rrs.1, rrs.2, m);
        }
    }
}

/// Truncation safety for whole images: decoding any strict prefix of the
/// binary image of a value fails, and never yields a partial value.
pub proof fn lemma_truncation_safe(t: Ty, v: Val, k: int)
    requires
        wf(t, v),
        0 <= k < image(t, v).len(),
        image(t, v).len() <= usize::MAX,
    ensures
        head_size(t) > k || exhumed(t, image(t, v).take(k), 0, head_size(t) as int) is None,
{
    let hs = head_size(t) as int;
    if hs <= k {
        let b0 = image(t, v);
        assert(b0 =~= Seq::<u8>::empty() + image(t, v) + Seq::<u8>::empty());
        lemma_round_trip(t, v, Seq::empty(), Seq::empty());
        let rr = exhumed(t, b0, 0, hs)->Some_0;
        lemma_exhumed_trunc(t, b0, 0, hs, rr.0, rr.1, rr.2, k);
        assert(image(t, v).take(k) =~= b0.take(k));
    }
}


/// The dynamic-array case of reconstruction from an image.
#[verifier::rlimit(100)]
#[verifier::spinoff_prover]
proof fn lemma_exhume_image_arr(t: Ty, v: Val, b: Seq<u8>, hpos: int, pos: int)
    requires
        t is Arr,
        wf(t, v),
        0 <= hpos,
        hpos + head_size(t) <= pos,
        pos + tail_bytes(t, v).len() <= b.len(),
        b.len() <= usize::MAX,
        b.subrange(hpos, hpos + head_size(t)) == head_bytes(t, neutral(t, v)),
        b.subrange(pos, pos + tail_bytes(t, v).len() as int) == tail_bytes(t, v),
    ensures
        exhumed(t, b, hpos, pos) matches Some(rr) && {
            let p = pos + tail_bytes(t, v).len();
            &&& rr.1 == p
            &&& wf(t, rr.0)
            &&& equiv(t, rr.0, v)
            &&& normalized(t, rr.0)
            &&& rr.2.len() == b.len()
            &&& (forall|j: int|
                0 <= j < b.len() && !(hpos <= j < hpos + head_size(t)) && !(pos <= j < p)
                    ==> rr.2[j] == b[j])
            &&& validated(t, rr.2, hpos, pos) == Some((rr.0, p))
        },
    decreases t, 0nat, 0nat,
{
    vstd::bytes::lemma_auto_spec_u64_to_from_le_bytes();
    lemma_head_bytes_len(t, v);
    lemma_neutral_head_len(t, v);
    let hs = head_size(t) as int;
    if let Ty::Arr(te) = t {

            let es = v->Arr_2;
            let n = es.len() as int;
            let he = head_size(*te) as int;
            let hb = heads_of(*te, es);
            let tb2 = tails_of(*te, es);
            assert(forall|k: int| 0 <= k < n ==> wf(*te, #[trigger] es[k]));
            crate::image::lemma_heads_of_len(*te, es);
            let need = n * he;
            assert(b.subrange(hpos + 8, hpos + 16) =~= head_bytes(t, neutral(t, v)).subrange(
                8,
                16,
            ));
            assert(head_bytes(t, neutral(t, v)).subrange(8, 16) =~= spec_u64_to_le_bytes(
                n as u64,
            ));
            assert(spec_u64_from_le_bytes(b.subrange(hpos + 8, hpos + 16)) == n as u64);
            assert(tail_bytes(t, v) == hb + tb2);
            assert(pos + need <= b.len());
            assert(!(head_size(*te) == 0 && n > usize::MAX));
            lemma_region_split(b, pos, hb, tb2);
            assert forall|k: int| 0 <= k < n implies b.subrange(
                pos + k * he,
                pos + (k + 1) * he,
            ) == head_bytes(*te, neutral(*te, es[k])) by {
                crate::image::lemma_heads_of_index(*te, es, k);
                assert(0 <= k * he && k * he <= (k + 1) * he && (k + 1) * he <= need)
                    by (nonlinear_arith)
                    requires 0 <= k < n, he >= 0, need == n * he,
                ;
                lemma_region_part(b, pos, hb, k * he, (k + 1) * he);
            }
            assert(es.skip(0) =~= es);
            lemma_exhume_image_seq(*te, es, b, pos, 0, pos + need);
            let rrs = exhumed_seq(*te, b, pos, 0, n, pos + need)->Some_0;
            let p = pos + need + tb2.len();
            let b2 = splice(rrs.2, hpos, patched_words(pos, n));
            assert(b2.len() == rrs.2.len());
            assert(b2.subrange(hpos, hpos + 8) =~= spec_u64_to_le_bytes(pos as u64));
            assert(b2.subrange(hpos + 8, hpos + 16) =~= spec_u64_to_le_bytes(n as u64));
            assert(b2.subrange(hpos + 16, hpos + 24) =~= spec_u64_to_le_bytes(n as u64));
            assert(forall|j: int| 0 <= j < b2.len() && !(hpos <= j < hpos + 24) ==> b2[j]
                == rrs.2[j]);
            lemma_validated_seq_frame(*te, rrs.2, b2, pos, 0, n, pos + need, rrs.0, p);
            assert(validated(t, b2, hpos, pos) == Some(
                (Val::Arr(pos as u64, n as u64, rrs.0), p),
            ));
            assert(exhumed(t, b, hpos, pos) matches Some(rr) && rr.2 == b2 && rr.0 == Val::Arr(
                pos as u64,
                n as u64,
                rrs.0,
            ));
        
    }
}

/// The borrowed-slice case of reconstruction from an image.
#[verifier::rlimit(100)]
#[verifier::spinoff_prover]
proof fn lemma_exhume_image_slice(t: Ty, v: Val, b: Seq<u8>, hpos: int, pos: int)
    requires
        t is Slice,
        wf(t, v),
        0 <= hpos,
        hpos + head_size(t) <= pos,
        pos + tail_bytes(t, v).len() <= b.len(),
        b.len() <= usize::MAX,
        b.subrange(hpos, hpos + head_size(t)) == head_bytes(t, neutral(t, v)),
        b.subrange(pos, pos + tail_bytes(t, v).len() as int) == tail_bytes(t, v),
    ensures
        exhumed(t, b, hpos, pos) matches Some(rr) && {
            let p = pos + tail_bytes(t, v).len();
            &&& rr.1 == p
            &&& wf(t, rr.0)
            &&& equiv(t, rr.0, v)
            &&& normalized(t, rr.0)
            &&& rr.2.len() == b.len()
            &&& (forall|j: int|
                0 <= j < b.len() && !(hpos <= j < hpos + head_size(t)) && !(pos <= j < p)
                    ==> rr.2[j] == b[j])
            &&& validated(t, rr.2, hpos, pos) == Some((rr.0, p))
        },
    decreases t, 0nat, 0nat,
{
    vstd::bytes::lemma_auto_spec_u64_to_from_le_bytes();
    lemma_head_bytes_len(t, v);
    lemma_neutral_head_len(t, v);
    let hs = head_size(t) as int;
    if let Ty::Slice(te) = t {

            let es = v->Slice_1;
            let n = es.len() as int;
            let he = head_size(*te) as int;
            let hb = heads_of(*te, es);
            let tb2 = tails_of(*te, es);
            assert(forall|k: int| 0 <= k < n ==> wf(*te, #[trigger] es[k]));
            crate::image::lemma_heads_of_len(*te, es);
            let need = n * he;
            assert(b.subrange(hpos + 8, hpos + 16) =~= head_bytes(t, neutral(t, v)).subrange(
                8,
                16,
            ));
            assert(head_bytes(t, neutral(t, v)).subrange(8, 16) =~= spec_u64_to_le_bytes(
                n as u64,
            ));
            assert(spec_u64_from_le_bytes(b.subrange(hpos + 8, hpos + 16)) == n as u64);
            assert(tail_bytes(t, v) == hb + tb2);
            assert(pos + need <= b.len());
            assert(!(head_size(*te) == 0 && n > usize::MAX));
            lemma_region_split(b, pos, hb, tb2);
            assert forall|k: int| 0 <= k < n implies b.subrange(
                pos + k * he,
                pos + (k + 1) * he,
            ) == head_bytes(*te, neutral(*te, es[k])) by {
                crate::image::lemma_heads_of_index(*te, es, k);
                assert(0 <= k * he && k * he <= (k + 1) * he && (k + 1) * he <= need)
                    by (nonlinear_arith)
                    requires 0 <= k < n, he >= 0, need == n * he,
                ;
                lemma_region_part(b, pos, hb, k * he, (k + 1) * he);
            }
            assert(es.skip(0) =~= es);
            lemma_exhume_image_seq(*te, es, b, pos, 0, pos + need);
            let rrs = exhumed_seq(*te, b, pos, 0, n, pos + need)->Some_0;
            let p = pos + need + tb2.len();
            let b2 = splice(rrs.2, hpos, patched_pair(pos, n));
            assert(b2.len() == rrs.2.len());
            assert(b2.subrange(hpos, hpos + 8) =~= spec_u64_to_le_bytes(pos as u64));
            assert(b2.subrange(hpos + 8, hpos + 16) =~= spec_u64_to_le_bytes(n as u64));
            assert(forall|j: int| 0 <= j < b2.len() && !(hpos <= j < hpos + 16) ==> b2[j]
                == rrs.2[j]);
            lemma_validated_seq_frame(*te, rrs.2, b2, pos, 0, n, pos + need, rrs.0, p);
            assert(validated(t, b2, hpos, pos) == Some((Val::Slice(pos as u64, rrs.0), p)));
            assert(exhumed(t, b, hpos, pos) matches Some(rr) && rr.2 == b2 && rr.0 == Val::Slice(
                pos as u64,
                rrs.0,
            ));
        
    }
}

} // verus!
