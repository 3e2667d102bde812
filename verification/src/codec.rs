//! The reader side of the protocol: reconstruction and validation.
//!
//! `exhumed` is the mathematical account of destructive decoding: reading a
//! header out of the buffer, claiming the leading bytes of the tail region
//! for each owned buffer, patching each address word in the buffer to the
//! offset of its claimed region, and threading the unclaimed remainder
//! through the constituents in write order. `validated` is its read-only
//! counterpart: the same traversal, except that every address word must
//! already hold the offset reconstruction would write. The executable
//! `exhume_value` and `validate_value` are verified against these accounts.

use vstd::prelude::*;
use vstd::bytes::{spec_u16_from_le_bytes, spec_u32_from_le_bytes, spec_u64_from_le_bytes, spec_u64_to_le_bytes};
use crate::layout::{Ty, head_size, head_size_of, splice, i8_val, i16_val, i32_val, i64_val, i8_from_bits, i16_from_bits, i32_from_bits, i64_from_bits, read_u16, read_u32, read_u64, set_u64};
use crate::value::{Val, Value, vals_of, lemma_vals_of, val_of};

verus! {

broadcast use vstd::std_specs::vec::group_vec_axioms;

/// The patched address, length and capacity words written back into an
/// owned-buffer header when its storage is claimed at offset `pos` with
/// `len` elements or bytes: the capacity always becomes the length.
pub open spec fn patched_words(pos: int, len: int) -> Seq<u8> {
    spec_u64_to_le_bytes(pos as u64) + spec_u64_to_le_bytes(len as u64) + spec_u64_to_le_bytes(
        len as u64,
    )
}

/// The patched address and length words written back into a borrowed
/// slice's header when its storage is claimed at offset `pos`.
pub open spec fn patched_pair(pos: int, len: int) -> Seq<u8> {
    spec_u64_to_le_bytes(pos as u64) + spec_u64_to_le_bytes(len as u64)
}

/// The result of reconstructing a value of type `t` from buffer `b`, whose
/// header sits at `hpos` and whose unclaimed tail starts at `pos`: the
/// decoded value, the offset of the first byte it did not claim, and the
/// buffer as the decoding left it — or nothing, if the tail is too short.
pub open spec fn exhumed(t: Ty, b: Seq<u8>, hpos: int, pos: int) -> Option<(Val, int, Seq<u8>)>
    decreases t, 0nat, 0nat,
{
    match t {
        Ty::U8 => Some((Val::U8(b[hpos]), pos, b)),
        Ty::U16 => Some((Val::U16(spec_u16_from_le_bytes(b.subrange(hpos, hpos + 2))), pos, b)),
        Ty::U32 => Some((Val::U32(spec_u32_from_le_bytes(b.subrange(hpos, hpos + 4))), pos, b)),
        Ty::U64 => Some((Val::U64(spec_u64_from_le_bytes(b.subrange(hpos, hpos + 8))), pos, b)),
        Ty::I8 => Some((Val::I8(i8_val(b[hpos])), pos, b)),
        Ty::I16 => Some(
            (Val::I16(i16_val(spec_u16_from_le_bytes(b.subrange(hpos, hpos + 2)))), pos, b),
        ),
        Ty::I32 => Some(
            (Val::I32(i32_val(spec_u32_from_le_bytes(b.subrange(hpos, hpos + 4)))), pos, b),
        ),
        Ty::I64 => Some(
            (Val::I64(i64_val(spec_u64_from_le_bytes(b.subrange(hpos, hpos + 8)))), pos, b),
        ),
        Ty::Bool => Some((Val::Bool(b[hpos] != 0), pos, b)),
        Ty::Unit => Some((Val::Unit, pos, b)),
        Ty::Pair(ta, tb) => match exhumed(*ta, b, hpos, pos) {
            None => None,
            Some((x, p1, b1)) => match exhumed(*tb, b1, hpos + head_size(*ta), p1) {
                None => None,
                Some((y, p2, b2)) => Some((Val::Pair(Box::new(x), Box::new(y)), p2, b2)),
            },
        },
        Ty::Opt(te) => if b[hpos] == 0 {
            Some((Val::Opt(None), pos, b))
        } else {
            match exhumed(*te, b, hpos + 1, pos) {
                None => None,
                Some((x, p1, b1)) => Some((Val::Opt(Some(Box::new(x))), p1, b1)),
            }
        },
        Ty::Arr(te) => {
            let len = spec_u64_from_le_bytes(b.subrange(hpos + 8, hpos + 16)) as int;
            let need = len * head_size(*te);
            if pos + need > b.len() || (head_size(*te) == 0 && len > usize::MAX) {
                None
            } else {
                match exhumed_seq(*te, b, pos, 0, len, pos + need) {
                    None => None,
                    Some((ws, p1, b1)) => Some(
                        (Val::Arr(pos as u64, len as u64, ws), p1, splice(
                            b1,
                            hpos,
                            patched_words(pos, len),
                        )),
                    ),
                }
            }
        },
        Ty::Text => {
            let len = spec_u64_from_le_bytes(b.subrange(hpos + 8, hpos + 16)) as int;
            if pos + len > b.len() {
                None
            } else {
                Some(
                    (Val::Text(pos as u64, len as u64, b.subrange(pos, pos + len)), pos + len,
                    splice(b, hpos, patched_words(pos, len))),
                )
            }
        },
        Ty::Slice(te) => {
            let len = spec_u64_from_le_bytes(b.subrange(hpos + 8, hpos + 16)) as int;
            let need = len * head_size(*te);
            if pos + need > b.len() || (head_size(*te) == 0 && len > usize::MAX) {
                None
            } else {
                match exhumed_seq(*te, b, pos, 0, len, pos + need) {
                    None => None,
                    Some((ws, p1, b1)) => Some(
                        (Val::Slice(pos as u64, ws), p1, splice(b1, hpos, patched_pair(pos, len))),
                    ),
                }
            }
        },
        Ty::Boxed(te) => {
            let need = head_size(*te);
            if pos + need > b.len() {
                None
            } else {
                match exhumed(*te, b, pos, pos + need) {
                    None => None,
                    Some((x, p1, b1)) => Some(
                        (Val::Boxed(pos as u64, Box::new(x)), p1, splice(
                            b1,
                            hpos,
                            spec_u64_to_le_bytes(pos as u64),
                        )),
                    ),
                }
            }
        },
    }
}

/// Reconstructs elements `i` to `n` of a dynamic array whose claimed
/// storage starts at `hbase`, threading the unclaimed region from `pos`.
pub open spec fn exhumed_seq(t: Ty, b: Seq<u8>, hbase: int, i: int, n: int, pos: int) -> Option<
    (Seq<Val>, int, Seq<u8>),
>
    decreases t, 1nat, n - i,
{
    if i >= n {
        Some((Seq::empty(), pos, b))
    } else {
        match exhumed(t, b, hbase + i * head_size(t), pos) {
            None => None,
            Some((w, p1, b1)) => match exhumed_seq(t, b1, hbase, i + 1, n, p1) {
                None => None,
                Some((ws, p2, b2)) => Some((seq![w] + ws, p2, b2)),
            },
        }
    }
}

/// The result of validating a value of type `t` against buffer `b`: the
/// same traversal as reconstruction, but read-only — every address word
/// must already equal the offset reconstruction would write there.
pub open spec fn validated(t: Ty, b: Seq<u8>, hpos: int, pos: int) -> Option<(Val, int)>
    decreases t, 0nat, 0nat,
{
    match t {
        Ty::U8 => Some((Val::U8(b[hpos]), pos)),
        Ty::U16 => Some((Val::U16(spec_u16_from_le_bytes(b.subrange(hpos, hpos + 2))), pos)),
        Ty::U32 => Some((Val::U32(spec_u32_from_le_bytes(b.subrange(hpos, hpos + 4))), pos)),
        Ty::U64 => Some((Val::U64(spec_u64_from_le_bytes(b.subrange(hpos, hpos + 8))), pos)),
        Ty::I8 => Some((Val::I8(i8_val(b[hpos])), pos)),
        Ty::I16 => Some((Val::I16(i16_val(spec_u16_from_le_bytes(b.subrange(hpos, hpos + 2)))), pos)),
        Ty::I32 => Some((Val::I32(i32_val(spec_u32_from_le_bytes(b.subrange(hpos, hpos + 4)))), pos)),
        Ty::I64 => Some((Val::I64(i64_val(spec_u64_from_le_bytes(b.subrange(hpos, hpos + 8)))), pos)),
        Ty::Bool => Some((Val::Bool(b[hpos] != 0), pos)),
        Ty::Unit => Some((Val::Unit, pos)),
        Ty::Pair(ta, tb) => match validated(*ta, b, hpos, pos) {
            None => None,
            Some((x, p1)) => match validated(*tb, b, hpos + head_size(*ta), p1) {
                None => None,
                Some((y, p2)) => Some((Val::Pair(Box::new(x), Box::new(y)), p2)),
            },
        },
        Ty::Opt(te) => if b[hpos] == 0 {
            Some((Val::Opt(None), pos))
        } else {
            match validated(*te, b, hpos + 1, pos) {
                None => None,
                Some((x, p1)) => Some((Val::Opt(Some(Box::new(x))), p1)),
            }
        },
        Ty::Arr(te) => {
            let ad = spec_u64_from_le_bytes(b.subrange(hpos, hpos + 8));
            let len = spec_u64_from_le_bytes(b.subrange(hpos + 8, hpos + 16)) as int;
            let cp = spec_u64_from_le_bytes(b.subrange(hpos + 16, hpos + 24));
            let need = len * head_size(*te);
            if pos + need > b.len() || ad != pos || (head_size(*te) == 0 && len > usize::MAX) {
                None
            } else {
                match validated_seq(*te, b, pos, 0, len, pos + need) {
                    None => None,
                    Some((ws, p1)) => Some((Val::Arr(ad, cp, ws), p1)),
                }
            }
        },
        Ty::Text => {
            let ad = spec_u64_from_le_bytes(b.subrange(hpos, hpos + 8));
            let len = spec_u64_from_le_bytes(b.subrange(hpos + 8, hpos + 16)) as int;
            let cp = spec_u64_from_le_bytes(b.subrange(hpos + 16, hpos + 24));
            if pos + len > b.len() || ad != pos {
                None
            } else {
                Some((Val::Text(ad, cp, b.subrange(pos, pos + len)), pos + len))
            }
        },
        Ty::Slice(te) => {
            let ad = spec_u64_from_le_bytes(b.subrange(hpos, hpos + 8));
            let len = spec_u64_from_le_bytes(b.subrange(hpos + 8, hpos + 16)) as int;
            let need = len * head_size(*te);
            if pos + need > b.len() || ad != pos || (head_size(*te) == 0 && len > usize::MAX) {
                None
            } else {
                match validated_seq(*te, b, pos, 0, len, pos + need) {
                    None => None,
                    Some((ws, p1)) => Some((Val::Slice(ad, ws), p1)),
                }
            }
        },
        Ty::Boxed(te) => {
            let ad = spec_u64_from_le_bytes(b.subrange(hpos, hpos + 8));
            let need = head_size(*te);
            if pos + need > b.len() || ad != pos {
                None
            } else {
                match validated(*te, b, pos, pos + need) {
                    None => None,
                    Some((x, p1)) => Some((Val::Boxed(ad, Box::new(x)), p1)),
                }
            }
        },
    }
}

/// Validates elements `i` to `n` of a dynamic array whose claimed storage
/// starts at `hbase`, threading the remainder from `pos`.
pub open spec fn validated_seq(t: Ty, b: Seq<u8>, hbase: int, i: int, n: int, pos: int) -> Option<
    (Seq<Val>, int),
>
    decreases t, 1nat, n - i,
{
    if i >= n {
        Some((Seq::empty(), pos))
    } else {
        match validated(t, b, hbase + i * head_size(t), pos) {
            None => None,
            Some((w, p1)) => match validated_seq(t, b, hbase, i + 1, n, p1) {
                None => None,
                Some((ws, p2)) => Some((seq![w] + ws, p2)),
            },
        }
    }
}


/// Reconstruction only consumes forward, never past the buffer, and never
/// changes the buffer's length.
pub proof fn lemma_exhumed_bounds(t: Ty, b: Seq<u8>, hpos: int, pos: int)
    requires
        0 <= hpos,
        hpos + head_size(t) <= pos,
        pos <= b.len(),
    ensures
        match exhumed(t, b, hpos, pos) {
            None => true,
            Some(res) => pos <= res.1 <= b.len() && res.2.len() == b.len(),
        },
    decreases t, 0nat, 0nat,
{
    match t {
        Ty::Pair(ta, tb) => {
            lemma_exhumed_bounds(*ta, b, hpos, pos);
            if let Some((x, p1, b1)) = exhumed(*ta, b, hpos, pos) {
                lemma_exhumed_bounds(*tb, b1, hpos + head_size(*ta), p1);
            }
        },
        Ty::Opt(te) => {
            if b[hpos] != 0 {
                lemma_exhumed_bounds(*te, b, hpos + 1, pos);
            }
        },
        Ty::Arr(te) => {
            let len = spec_u64_from_le_bytes(b.subrange(hpos + 8, hpos + 16)) as int;
            let need = len * head_size(*te);
            if !(pos + need > b.len() || (head_size(*te) == 0 && len > usize::MAX)) {
                assert(need >= 0) by (nonlinear_arith)
                    requires len >= 0, head_size(t) >= 0, need == len * head_size(*te), head_size(*te) >= 0,
                ;
                lemma_exhumed_seq_bounds(*te, b, pos, 0, len, pos + need);
                if let Some((ws, p1, b1)) = exhumed_seq(*te, b, pos, 0, len, pos + need) {
                    assert(splice(b1, hpos, patched_words(pos, len)).len() == b1.len()) by {
                        vstd::bytes::lemma_auto_spec_u64_to_from_le_bytes();
                    }
                }
            }
        },
        Ty::Text => {
            let len = spec_u64_from_le_bytes(b.subrange(hpos + 8, hpos + 16)) as int;
            if !(pos + len > b.len()) {
                assert(splice(b, hpos, patched_words(pos, len)).len() == b.len()) by {
                    vstd::bytes::lemma_auto_spec_u64_to_from_le_bytes();
                }
            }
        },
        Ty::Slice(te) => {
            let len = spec_u64_from_le_bytes(b.subrange(hpos + 8, hpos + 16)) as int;
            let need = len * head_size(*te);
            if !(pos + need > b.len() || (head_size(*te) == 0 && len > usize::MAX)) {
                assert(need >= 0) by (nonlinear_arith)
                    requires len >= 0, need == len * head_size(*te), head_size(*te) >= 0,
                ;
                lemma_exhumed_seq_bounds(*te, b, pos, 0, len, pos + need);
                if let Some((ws, p1, b1)) = exhumed_seq(*te, b, pos, 0, len, pos + need) {
                    assert(splice(b1, hpos, patched_pair(pos, len)).len() == b1.len()) by {
                        vstd::bytes::lemma_auto_spec_u64_to_from_le_bytes();
                    }
                }
            }
        },
        Ty::Boxed(te) => {
            let need = head_size(*te);
            if !(pos + need > b.len()) {
                lemma_exhumed_bounds(*te, b, pos, pos + need);
                if let Some((x, p1, b1)) = exhumed(*te, b, pos, pos + need) {
                    assert(splice(b1, hpos, spec_u64_to_le_bytes(pos as u64)).len() == b1.len())
                        by {
                        vstd::bytes::lemma_auto_spec_u64_to_from_le_bytes();
                    }
                }
            }
        },
        _ => {},
    }
}

/// Element reconstruction likewise only consumes forward.
pub proof fn lemma_exhumed_seq_bounds(t: Ty, b: Seq<u8>, hbase: int, i: int, n: int, pos: int)
    requires
        0 <= hbase,
        0 <= i,
        hbase + n * head_size(t) <= pos,
        pos <= b.len(),
    ensures
        match exhumed_seq(t, b, hbase, i, n, pos) {
            None => true,
            Some(res) => pos <= res.1 <= b.len() && res.2.len() == b.len() && res.0.len() == if i
                <= n {
                n - i
            } else {
                0
            },
        },
    decreases t, 1nat, n - i,
{
    if i >= n {
    } else {
        assert(hbase + i * head_size(t) + head_size(t) <= hbase + n * head_size(t))
            by (nonlinear_arith)
            requires 0 <= i, i < n, head_size(t) >= 0,
        ;
        assert(hbase + i * head_size(t) >= 0) by (nonlinear_arith)
            requires hbase >= 0, i >= 0, head_size(t) >= 0,
        ;
        lemma_exhumed_bounds(t, b, hbase + i * head_size(t), pos);
        if let Some((w, p1, b1)) = exhumed(t, b, hbase + i * head_size(t), pos) {
            lemma_exhumed_seq_bounds(t, b1, hbase, i + 1, n, p1);
        }
    }
}

/// Validation only consumes forward and never past the buffer.
pub proof fn lemma_validated_bounds(t: Ty, b: Seq<u8>, hpos: int, pos: int)
    requires
        0 <= hpos,
        hpos + head_size(t) <= pos,
        pos <= b.len(),
    ensures
        match validated(t, b, hpos, pos) {
            None => true,
            Some(res) => pos <= res.1 <= b.len(),
        },
    decreases t, 0nat, 0nat,
{
    match t {
        Ty::Pair(ta, tb) => {
            lemma_validated_bounds(*ta, b, hpos, pos);
            if let Some((x, p1)) = validated(*ta, b, hpos, pos) {
                lemma_validated_bounds(*tb, b, hpos + head_size(*ta), p1);
            }
        },
        Ty::Opt(te) => {
            if b[hpos] != 0 {
                lemma_validated_bounds(*te, b, hpos + 1, pos);
            }
        },
        Ty::Arr(te) => {
            let len = spec_u64_from_le_bytes(b.subrange(hpos + 8, hpos + 16)) as int;
            let need = len * head_size(*te);
            let ad = spec_u64_from_le_bytes(b.subrange(hpos, hpos + 8));
            if !(pos + need > b.len() || ad != pos || (head_size(*te) == 0 && len > usize::MAX)) {
                assert(need >= 0) by (nonlinear_arith)
                    requires len >= 0, need == len * head_size(*te), head_size(*te) >= 0,
                ;
                lemma_validated_seq_bounds(*te, b, pos, 0, len, pos + need);
            }
        },
        Ty::Slice(te) => {
            let len = spec_u64_from_le_bytes(b.subrange(hpos + 8, hpos + 16)) as int;
            let need = len * head_size(*te);
            let ad = spec_u64_from_le_bytes(b.subrange(hpos, hpos + 8));
            if !(pos + need > b.len() || ad != pos || (head_size(*te) == 0 && len > usize::MAX)) {
                assert(need >= 0) by (nonlinear_arith)
                    requires len >= 0, need == len * head_size(*te), head_size(*te) >= 0,
                ;
                lemma_validated_seq_bounds(*te, b, pos, 0, len, pos + need);
            }
        },
        Ty::Boxed(te) => {
            let need = head_size(*te);
            let ad = spec_u64_from_le_bytes(b.subrange(hpos, hpos + 8));
            if !(pos + need > b.len() || ad != pos) {
                lemma_validated_bounds(*te, b, pos, pos + need);
            }
        },
        _ => {},
    }
}

/// Element validation likewise only consumes forward.
pub proof fn lemma_validated_seq_bounds(t: Ty, b: Seq<u8>, hbase: int, i: int, n: int, pos: int)
    requires
        0 <= hbase,
        0 <= i,
        hbase + n * head_size(t) <= pos,
        pos <= b.len(),
    ensures
        match validated_seq(t, b, hbase, i, n, pos) {
            None => true,
            Some(res) => pos <= res.1 <= b.len() && res.0.len() == if i <= n {
                n - i
            } else {
                0
            },
        },
    decreases t, 1nat, n - i,
{
    if i >= n {
    } else {
        assert(hbase + i * head_size(t) + head_size(t) <= hbase + n * head_size(t))
            by (nonlinear_arith)
            requires 0 <= i, i < n, head_size(t) >= 0,
        ;
        assert(hbase + i * head_size(t) >= 0) by (nonlinear_arith)
            requires hbase >= 0, i >= 0, head_size(t) >= 0,
        ;
        lemma_validated_bounds(t, b, hbase + i * head_size(t), pos);
        if let Some((w, p1)) = validated(t, b, hbase + i * head_size(t), pos) {
            lemma_validated_seq_bounds(t, b, hbase, i + 1, n, p1);
        }
    }
}



/// Reconstructs a dynamic array: claims the element storage, decodes each element against the remainder in order, and patches the three header words.
#[verifier::loop_isolation(false)]
#[verifier::rlimit(100)]
#[verifier::spinoff_prover]
fn exhume_array(t: &Ty, b: &mut Vec<u8>, hpos: usize, pos: usize) -> (r: Option<(Value, usize)>)
    requires
        t is Arr,
        hpos + head_size(*t) <= pos,
        pos <= old(b).len(),
    ensures
        final(b)@.len() == old(b)@.len(),
        match exhumed(*t, old(b)@, hpos as int, pos as int) {
            None => r is None,
            Some(res) => r matches Some(x) && x.0@ == res.0 && x.1 as int == res.1 && final(b)@
                == res.2,
        },
    decreases *t, 0int,
{
    let tee = match t {
        Ty::Arr(x) => x,
        _ => unreached(),
    };

            let len64 = read_u64(b, hpos + 8);
            let ghost glen = spec_u64_from_le_bytes(old(b)@.subrange(
                hpos as int + 8,
                hpos as int + 16,
            )) as int;
            let ghost ghs = head_size(**tee);
            let ghost gneed = glen * ghs;
            let he = match head_size_of(tee) {
                Some(h) => h,
                None => {
                    if len64 == 0 {
                        let mut elems: Vec<Value> = Vec::new();
                        set_u64(b, hpos, pos as u64);
                        set_u64(b, hpos + 8, 0);
                        set_u64(b, hpos + 16, 0);
                        proof {
                            assert(gneed == 0) by (nonlinear_arith)
                                requires glen == 0, gneed == glen * ghs,
                            ;
                            assert(exhumed_seq(**tee, old(b)@, pos as int, 0, 0, pos as int)
                                == Some((Seq::<Val>::empty(), pos as int, old(b)@)));
                            assert(vals_of(elems, 0) =~= Seq::<Val>::empty());
                            assert(final(b)@ =~= splice(old(b)@, hpos as int, patched_words(
                                pos as int,
                                0,
                            ))) by {
                                vstd::bytes::lemma_auto_spec_u64_to_from_le_bytes();
                            }
                            assert(final(b)@.len() == old(b)@.len()) by {
                                vstd::bytes::lemma_auto_spec_u64_to_from_le_bytes();
                            }
                        }
                        return Some((Value::Arr(pos as u64, 0, elems), pos));
                    } else {
                        proof {
                            assert(gneed >= ghs) by (nonlinear_arith)
                                requires glen >= 1, gneed == glen * ghs, ghs >= 0,
                            ;
                        }
                        return None;
                    }
                },
            };
            proof {
                assert((len64 as int) * (he as int) <= 0xffffffffffffffff * 0xffffffffffffffff)
                    by (nonlinear_arith)
                    requires len64 <= 0xffffffffffffffff, he as int <= 0xffffffffffffffff,
                        len64 >= 0, he >= 0,
                ;
            }
            let need128: u128 = (len64 as u128) * (he as u128);
            let avail: u128 = (b.len() - pos) as u128;
            if need128 > avail {
                proof {
                    assert(gneed == need128) by (nonlinear_arith)
                        requires glen == len64 as int, ghs == he as int, gneed == glen * ghs,
                            need128 == (len64 as u128) * (he as u128), len64 <= u64::MAX,
                            he <= usize::MAX,
                    ;
                }
                return None;
            }
            if he == 0 && len64 > (usize::MAX as u64) {
                return None;
            }
            proof {
                assert(gneed == need128) by (nonlinear_arith)
                    requires glen == len64 as int, ghs == he as int, gneed == glen * ghs,
                        need128 == (len64 as u128) * (he as u128), len64 <= u64::MAX,
                        he <= usize::MAX,
                ;
                if he > 0 {
                    assert(glen <= gneed) by (nonlinear_arith)
                        requires glen >= 0, ghs >= 1, gneed == glen * ghs,
                    ;
                }
            }
            let len: usize = len64 as usize;
            let need: usize = need128 as usize;
            let mut elems: Vec<Value> = Vec::new();
            let mut tp: usize = pos + need;
            let mut i: usize = 0;
            let ghost b0 = old(b)@;
            while i < len
                invariant
                    i <= len,
                    elems@.len() == i,
                    b@.len() == b0.len(),
                    pos + need <= tp <= b@.len(),
                    exhumed_seq(**tee, b0, pos as int, 0, len as int, pos as int + need as int)
                        == match exhumed_seq(**tee, b@, pos as int, i as int, len as int, tp as int) {
                        None => None::<(Seq<Val>, int, Seq<u8>)>,
                        Some(res) => Some((vals_of(elems, 0) + res.0, res.1, res.2)),
                    },
                decreases len - i,
            {
                proof {
                    broadcast use lemma_vals_of;

                    assert(i as int * (he as int) + he <= need) by (nonlinear_arith)
                        requires 0 <= i < len, need == len * he,
                    ;
                }
                let ehpos = pos + i * he;
                let ghost bpre = b@;
                let ghost tppre = tp as int;
                match exhume_value(tee, b, ehpos, tp) {
                    None => {
                        proof {
                            assert(exhumed_seq(
                                **tee,
                                bpre,
                                pos as int,
                                i as int,
                                len as int,
                                tppre,
                            ) is None);
                        }
                        return None;
                    },
                    Some((w, p1)) => {
                        proof {
                            lemma_exhumed_bounds(**tee, bpre, ehpos as int, tppre);
                        }
                        let ghost elems0 = elems;
                        elems.push(w);
                        tp = p1;
                        i = i + 1;
                        proof {
                            broadcast use lemma_vals_of;

                            assert(vals_of(elems, 0) =~= vals_of(elems0, 0).push(w@));
                            assert forall|ws: Seq<Val>|
                                true implies vals_of(elems0, 0) + (seq![w@] + ws) =~= vals_of(
                                elems,
                                0,
                            ) + ws by {}
                        }
                    },
                }
            }
            proof {
                assert(exhumed_seq(**tee, b@, pos as int, len as int, len as int, tp as int)
                    == Some((Seq::<Val>::empty(), tp as int, b@)));
                assert(vals_of(elems, 0) + Seq::<Val>::empty() =~= vals_of(elems, 0));
            }
            let ghost bloop = b@;
            set_u64(b, hpos, pos as u64);
            set_u64(b, hpos + 8, len64);
            set_u64(b, hpos + 16, len64);
            proof {
                vstd::bytes::lemma_auto_spec_u64_to_from_le_bytes();
                assert(final(b)@ =~= splice(bloop, hpos as int, patched_words(
                    pos as int,
                    len as int,
                )));
            }
            return Some((Value::Arr(pos as u64, len64, elems), tp));
        
}

/// Reconstructs a borrowed slice: claims the element storage, decodes each element against the remainder in order, and patches the two header words.
#[verifier::loop_isolation(false)]
#[verifier::rlimit(100)]
#[verifier::spinoff_prover]
fn exhume_slice(t: &Ty, b: &mut Vec<u8>, hpos: usize, pos: usize) -> (r: Option<(Value, usize)>)
    requires
        t is Slice,
        hpos + head_size(*t) <= pos,
        pos <= old(b).len(),
    ensures
        final(b)@.len() == old(b)@.len(),
        match exhumed(*t, old(b)@, hpos as int, pos as int) {
            None => r is None,
            Some(res) => r matches Some(x) && x.0@ == res.0 && x.1 as int == res.1 && final(b)@
                == res.2,
        },
    decreases *t, 0int,
{
    let tee = match t {
        Ty::Slice(x) => x,
        _ => unreached(),
    };

            let len64 = read_u64(b, hpos + 8);
            let ghost glen = spec_u64_from_le_bytes(old(b)@.subrange(
                hpos as int + 8,
                hpos as int + 16,
            )) as int;
            let ghost ghs = head_size(**tee);
            let ghost gneed = glen * ghs;
            let he = match head_size_of(tee) {
                Some(h) => h,
                None => {
                    if len64 == 0 {
                        let mut elems: Vec<Value> = Vec::new();
                        set_u64(b, hpos, pos as u64);
                        set_u64(b, hpos + 8, 0);
                        proof {
                            assert(gneed == 0) by (nonlinear_arith)
                                requires glen == 0, gneed == glen * ghs,
                            ;
                            assert(exhumed_seq(**tee, old(b)@, pos as int, 0, 0, pos as int)
                                == Some((Seq::<Val>::empty(), pos as int, old(b)@)));
                            assert(vals_of(elems, 0) =~= Seq::<Val>::empty());
                            assert(final(b)@ =~= splice(old(b)@, hpos as int, patched_pair(
                                pos as int,
                                0,
                            ))) by {
                                vstd::bytes::lemma_auto_spec_u64_to_from_le_bytes();
                            }
                            assert(final(b)@.len() == old(b)@.len()) by {
                                vstd::bytes::lemma_auto_spec_u64_to_from_le_bytes();
                            }
                        }
                        return Some((Value::Slice(pos as u64, elems), pos));
                    } else {
                        proof {
                            assert(gneed >= ghs) by (nonlinear_arith)
                                requires glen >= 1, gneed == glen * ghs, ghs >= 0,
                            ;
                        }
                        return None;
                    }
                },
            };
            proof {
                assert((len64 as int) * (he as int) <= 0xffffffffffffffff * 0xffffffffffffffff)
                    by (nonlinear_arith)
                    requires len64 <= 0xffffffffffffffff, he as int <= 0xffffffffffffffff,
                        len64 >= 0, he >= 0,
                ;
            }
            let need128: u128 = (len64 as u128) * (he as u128);
            let avail: u128 = (b.len() - pos) as u128;
            if need128 > avail {
                proof {
                    assert(gneed == need128) by (nonlinear_arith)
                        requires glen == len64 as int, ghs == he as int, gneed == glen * ghs,
                            need128 == (len64 as u128) * (he as u128), len64 <= u64::MAX,
                            he <= usize::MAX,
                    ;
                }
                return None;
            }
            if he == 0 && len64 > (usize::MAX as u64) {
                return None;
            }
            proof {
                assert(gneed == need128) by (nonlinear_arith)
                    requires glen == len64 as int, ghs == he as int, gneed == glen * ghs,
                        need128 == (len64 as u128) * (he as u128), len64 <= u64::MAX,
                        he <= usize::MAX,
                ;
                if he > 0 {
                    assert(glen <= gneed) by (nonlinear_arith)
                        requires glen >= 0, ghs >= 1, gneed == glen * ghs,
                    ;
                }
            }
            let len: usize = len64 as usize;
            let need: usize = need128 as usize;
            let mut elems: Vec<Value> = Vec::new();
            let mut tp: usize = pos + need;
            let mut i: usize = 0;
            let ghost b0 = old(b)@;
            while i < len
                invariant
                    i <= len,
                    elems@.len() == i,
                    b@.len() == b0.len(),
                    pos + need <= tp <= b@.len(),
                    exhumed_seq(**tee, b0, pos as int, 0, len as int, pos as int + need as int)
                        == match exhumed_seq(**tee, b@, pos as int, i as int, len as int, tp as int) {
                        None => None::<(Seq<Val>, int, Seq<u8>)>,
                        Some(res) => Some((vals_of(elems, 0) + res.0, res.1, res.2)),
                    },
                decreases len - i,
            {
                proof {
                    broadcast use lemma_vals_of;

                    assert(i as int * (he as int) + he <= need) by (nonlinear_arith)
                        requires 0 <= i < len, need == len * he,
                    ;
                }
                let ehpos = pos + i * he;
                let ghost bpre = b@;
                let ghost tppre = tp as int;
                match exhume_value(tee, b, ehpos, tp) {
                    None => {
                        proof {
                            assert(exhumed_seq(
                                **tee,
                                bpre,
                                pos as int,
                                i as int,
                                len as int,
                                tppre,
                            ) is None);
                        }
                        return None;
                    },
                    Some((w, p1)) => {
                        proof {
                            lemma_exhumed_bounds(**tee, bpre, ehpos as int, tppre);
                        }
                        let ghost elems0 = elems;
                        elems.push(w);
                        tp = p1;
                        i = i + 1;
                        proof {
                            broadcast use lemma_vals_of;

                            assert(vals_of(elems, 0) =~= vals_of(elems0, 0).push(w@));
                            assert forall|ws: Seq<Val>|
                                true implies vals_of(elems0, 0) + (seq![w@] + ws) =~= vals_of(
                                elems,
                                0,
                            ) + ws by {}
                        }
                    },
                }
            }
            proof {
                assert(exhumed_seq(**tee, b@, pos as int, len as int, len as int, tp as int)
                    == Some((Seq::<Val>::empty(), tp as int, b@)));
                assert(vals_of(elems, 0) + Seq::<Val>::empty() =~= vals_of(elems, 0));
            }
            let ghost bloop = b@;
            set_u64(b, hpos, pos as u64);
            set_u64(b, hpos + 8, len64);
            proof {
                vstd::bytes::lemma_auto_spec_u64_to_from_le_bytes();
                assert(final(b)@ =~= splice(bloop, hpos as int, patched_pair(
                    pos as int,
                    len as int,
                )));
            }
            return Some((Value::Slice(pos as u64, elems), tp));
        
}

/// Destructively reconstructs a value of type `t` whose header sits at
/// `hpos` in `b` and whose tail region starts at `pos`: patches every
/// address word in the buffer to the offset of its claimed region and hands
/// back the decoded value with the offset of the first unclaimed byte.
/// Fails exactly when the tail region is too short; a failed attempt may
/// leave address words partially patched, but never changes the buffer's
/// length or any byte outside its header and tail regions.
#[verifier::loop_isolation(false)]
#[verifier::rlimit(100)]
#[verifier::spinoff_prover]
pub fn exhume_value(t: &Ty, b: &mut Vec<u8>, hpos: usize, pos: usize) -> (r: Option<(Value, usize)>)
    requires
        hpos + head_size(*t) <= pos,
        pos <= old(b).len(),
    ensures
        final(b)@.len() == old(b)@.len(),
        match exhumed(*t, old(b)@, hpos as int, pos as int) {
            None => r is None,
            Some(res) => r matches Some(x) && x.0@ == res.0 && x.1 as int == res.1 && final(b)@
                == res.2,
        },
    decreases *t,
{
    match t {
        Ty::U8 => {
            let x = b[hpos];
            return Some((Value::U8(x), pos));
        },
        Ty::U16 => {
            let x = read_u16(b, hpos);
            return Some((Value::U16(x), pos));
        },
        Ty::U32 => {
            let x = read_u32(b, hpos);
            return Some((Value::U32(x), pos));
        },
        Ty::U64 => {
            let x = read_u64(b, hpos);
            return Some((Value::U64(x), pos));
        },
        Ty::I8 => {
            let x = i8_from_bits(b[hpos]);
            return Some((Value::I8(x), pos));
        },
        Ty::I16 => {
            let x = i16_from_bits(read_u16(b, hpos));
            return Some((Value::I16(x), pos));
        },
        Ty::I32 => {
            let x = i32_from_bits(read_u32(b, hpos));
            return Some((Value::I32(x), pos));
        },
        Ty::I64 => {
            let x = i64_from_bits(read_u64(b, hpos));
            return Some((Value::I64(x), pos));
        },
        Ty::Bool => {
            let x = b[hpos] != 0;
            return Some((Value::Bool(x), pos));
        },
        Ty::Unit => {
            return Some((Value::Unit, pos));
        },
        Ty::Pair(ta, tb) => {
            let ha = match head_size_of(ta) {
                Some(h) => h,
                None => unreached(),
            };
            match exhume_value(ta, b, hpos, pos) {
                None => {
                    return None;
                },
                Some((x, p1)) => {
                    proof {
                        lemma_exhumed_bounds(**ta, old(b)@, hpos as int, pos as int);
                    }
                    match exhume_value(tb, b, hpos + ha, p1) {
                        None => {
                            return None;
                        },
                        Some((y, p2)) => {
                            return Some((Value::Pair(Box::new(x), Box::new(y)), p2));
                        },
                    }
                },
            }
        },
        Ty::Opt(te) => {
            let tag = b[hpos];
            if tag == 0 {
                proof {
                    assert(Value::Opt(None)@ == Val::Opt(None));
                }
                return Some((Value::Opt(None), pos));
            } else {
                match exhume_value(te, b, hpos + 1, pos) {
                    None => {
                        return None;
                    },
                    Some((x, p1)) => {
                        return Some((Value::Opt(Some(Box::new(x))), p1));
                    },
                }
            }
        },
        Ty::Arr(_) => {
            return exhume_array(t, b, hpos, pos);
        },
        Ty::Text => {
            let len64 = read_u64(b, hpos + 8);
            if len64 > ((b.len() - pos) as u64) {
                return None;
            }
            let len: usize = len64 as usize;
            let mut d: Vec<u8> = Vec::new();
            let mut j: usize = 0;
            while j < len
                invariant
                    j <= len,
                    d@ == old(b)@.subrange(pos as int, pos as int + j as int),
                    b@ == old(b)@,
                decreases len - j,
            {
                d.push(b[pos + j]);
                proof {
                    assert(d@ =~= old(b)@.subrange(pos as int, pos as int + j as int + 1));
                }
                j = j + 1;
            }
            set_u64(b, hpos, pos as u64);
            set_u64(b, hpos + 8, len64);
            set_u64(b, hpos + 16, len64);
            proof {
                vstd::bytes::lemma_auto_spec_u64_to_from_le_bytes();
                assert(final(b)@ =~= splice(old(b)@, hpos as int, patched_words(
                    pos as int,
                    len as int,
                )));
            }
            return Some((Value::Text(pos as u64, len64, d), pos + len));
        },
        Ty::Slice(_) => {
            return exhume_slice(t, b, hpos, pos);
        },
        Ty::Boxed(te) => {
            let he = match head_size_of(te) {
                Some(h) => h,
                None => {
                    return None;
                },
            };
            if he > b.len() - pos {
                return None;
            }
            match exhume_value(te, b, pos, pos + he) {
                None => {
                    return None;
                },
                Some((x, p1)) => {
                    proof {
                        lemma_exhumed_bounds(**te, old(b)@, pos as int, pos as int + he as int);
                    }
                    set_u64(b, hpos, pos as u64);
                    proof {
                        vstd::bytes::lemma_auto_spec_u64_to_from_le_bytes();
                    }
                    return Some((Value::Boxed(pos as u64, Box::new(x)), p1));
                },
            }
        },
    }
}


/// Validates a value of type `t` whose header sits at `hpos` in `b` and
/// whose tail region starts at `pos`, without writing anything: confirms
/// that every address word already holds the offset reconstruction would
/// produce, and hands back the value the buffer describes with the offset
/// of the first byte it does not cover. Fails on a short tail or on any
/// address mismatch.
#[verifier::loop_isolation(false)]
#[verifier::rlimit(100)]
#[verifier::spinoff_prover]
pub fn validate_value(t: &Ty, b: &Vec<u8>, hpos: usize, pos: usize) -> (r: Option<(Value, usize)>)
    requires
        hpos + head_size(*t) <= pos,
        pos <= b.len(),
    ensures
        match validated(*t, b@, hpos as int, pos as int) {
            None => r is None,
            Some(res) => r matches Some(x) && x.0@ == res.0 && x.1 as int == res.1,
        },
    decreases *t,
{
    match t {
        Ty::U8 => {
            let x = b[hpos];
            return Some((Value::U8(x), pos));
        },
        Ty::U16 => {
            let x = read_u16(b, hpos);
            return Some((Value::U16(x), pos));
        },
        Ty::U32 => {
            let x = read_u32(b, hpos);
            return Some((Value::U32(x), pos));
        },
        Ty::U64 => {
            let x = read_u64(b, hpos);
            return Some((Value::U64(x), pos));
        },
        Ty::I8 => {
            let x = i8_from_bits(b[hpos]);
            return Some((Value::I8(x), pos));
        },
        Ty::I16 => {
            let x = i16_from_bits(read_u16(b, hpos));
            return Some((Value::I16(x), pos));
        },
        Ty::I32 => {
            let x = i32_from_bits(read_u32(b, hpos));
            return Some((Value::I32(x), pos));
        },
        Ty::I64 => {
            let x = i64_from_bits(read_u64(b, hpos));
            return Some((Value::I64(x), pos));
        },
        Ty::Bool => {
            let x = b[hpos] != 0;
            return Some((Value::Bool(x), pos));
        },
        Ty::Unit => {
            return Some((Value::Unit, pos));
        },
        Ty::Pair(ta, tb) => {
            let ha = match head_size_of(ta) {
                Some(h) => h,
                None => unreached(),
            };
            match validate_value(ta, b, hpos, pos) {
                None => {
                    return None;
                },
                Some((x, p1)) => {
                    proof {
                        lemma_validated_bounds(**ta, b@, hpos as int, pos as int);
                    }
                    match validate_value(tb, b, hpos + ha, p1) {
                        None => {
                            return None;
                        },
                        Some((y, p2)) => {
                            return Some((Value::Pair(Box::new(x), Box::new(y)), p2));
                        },
                    }
                },
            }
        },
        Ty::Opt(te) => {
            let tag = b[hpos];
            if tag == 0 {
                proof {
                    assert(Value::Opt(None)@ == Val::Opt(None));
                }
                return Some((Value::Opt(None), pos));
            } else {
                match validate_value(te, b, hpos + 1, pos) {
                    None => {
                        return None;
                    },
                    Some((x, p1)) => {
                        return Some((Value::Opt(Some(Box::new(x))), p1));
                    },
                }
            }
        },
        Ty::Arr(te) => {
            let ad64 = read_u64(b, hpos);
            let len64 = read_u64(b, hpos + 8);
            let cap64 = read_u64(b, hpos + 16);
            if ad64 != pos as u64 {
                return None;
            }
            let ghost glen = len64 as int;
            let ghost ghs = head_size(**te);
            let ghost gneed = glen * ghs;
            let he = match head_size_of(te) {
                Some(h) => h,
                None => {
                    if len64 == 0 {
                        let elems: Vec<Value> = Vec::new();
                        proof {
                            assert(gneed == 0) by (nonlinear_arith)
                                requires glen == 0, gneed == glen * ghs,
                            ;
                            assert(validated_seq(**te, b@, pos as int, 0, 0, pos as int)
                                == Some((Seq::<Val>::empty(), pos as int)));
                            assert(vals_of(elems, 0) =~= Seq::<Val>::empty());
                        }
                        return Some((Value::Arr(ad64, cap64, elems), pos));
                    } else {
                        proof {
                            assert(gneed >= ghs) by (nonlinear_arith)
                                requires glen >= 1, gneed == glen * ghs, ghs >= 0,
                            ;
                        }
                        return None;
                    }
                },
            };
            proof {
                assert((len64 as int) * (he as int) <= 0xffffffffffffffff * 0xffffffffffffffff)
                    by (nonlinear_arith)
                    requires len64 <= 0xffffffffffffffff, he as int <= 0xffffffffffffffff,
                        len64 >= 0, he >= 0,
                ;
            }
            let need128: u128 = (len64 as u128) * (he as u128);
            let avail: u128 = (b.len() - pos) as u128;
            if need128 > avail {
                proof {
                    assert(gneed == need128) by (nonlinear_arith)
                        requires glen == len64 as int, ghs == he as int, gneed == glen * ghs,
                            need128 == (len64 as u128) * (he as u128), len64 <= u64::MAX,
                            he <= usize::MAX,
                    ;
                }
                return None;
            }
            if he == 0 && len64 > (usize::MAX as u64) {
                return None;
            }
            proof {
                assert(gneed == need128) by (nonlinear_arith)
                    requires glen == len64 as int, ghs == he as int, gneed == glen * ghs,
                        need128 == (len64 as u128) * (he as u128), len64 <= u64::MAX,
                        he <= usize::MAX,
                ;
                if he > 0 {
                    assert(glen <= gneed) by (nonlinear_arith)
                        requires glen >= 0, ghs >= 1, gneed == glen * ghs,
                    ;
                }
            }
            let len: usize = len64 as usize;
            let need: usize = need128 as usize;
            let mut elems: Vec<Value> = Vec::new();
            let mut tp: usize = pos + need;
            let mut i: usize = 0;
            while i < len
                invariant
                    i <= len,
                    elems@.len() == i,
                    pos + need <= tp <= b@.len(),
                    validated_seq(**te, b@, pos as int, 0, len as int, pos as int + need as int)
                        == match validated_seq(**te, b@, pos as int, i as int, len as int, tp as int) {
                        None => None::<(Seq<Val>, int)>,
                        Some(res) => Some((vals_of(elems, 0) + res.0, res.1)),
                    },
                decreases len - i,
            {
                proof {
                    broadcast use lemma_vals_of;

                    assert(i as int * (he as int) + he <= need) by (nonlinear_arith)
                        requires 0 <= i < len, need == len * he,
                    ;
                }
                let ehpos = pos + i * he;
                match validate_value(te, b, ehpos, tp) {
                    None => {
                        return None;
                    },
                    Some((w, p1)) => {
                        proof {
                            lemma_validated_bounds(**te, b@, ehpos as int, tp as int);
                        }
                        let ghost elems0 = elems;
                        elems.push(w);
                        tp = p1;
                        i = i + 1;
                        proof {
                            broadcast use lemma_vals_of;

                            assert(vals_of(elems, 0) =~= vals_of(elems0, 0).push(w@));
                            assert forall|ws: Seq<Val>|
                                true implies vals_of(elems0, 0) + (seq![w@] + ws) =~= vals_of(
                                elems,
                                0,
                            ) + ws by {}
                        }
                    },
                }
            }
            proof {
                assert(validated_seq(**te, b@, pos as int, len as int, len as int, tp as int)
                    == Some((Seq::<Val>::empty(), tp as int)));
                assert(vals_of(elems, 0) + Seq::<Val>::empty() =~= vals_of(elems, 0));
            }
            return Some((Value::Arr(ad64, cap64, elems), tp));
        },
        Ty::Text => {
            let ad64 = read_u64(b, hpos);
            let len64 = read_u64(b, hpos + 8);
            let cap64 = read_u64(b, hpos + 16);
            if ad64 != pos as u64 {
                return None;
            }
            if len64 > ((b.len() - pos) as u64) {
                return None;
            }
            let len: usize = len64 as usize;
            let mut d: Vec<u8> = Vec::new();
            let mut j: usize = 0;
            while j < len
                invariant
                    j <= len,
                    d@ == b@.subrange(pos as int, pos as int + j as int),
                decreases len - j,
            {
                d.push(b[pos + j]);
                proof {
                    assert(d@ =~= b@.subrange(pos as int, pos as int + j as int + 1));
                }
                j = j + 1;
            }
            return Some((Value::Text(ad64, cap64, d), pos + len));
        },
        Ty::Slice(te) => {
            let ad64 = read_u64(b, hpos);
            let len64 = read_u64(b, hpos + 8);
            if ad64 != pos as u64 {
                return None;
            }
            let ghost glen = len64 as int;
            let ghost ghs = head_size(**te);
            let ghost gneed = glen * ghs;
            let he = match head_size_of(te) {
                Some(h) => h,
                None => {
                    if len64 == 0 {
                        let elems: Vec<Value> = Vec::new();
                        proof {
                            assert(gneed == 0) by (nonlinear_arith)
                                requires glen == 0, gneed == glen * ghs,
                            ;
                            assert(validated_seq(**te, b@, pos as int, 0, 0, pos as int)
                                == Some((Seq::<Val>::empty(), pos as int)));
                            assert(vals_of(elems, 0) =~= Seq::<Val>::empty());
                        }
                        return Some((Value::Slice(ad64, elems), pos));
                    } else {
                        proof {
                            assert(gneed >= ghs) by (nonlinear_arith)
                                requires glen >= 1, gneed == glen * ghs, ghs >= 0,
                            ;
                        }
                        return None;
                    }
                },
            };
            proof {
                assert((len64 as int) * (he as int) <= 0xffffffffffffffff * 0xffffffffffffffff)
                    by (nonlinear_arith)
                    requires len64 <= 0xffffffffffffffff, he as int <= 0xffffffffffffffff,
                        len64 >= 0, he >= 0,
                ;
            }
            let need128: u128 = (len64 as u128) * (he as u128);
            let avail: u128 = (b.len() - pos) as u128;
            if need128 > avail {
                proof {
                    assert(gneed == need128) by (nonlinear_arith)
                        requires glen == len64 as int, ghs == he as int, gneed == glen * ghs,
                            need128 == (len64 as u128) * (he as u128), len64 <= u64::MAX,
                            he <= usize::MAX,
                    ;
                }
                return None;
            }
            if he == 0 && len64 > (usize::MAX as u64) {
                return None;
            }
            proof {
                assert(gneed == need128) by (nonlinear_arith)
                    requires glen == len64 as int, ghs == he as int, gneed == glen * ghs,
                        need128 == (len64 as u128) * (he as u128), len64 <= u64::MAX,
                        he <= usize::MAX,
                ;
                if he > 0 {
                    assert(glen <= gneed) by (nonlinear_arith)
                        requires glen >= 0, ghs >= 1, gneed == glen * ghs,
                    ;
                }
            }
            let len: usize = len64 as usize;
            let need: usize = need128 as usize;
            let mut elems: Vec<Value> = Vec::new();
            let mut tp: usize = pos + need;
            let mut i: usize = 0;
            while i < len
                invariant
                    i <= len,
                    elems@.len() == i,
                    pos + need <= tp <= b@.len(),
                    validated_seq(**te, b@, pos as int, 0, len as int, pos as int + need as int)
                        == match validated_seq(**te, b@, pos as int, i as int, len as int, tp as int) {
                        None => None::<(Seq<Val>, int)>,
                        Some(res) => Some((vals_of(elems, 0) + res.0, res.1)),
                    },
                decreases len - i,
            {
                proof {
                    broadcast use lemma_vals_of;

                    assert(i as int * (he as int) + he <= need) by (nonlinear_arith)
                        requires 0 <= i < len, need == len * he,
                    ;
                }
                let ehpos = pos + i * he;
                match validate_value(te, b, ehpos, tp) {
                    None => {
                        return None;
                    },
                    Some((w, p1)) => {
                        proof {
                            lemma_validated_bounds(**te, b@, ehpos as int, tp as int);
                        }
                        let ghost elems0 = elems;
                        elems.push(w);
                        tp = p1;
                        i = i + 1;
                        proof {
                            broadcast use lemma_vals_of;

                            assert(vals_of(elems, 0) =~= vals_of(elems0, 0).push(w@));
                            assert forall|ws: Seq<Val>|
                                true implies vals_of(elems0, 0) + (seq![w@] + ws) =~= vals_of(
                                elems,
                                0,
                            ) + ws by {}
                        }
                    },
                }
            }
            proof {
                assert(validated_seq(**te, b@, pos as int, len as int, len as int, tp as int)
                    == Some((Seq::<Val>::empty(), tp as int)));
                assert(vals_of(elems, 0) + Seq::<Val>::empty() =~= vals_of(elems, 0));
            }
            return Some((Value::Slice(ad64, elems), tp));
        },
        Ty::Boxed(te) => {
            let ad64 = read_u64(b, hpos);
            if ad64 != pos as u64 {
                return None;
            }
            let he = match head_size_of(te) {
                Some(h) => h,
                None => {
                    return None;
                },
            };
            if he > b.len() - pos {
                return None;
            }
            match validate_value(te, b, pos, pos + he) {
                None => {
                    return None;
                },
                Some((x, p1)) => {
                    return Some((Value::Boxed(ad64, Box::new(x)), p1));
                },
            }
        },
    }
}

} // verus!
