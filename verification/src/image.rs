//! The binary image: what the writer side of the protocol produces.
//!
//! `head_bytes` is the byte-for-byte header of a value; `tail_bytes` is the
//! depth-first serialization of everything the value owns indirectly. The
//! image of a value is its neutralized header followed by its tail, and the
//! tail of a dynamic array is the neutralized headers of its elements (the
//! raw element storage, scrubbed in place) followed by the elements' own
//! tails, in storage order: the write order every reader mirrors.

use vstd::prelude::*;
use vstd::bytes::{spec_u16_to_le_bytes, spec_u32_to_le_bytes, spec_u64_to_le_bytes};
use crate::layout::{Ty, NEUTRAL_ADDR, head_size, head_size_of, zero_bytes, i8_bits, i16_bits, i32_bits, i64_bits, i8_to_bits, i16_to_bits, i32_to_bits, i64_to_bits, push_u16, push_u32, push_u64, push_zeros};
use crate::value::{Val, Value, wf, neutral, vals_of, lemma_vals_of, val_of, lemma_neutral_wf};

verus! {

broadcast use vstd::std_specs::vec::group_vec_axioms;

/// The header bytes of `v` as it stands, address and capacity words
/// included: the raw memory copy of the value's own fields.
pub open spec fn head_bytes(t: Ty, v: Val) -> Seq<u8>
    decreases t,
{
    match t {
        Ty::U8 => match v {
            Val::U8(x) => seq![x],
            _ => Seq::empty(),
        },
        Ty::U16 => match v {
            Val::U16(x) => spec_u16_to_le_bytes(x),
            _ => Seq::empty(),
        },
        Ty::U32 => match v {
            Val::U32(x) => spec_u32_to_le_bytes(x),
            _ => Seq::empty(),
        },
        Ty::U64 => match v {
            Val::U64(x) => spec_u64_to_le_bytes(x),
            _ => Seq::empty(),
        },
        Ty::I8 => match v {
            Val::I8(x) => seq![i8_bits(x)],
            _ => Seq::empty(),
        },
        Ty::I16 => match v {
            Val::I16(x) => spec_u16_to_le_bytes(i16_bits(x)),
            _ => Seq::empty(),
        },
        Ty::I32 => match v {
            Val::I32(x) => spec_u32_to_le_bytes(i32_bits(x)),
            _ => Seq::empty(),
        },
        Ty::I64 => match v {
            Val::I64(x) => spec_u64_to_le_bytes(i64_bits(x)),
            _ => Seq::empty(),
        },
        Ty::Bool => match v {
            Val::Bool(x) => seq![if x { 1u8 } else { 0u8 }],
            _ => Seq::empty(),
        },
        Ty::Unit => Seq::empty(),
        Ty::Pair(a, b) => match v {
            Val::Pair(x, y) => head_bytes(*a, *x) + head_bytes(*b, *y),
            _ => Seq::empty(),
        },
        Ty::Opt(e) => match v {
            Val::Opt(None) => seq![0u8] + zero_bytes(head_size(*e)),
            Val::Opt(Some(x)) => seq![1u8] + head_bytes(*e, *x),
            _ => Seq::empty(),
        },
        Ty::Arr(_) => match v {
            Val::Arr(ad, cp, es) => spec_u64_to_le_bytes(ad) + spec_u64_to_le_bytes(
                es.len() as u64,
            ) + spec_u64_to_le_bytes(cp),
            _ => Seq::empty(),
        },
        Ty::Text => match v {
            Val::Text(ad, cp, d) => spec_u64_to_le_bytes(ad) + spec_u64_to_le_bytes(
                d.len() as u64,
            ) + spec_u64_to_le_bytes(cp),
            _ => Seq::empty(),
        },
        Ty::Slice(_) => match v {
            Val::Slice(ad, es) => spec_u64_to_le_bytes(ad) + spec_u64_to_le_bytes(
                es.len() as u64,
            ),
            _ => Seq::empty(),
        },
        Ty::Boxed(_) => match v {
            Val::Boxed(ad, _) => spec_u64_to_le_bytes(ad),
            _ => Seq::empty(),
        },
    }
}

/// The concatenated neutralized headers of the elements `es`: the raw
/// element storage of a dynamic array after the in-buffer scrub.
pub open spec fn heads_of(t: Ty, es: Seq<Val>) -> Seq<u8>
    decreases es.len(),
{
    if es.len() == 0 {
        Seq::empty()
    } else {
        head_bytes(t, neutral(t, es[0])) + heads_of(t, es.drop_first())
    }
}

/// The tail bytes of `v`: everything it owns indirectly, depth first.
pub open spec fn tail_bytes(t: Ty, v: Val) -> Seq<u8>
    decreases t, 0nat, 0nat,
{
    match t {
        Ty::Pair(a, b) => match v {
            Val::Pair(x, y) => tail_bytes(*a, *x) + tail_bytes(*b, *y),
            _ => Seq::empty(),
        },
        Ty::Opt(e) => match v {
            Val::Opt(Some(x)) => tail_bytes(*e, *x),
            _ => Seq::empty(),
        },
        Ty::Arr(e) => match v {
            Val::Arr(ad, cp, es) => heads_of(*e, es) + tails_of(*e, es),
            _ => Seq::empty(),
        },
        Ty::Text => match v {
            Val::Text(ad, cp, d) => d,
            _ => Seq::empty(),
        },
        Ty::Slice(e) => match v {
            Val::Slice(ad, es) => heads_of(*e, es) + tails_of(*e, es),
            _ => Seq::empty(),
        },
        Ty::Boxed(e) => match v {
            Val::Boxed(ad, x) => head_bytes(*e, neutral(*e, *x)) + tail_bytes(*e, *x),
            _ => Seq::empty(),
        },
        _ => Seq::empty(),
    }
}

/// The concatenated tails of the elements `es`, in storage order.
pub open spec fn tails_of(t: Ty, es: Seq<Val>) -> Seq<u8>
    decreases t, 1nat, es.len(),
{
    if es.len() == 0 {
        Seq::empty()
    } else {
        tail_bytes(t, es[0]) + tails_of(t, es.drop_first())
    }
}

/// The binary image of `v`: its neutralized header, then its tail.
pub open spec fn image(t: Ty, v: Val) -> Seq<u8> {
    head_bytes(t, neutral(t, v)) + tail_bytes(t, v)
}

/// Whether the header size of every type reachable in `t` fits in a machine
/// word, so that a header region can be laid out in a real buffer.
pub open spec fn sizes_ok(t: Ty) -> bool
    decreases t,
{
    head_size(t) <= usize::MAX && match t {
        Ty::Pair(a, b) => sizes_ok(*a) && sizes_ok(*b),
        Ty::Opt(e) => sizes_ok(*e),
        Ty::Arr(e) => sizes_ok(*e),
        Ty::Slice(e) => sizes_ok(*e),
        Ty::Boxed(e) => sizes_ok(*e),
        _ => true,
    }
}

/// Decides whether every header size in `t` fits in a machine word.
pub fn sizes_ok_of(t: &Ty) -> (r: bool)
    ensures
        r == sizes_ok(*t),
    decreases *t,
{
    let own = match head_size_of(t) {
        Some(_) => true,
        None => false,
    };
    if !own {
        return false;
    }
    match t {
        Ty::Pair(a, b) => sizes_ok_of(a) && sizes_ok_of(b),
        Ty::Opt(e) => sizes_ok_of(e),
        Ty::Arr(e) => sizes_ok_of(e),
        Ty::Slice(e) => sizes_ok_of(e),
        Ty::Boxed(e) => sizes_ok_of(e),
        _ => true,
    }
}

/// A well-formed value's header occupies exactly the header size of its type.
pub proof fn lemma_head_bytes_len(t: Ty, v: Val)
    requires
        wf(t, v),
    ensures
        head_bytes(t, v).len() == head_size(t),
    decreases t,
{
    vstd::bytes::lemma_auto_spec_u16_to_from_le_bytes();
    vstd::bytes::lemma_auto_spec_u32_to_from_le_bytes();
    vstd::bytes::lemma_auto_spec_u64_to_from_le_bytes();
    match t {
        Ty::Pair(a, b) => {
            if let Val::Pair(x, y) = v {
                lemma_head_bytes_len(*a, *x);
                lemma_head_bytes_len(*b, *y);
            }
        },
        Ty::Opt(e) => {
            if let Val::Opt(Some(x)) = v {
                lemma_head_bytes_len(*e, *x);
            }
        },
        _ => {},
    }
}

/// The neutralized header of a well-formed value also has header size.
pub proof fn lemma_neutral_head_len(t: Ty, v: Val)
    requires
        wf(t, v),
    ensures
        head_bytes(t, neutral(t, v)).len() == head_size(t),
{
    lemma_neutral_wf(t, v);
    lemma_head_bytes_len(t, neutral(t, v));
}

/// Appending one element appends its neutralized header.
pub proof fn lemma_heads_of_push(t: Ty, es: Seq<Val>, x: Val)
    ensures
        heads_of(t, es.push(x)) == heads_of(t, es) + head_bytes(t, neutral(t, x)),
    decreases es.len(),
{
    if es.len() == 0 {
        assert(es.push(x)[0] == x);
        assert(es.push(x).drop_first() =~= Seq::<Val>::empty());
        assert(heads_of(t, es.push(x).drop_first()) =~= Seq::<u8>::empty());
        assert(heads_of(t, es) =~= Seq::<u8>::empty());
        assert(heads_of(t, es.push(x)) =~= heads_of(t, es) + head_bytes(t, neutral(t, x)));
    } else {
        assert(es.push(x)[0] == es[0]);
        assert(es.push(x).drop_first() =~= es.drop_first().push(x));
        lemma_heads_of_push(t, es.drop_first(), x);
        assert(heads_of(t, es.push(x)) =~= heads_of(t, es) + head_bytes(t, neutral(t, x)));
    }
}

/// Appending one element appends its tail.
pub proof fn lemma_tails_of_push(t: Ty, es: Seq<Val>, x: Val)
    ensures
        tails_of(t, es.push(x)) == tails_of(t, es) + tail_bytes(t, x),
    decreases es.len(),
{
    if es.len() == 0 {
        assert(es.push(x)[0] == x);
        assert(es.push(x).drop_first() =~= Seq::<Val>::empty());
        assert(tails_of(t, es.push(x).drop_first()) =~= Seq::<u8>::empty());
        assert(tails_of(t, es) =~= Seq::<u8>::empty());
        assert(tails_of(t, es.push(x)) =~= tails_of(t, es) + tail_bytes(t, x));
    } else {
        assert(es.push(x)[0] == es[0]);
        assert(es.push(x).drop_first() =~= es.drop_first().push(x));
        lemma_tails_of_push(t, es.drop_first(), x);
        assert(tails_of(t, es.push(x)) =~= tails_of(t, es) + tail_bytes(t, x));
    }
}

/// Appends the neutralized header of `v`: the raw copy of the value's own
/// fields with every address word already scrubbed — the copy and the
/// in-buffer scrub of the protocol collapse into one step here, since the
/// copy cannot alias the output.
#[verifier::loop_isolation(false)]
pub fn write_head(t: &Ty, v: &Value, out: &mut Vec<u8>)
    requires
        wf(*t, v@),
        sizes_ok(*t),
    ensures
        final(out)@ == old(out)@ + head_bytes(*t, neutral(*t, v@)),
    decreases *t,
{
    match t {
        Ty::U8 => match v {
            Value::U8(x) => {
                out.push(*x);
                proof {
                    assert(final(out)@ =~= old(out)@ + head_bytes(*t, neutral(*t, v@)));
                }
            },
            _ => unreached(),
        },
        Ty::U16 => match v {
            Value::U16(x) => {
                push_u16(*x, out);
            },
            _ => unreached(),
        },
        Ty::U32 => match v {
            Value::U32(x) => {
                push_u32(*x, out);
            },
            _ => unreached(),
        },
        Ty::U64 => match v {
            Value::U64(x) => {
                push_u64(*x, out);
            },
            _ => unreached(),
        },
        Ty::I8 => match v {
            Value::I8(x) => {
                out.push(i8_to_bits(*x));
                proof {
                    assert(final(out)@ =~= old(out)@ + head_bytes(*t, neutral(*t, v@)));
                }
            },
            _ => unreached(),
        },
        Ty::I16 => match v {
            Value::I16(x) => {
                push_u16(i16_to_bits(*x), out);
            },
            _ => unreached(),
        },
        Ty::I32 => match v {
            Value::I32(x) => {
                push_u32(i32_to_bits(*x), out);
            },
            _ => unreached(),
        },
        Ty::I64 => match v {
            Value::I64(x) => {
                push_u64(i64_to_bits(*x), out);
            },
            _ => unreached(),
        },
        Ty::Bool => match v {
            Value::Bool(x) => {
                out.push(if *x {
                    1u8
                } else {
                    0u8
                });
                proof {
                    assert(final(out)@ =~= old(out)@ + head_bytes(*t, neutral(*t, v@)));
                }
            },
            _ => unreached(),
        },
        Ty::Unit => match v {
            Value::Unit => {
                proof {
                    assert(out@ =~= old(out)@ + head_bytes(*t, neutral(*t, v@)));
                }
            },
            _ => unreached(),
        },
        Ty::Pair(a, b) => match v {
            Value::Pair(x, y) => {
                write_head(a, x, out);
                write_head(b, y, out);
                proof {
                    assert(v@ matches Val::Pair(p, q) && *p == x@ && *q == y@);
                    assert(final(out)@ =~= old(out)@ + head_bytes(*t, neutral(*t, v@)));
                }
            },
            _ => unreached(),
        },
        Ty::Opt(e) => match v {
            Value::Opt(None) => {
                out.push(0u8);
                let n = match head_size_of(e) {
                    Some(n) => n,
                    None => unreached(),
                };
                push_zeros(n, out);
                proof {
                    assert(v@ == Val::Opt(None));
                    assert(final(out)@ =~= old(out)@ + head_bytes(*t, neutral(*t, v@)));
                }
            },
            Value::Opt(Some(x)) => {
                out.push(1u8);
                write_head(e, x, out);
                proof {
                    assert(v@ matches Val::Opt(Some(p)) && *p == x@);
                    assert(final(out)@ =~= old(out)@ + head_bytes(*t, neutral(*t, v@)));
                }
            },
            _ => unreached(),
        },
        Ty::Arr(_) => match v {
            Value::Arr(_, _, es) => {
                let n = es.len() as u64;
                push_u64(NEUTRAL_ADDR, out);
                push_u64(n, out);
                push_u64(n, out);
                proof {
                    broadcast use lemma_vals_of;

                    assert(v@ matches Val::Arr(ad, cp, s) && s == vals_of(*es, 0));
                    assert(final(out)@ =~= old(out)@ + head_bytes(*t, neutral(*t, v@)));
                }
            },
            _ => unreached(),
        },
        Ty::Text => match v {
            Value::Text(_, _, d) => {
                let n = d.len() as u64;
                push_u64(NEUTRAL_ADDR, out);
                push_u64(n, out);
                push_u64(n, out);
                proof {
                    assert(v@ matches Val::Text(ad, cp, s) && s == d@);
                    assert(final(out)@ =~= old(out)@ + head_bytes(*t, neutral(*t, v@)));
                }
            },
            _ => unreached(),
        },
        Ty::Slice(_) => match v {
            Value::Slice(_, es) => {
                let n = es.len() as u64;
                push_u64(NEUTRAL_ADDR, out);
                push_u64(n, out);
                proof {
                    broadcast use lemma_vals_of;

                    assert(v@ matches Val::Slice(ad, s) && s == vals_of(*es, 0));
                    assert(final(out)@ =~= old(out)@ + head_bytes(*t, neutral(*t, v@)));
                }
            },
            _ => unreached(),
        },
        Ty::Boxed(_) => match v {
            Value::Boxed(_, _) => {
                push_u64(NEUTRAL_ADDR, out);
                proof {
                    assert(final(out)@ =~= old(out)@ + head_bytes(*t, neutral(*t, v@)));
                }
            },
            _ => unreached(),
        },
    }
}

/// Appends the tail of `v`: for every buffer the value owns, first the raw
/// element storage with each element header neutralized in place, then each
/// element's own tail, depth first. Never mutates the value.
#[verifier::loop_isolation(false)]
pub fn entomb_value(t: &Ty, v: &Value, out: &mut Vec<u8>)
    requires
        wf(*t, v@),
        sizes_ok(*t),
    ensures
        final(out)@ == old(out)@ + tail_bytes(*t, v@),
    decreases *t,
{
    match t {
        Ty::Pair(a, b) => match v {
            Value::Pair(x, y) => {
                entomb_value(a, x, out);
                entomb_value(b, y, out);
                proof {
                    assert(v@ matches Val::Pair(p, q) && *p == x@ && *q == y@);
                    assert(final(out)@ =~= old(out)@ + tail_bytes(*t, v@));
                }
            },
            _ => unreached(),
        },
        Ty::Opt(e) => match v {
            Value::Opt(None) => {
                proof {
                    assert(v@ == Val::Opt(None));
                    assert(out@ =~= old(out)@ + tail_bytes(*t, v@));
                }
            },
            Value::Opt(Some(x)) => {
                entomb_value(e, x, out);
                proof {
                    assert(v@ matches Val::Opt(Some(p)) && *p == x@);
                    assert(final(out)@ =~= old(out)@ + tail_bytes(*t, v@));
                }
            },
            _ => unreached(),
        },
        Ty::Arr(e) => match v {
            Value::Arr(_, _, es) => {
                let ghost vs = vals_of(*es, 0);
                let ghost out0 = out@;
                proof {
                    broadcast use lemma_vals_of;

                    assert(v@ matches Val::Arr(ad, cp, s) && s == vs);
                    assert forall|k: int| 0 <= k < vs.len() implies wf(**e, #[trigger] vs[k]) by {
                        assert(wf(*t, v@));
                    }
                }
                let n = es.len();
                let mut i: usize = 0;
                while i < n
                    invariant
                        i <= n,
                        out@ == out0 + heads_of(**e, vs.take(i as int)),
                    decreases n - i,
                {
                    proof {
                        broadcast use lemma_vals_of;

                        assert(vs[i as int] == val_of(es[i as int]));
                        assert(wf(**e, es[i as int]@));
                    }
                    write_head(e, &es[i], out);
                    proof {
                        lemma_heads_of_push(**e, vs.take(i as int), vs[i as int]);
                        assert(vs.take(i as int + 1) =~= vs.take(i as int).push(vs[i as int]));
                        assert(out@ =~= out0 + heads_of(**e, vs.take(i as int + 1)));
                    }
                    i = i + 1;
                }
                proof {
                    assert(vs.take(n as int) =~= vs);
                }
                let ghost out1 = out@;
                let mut j: usize = 0;
                while j < n
                    invariant
                        j <= n,
                        out@ == out1 + tails_of(**e, vs.take(j as int)),
                    decreases n - j,
                {
                    proof {
                        broadcast use lemma_vals_of;

                        assert(vs[j as int] == val_of(es[j as int]));
                        assert(wf(**e, es[j as int]@));
                    }
                    entomb_value(e, &es[j], out);
                    proof {
                        lemma_tails_of_push(**e, vs.take(j as int), vs[j as int]);
                        assert(vs.take(j as int + 1) =~= vs.take(j as int).push(vs[j as int]));
                        assert(out@ =~= out1 + tails_of(**e, vs.take(j as int + 1)));
                    }
                    j = j + 1;
                }
                proof {
                    assert(vs.take(n as int) =~= vs);
                    assert(final(out)@ =~= old(out)@ + tail_bytes(*t, v@));
                }
            },
            _ => unreached(),
        },
        Ty::Text => match v {
            Value::Text(_, _, d) => {
                let ghost out0 = out@;
                let n = d.len();
                let mut j: usize = 0;
                while j < n
                    invariant
                        j <= n,
                        out@ == out0 + d@.take(j as int),
                    decreases n - j,
                {
                    out.push(d[j]);
                    proof {
                        assert(out@ =~= out0 + d@.take(j as int + 1));
                    }
                    j = j + 1;
                }
                proof {
                    assert(d@.take(n as int) =~= d@);
                    assert(v@ matches Val::Text(ad, cp, s) && s == d@);
                    assert(final(out)@ =~= old(out)@ + tail_bytes(*t, v@));
                }
            },
            _ => unreached(),
        },
        Ty::Slice(e) => match v {
            Value::Slice(_, es) => {
                let ghost vs = vals_of(*es, 0);
                let ghost out0 = out@;
                proof {
                    broadcast use lemma_vals_of;

                    assert(v@ matches Val::Slice(ad, s) && s == vs);
                    assert forall|k: int| 0 <= k < vs.len() implies wf(**e, #[trigger] vs[k]) by {
                        assert(wf(*t, v@));
                    }
                }
                let n = es.len();
                let mut i: usize = 0;
                while i < n
                    invariant
                        i <= n,
                        out@ == out0 + heads_of(**e, vs.take(i as int)),
                    decreases n - i,
                {
                    proof {
                        broadcast use lemma_vals_of;

                        assert(vs[i as int] == val_of(es[i as int]));
                        assert(wf(**e, es[i as int]@));
                    }
                    write_head(e, &es[i], out);
                    proof {
                        lemma_heads_of_push(**e, vs.take(i as int), vs[i as int]);
                        assert(vs.take(i as int + 1) =~= vs.take(i as int).push(vs[i as int]));
                        assert(out@ =~= out0 + heads_of(**e, vs.take(i as int + 1)));
                    }
                    i = i + 1;
                }
                proof {
                    assert(vs.take(n as int) =~= vs);
                }
                let ghost out1 = out@;
                let mut j: usize = 0;
                while j < n
                    invariant
                        j <= n,
                        out@ == out1 + tails_of(**e, vs.take(j as int)),
                    decreases n - j,
                {
                    proof {
                        broadcast use lemma_vals_of;

                        assert(vs[j as int] == val_of(es[j as int]));
                        assert(wf(**e, es[j as int]@));
                    }
                    entomb_value(e, &es[j], out);
                    proof {
                        lemma_tails_of_push(**e, vs.take(j as int), vs[j as int]);
                        assert(vs.take(j as int + 1) =~= vs.take(j as int).push(vs[j as int]));
                        assert(out@ =~= out1 + tails_of(**e, vs.take(j as int + 1)));
                    }
                    j = j + 1;
                }
                proof {
                    assert(vs.take(n as int) =~= vs);
                    assert(final(out)@ =~= old(out)@ + tail_bytes(*t, v@));
                }
            },
            _ => unreached(),
        },
        Ty::Boxed(e) => match v {
            Value::Boxed(_, x) => {
                write_head(e, x, out);
                entomb_value(e, x, out);
                proof {
                    assert(v@ matches Val::Boxed(ad, p) && *p == x@);
                    assert(final(out)@ =~= old(out)@ + tail_bytes(*t, v@));
                }
            },
            _ => unreached(),
        },
        _ => {
            proof {
                assert(tail_bytes(*t, v@) =~= Seq::<u8>::empty());
                assert(out@ =~= old(out)@ + tail_bytes(*t, v@));
            }
        },
    }
}


/// The element storage of a well-formed array occupies exactly one header
/// size per element.
pub proof fn lemma_heads_of_len(t: Ty, es: Seq<Val>)
    requires
        forall|k: int| 0 <= k < es.len() ==> wf(t, #[trigger] es[k]),
    ensures
        heads_of(t, es).len() == es.len() * head_size(t),
    decreases es.len(),
{
    if es.len() == 0 {
        assert(es.len() * head_size(t) == 0) by (nonlinear_arith)
            requires es.len() == 0,
        ;
    } else {
        lemma_neutral_head_len(t, es[0]);
        assert(forall|k: int| 0 <= k < es.drop_first().len() ==> wf(
            t,
            #[trigger] es.drop_first()[k],
        ));
        lemma_heads_of_len(t, es.drop_first());
        assert(es.len() * head_size(t) == head_size(t) + (es.len() - 1) * head_size(t))
            by (nonlinear_arith)
            requires es.len() >= 1,
        ;
    }
}

/// The slot of element `k` inside the element storage holds exactly that
/// element's neutralized header.
pub proof fn lemma_heads_of_index(t: Ty, es: Seq<Val>, k: int)
    requires
        forall|j: int| 0 <= j < es.len() ==> wf(t, #[trigger] es[j]),
        0 <= k < es.len(),
    ensures
        heads_of(t, es).subrange(k * head_size(t), (k + 1) * head_size(t)) == head_bytes(
            t,
            neutral(t, es[k]),
        ),
    decreases es.len(),
{
    let hs = head_size(t) as int;
    lemma_heads_of_len(t, es);
    lemma_neutral_head_len(t, es[0]);
    if k == 0 {
        assert(heads_of(t, es).subrange(0, hs) =~= head_bytes(t, neutral(t, es[0])));
    } else {
        assert(forall|j: int| 0 <= j < es.drop_first().len() ==> wf(
            t,
            #[trigger] es.drop_first()[j],
        ));
        lemma_heads_of_index(t, es.drop_first(), k - 1);
        lemma_heads_of_len(t, es.drop_first());
        assert(es.drop_first()[k - 1] == es[k]);
        assert(k * hs == (k - 1) * hs + hs && (k + 1) * hs == k * hs + hs) by (nonlinear_arith);
        assert((k - 1) * hs >= 0 && (k - 1) * hs + hs <= es.drop_first().len() * hs)
            by (nonlinear_arith)
            requires 1 <= k < es.len(), hs >= 0, es.len() >= 1,
        ;
        assert(heads_of(t, es).subrange(k * hs, (k + 1) * hs) =~= heads_of(
            t,
            es.drop_first(),
        ).subrange((k - 1) * hs, (k - 1) * hs + hs));
    }
}

} // verus!
