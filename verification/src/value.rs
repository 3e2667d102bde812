//! Serializable values and their mathematical model.
//!
//! `Value` is the executable universe of values the protocol serializes. The
//! owned-buffer variants carry an explicit address word and capacity word:
//! these stand for the pointer and capacity fields of a real in-memory
//! representation, and are what neutralization scrubs and reconstruction
//! patches. `Val` is the ghost view of a `Value`, with sequences in place of
//! vectors, and is what every contract speaks about.

use vstd::prelude::*;
use crate::layout::{Ty, NEUTRAL_ADDR};

verus! {

broadcast use vstd::std_specs::vec::group_vec_axioms;

/// An executable serializable value.
pub enum Value {
    U8(u8),
    U16(u16),
    U32(u32),
    U64(u64),
    I8(i8),
    I16(i16),
    I32(i32),
    I64(i64),
    Bool(bool),
    Unit,
    Pair(Box<Value>, Box<Value>),
    Opt(Option<Box<Value>>),
    /// A dynamic array: address word, capacity word, elements.
    Arr(u64, u64, Vec<Value>),
    /// A text buffer: address word, capacity word, raw bytes.
    Text(u64, u64, Vec<u8>),
    /// A borrowed run of elements: address word, elements.
    Slice(u64, Vec<Value>),
    /// A boxed value: address word, target.
    Boxed(u64, Box<Value>),
}

/// The mathematical model of a serializable value.
#[verifier::ext_equal]
pub enum Val {
    U8(u8),
    U16(u16),
    U32(u32),
    U64(u64),
    I8(i8),
    I16(i16),
    I32(i32),
    I64(i64),
    Bool(bool),
    Unit,
    Pair(Box<Val>, Box<Val>),
    Opt(Option<Box<Val>>),
    Arr(u64, u64, Seq<Val>),
    Text(u64, u64, Seq<u8>),
    Slice(u64, Seq<Val>),
    Boxed(u64, Box<Val>),
}

/// The model of an executable value.
pub open spec fn val_of(v: Value) -> Val
    decreases v, 0int,
{
    match v {
        Value::U8(x) => Val::U8(x),
        Value::U16(x) => Val::U16(x),
        Value::U32(x) => Val::U32(x),
        Value::U64(x) => Val::U64(x),
        Value::I8(x) => Val::I8(x),
        Value::I16(x) => Val::I16(x),
        Value::I32(x) => Val::I32(x),
        Value::I64(x) => Val::I64(x),
        Value::Bool(x) => Val::Bool(x),
        Value::Unit => Val::Unit,
        Value::Pair(x, y) => Val::Pair(Box::new(val_of(*x)), Box::new(val_of(*y))),
        Value::Opt(o) => match o {
            None => Val::Opt(None),
            Some(x) => Val::Opt(Some(Box::new(val_of(*x)))),
        },
        Value::Arr(ad, cp, es) => Val::Arr(ad, cp, vals_of(es, 0)),
        Value::Text(ad, cp, d) => Val::Text(ad, cp, d@),
        Value::Slice(ad, es) => Val::Slice(ad, vals_of(es, 0)),
        Value::Boxed(ad, x) => Val::Boxed(ad, Box::new(val_of(*x))),
    }
}

/// The models of the elements of `es` from index `i` on.
pub open spec fn vals_of(es: Vec<Value>, i: int) -> Seq<Val>
    decreases es, es.len() - i,
{
    if i < 0 || i >= es.len() {
        Seq::empty()
    } else {
        seq![val_of(es[i])] + vals_of(es, i + 1)
    }
}

/// The element models line up index by index with the elements.
pub broadcast proof fn lemma_vals_of(es: Vec<Value>, i: int)
    requires
        0 <= i <= es.len(),
    ensures
        (#[trigger] vals_of(es, i)).len() == es.len() - i,
        forall|k: int| 0 <= k < es.len() - i ==> vals_of(es, i)[k] == val_of(es[i + k]),
    decreases es.len() - i,
{
    if i < es.len() {
        lemma_vals_of(es, i + 1);
    }
}

impl View for Value {
    type V = Val;

    open spec fn view(&self) -> Val {
        val_of(*self)
    }
}

/// Whether model value `v` has the shape that type `t` describes, with every
/// stored length representable as a word.
pub open spec fn wf(t: Ty, v: Val) -> bool
    decreases t,
{
    match t {
        Ty::U8 => v is U8,
        Ty::U16 => v is U16,
        Ty::U32 => v is U32,
        Ty::U64 => v is U64,
        Ty::I8 => v is I8,
        Ty::I16 => v is I16,
        Ty::I32 => v is I32,
        Ty::I64 => v is I64,
        Ty::Bool => v is Bool,
        Ty::Unit => v is Unit,
        Ty::Pair(a, b) => v matches Val::Pair(x, y) && wf(*a, *x) && wf(*b, *y),
        Ty::Opt(e) => v matches Val::Opt(o) && match o {
            None => true,
            Some(x) => wf(*e, *x),
        },
        Ty::Arr(e) => v matches Val::Arr(ad, cp, es) && es.len() <= usize::MAX
            && forall|i: int| 0 <= i < es.len() ==> wf(*e, #[trigger] es[i]),
        Ty::Text => v matches Val::Text(ad, cp, d) && d.len() <= usize::MAX,
        Ty::Slice(e) => v matches Val::Slice(ad, es) && es.len() <= usize::MAX
            && forall|i: int| 0 <= i < es.len() ==> wf(*e, #[trigger] es[i]),
        Ty::Boxed(e) => v matches Val::Boxed(ad, x) && wf(*e, *x),
    }
}

/// The result of neutralizing `v`: every address field of `v` itself is
/// overwritten with the sentinel and every capacity field with the length,
/// recursing through header-resident constituents (pair fields, an optional
/// payload) but never through an address, since the memory behind it is not
/// part of the header.
pub open spec fn neutral(t: Ty, v: Val) -> Val
    decreases t,
{
    match t {
        Ty::Pair(a, b) => match v {
            Val::Pair(x, y) => Val::Pair(Box::new(neutral(*a, *x)), Box::new(neutral(*b, *y))),
            _ => v,
        },
        Ty::Opt(e) => match v {
            Val::Opt(Some(x)) => Val::Opt(Some(Box::new(neutral(*e, *x)))),
            _ => v,
        },
        Ty::Arr(_) => match v {
            Val::Arr(ad, cp, es) => Val::Arr(NEUTRAL_ADDR, es.len() as u64, es),
            _ => v,
        },
        Ty::Text => match v {
            Val::Text(ad, cp, d) => Val::Text(NEUTRAL_ADDR, d.len() as u64, d),
            _ => v,
        },
        Ty::Slice(_) => match v {
            Val::Slice(ad, es) => Val::Slice(NEUTRAL_ADDR, es),
            _ => v,
        },
        Ty::Boxed(_) => match v {
            Val::Boxed(ad, x) => Val::Boxed(NEUTRAL_ADDR, x),
            _ => v,
        },
        _ => v,
    }
}

/// Equality of two model values under `t`, disregarding address and capacity
/// words: the equality a user of the protocol observes, since a dynamic
/// array compares by its elements, not by where its storage lives.
pub open spec fn equiv(t: Ty, a: Val, b: Val) -> bool
    decreases t,
{
    match t {
        Ty::Pair(ta, tb) => a matches Val::Pair(x1, y1)
            && b matches Val::Pair(x2, y2)
            && equiv(*ta, *x1, *x2) && equiv(*tb, *y1, *y2),
        Ty::Opt(e) => a matches Val::Opt(o1) && b matches Val::Opt(o2) && match (o1, o2) {
            (None, None) => true,
            (Some(x1), Some(x2)) => equiv(*e, *x1, *x2),
            _ => false,
        },
        Ty::Arr(e) => a matches Val::Arr(ad1, cp1, es1)
            && b matches Val::Arr(ad2, cp2, es2)
            && es1.len() == es2.len()
            && forall|i: int| 0 <= i < es1.len() ==> equiv(*e, #[trigger] es1[i], es2[i]),
        Ty::Text => a matches Val::Text(ad1, cp1, d1)
            && b matches Val::Text(ad2, cp2, d2)
            && d1 == d2,
        Ty::Slice(e) => a matches Val::Slice(ad1, es1)
            && b matches Val::Slice(ad2, es2)
            && es1.len() == es2.len()
            && forall|i: int| 0 <= i < es1.len() ==> equiv(*e, #[trigger] es1[i], es2[i]),
        Ty::Boxed(e) => a matches Val::Boxed(ad1, x1)
            && b matches Val::Boxed(ad2, x2)
            && equiv(*e, *x1, *x2),
        _ => a == b,
    }
}

/// Whether every capacity word reachable in `v` equals the corresponding
/// length: the shape every decoded value has, since decoding never preserves
/// over-allocated storage.
pub open spec fn normalized(t: Ty, v: Val) -> bool
    decreases t,
{
    match t {
        Ty::Pair(a, b) => v matches Val::Pair(x, y) ==> normalized(*a, *x) && normalized(*b, *y),
        Ty::Opt(e) => v matches Val::Opt(Some(x)) ==> normalized(*e, *x),
        Ty::Arr(e) => v matches Val::Arr(ad, cp, es) ==> cp == es.len()
            && forall|i: int| 0 <= i < es.len() ==> normalized(*e, #[trigger] es[i]),
        Ty::Text => v matches Val::Text(ad, cp, d) ==> cp == d.len(),
        Ty::Slice(e) => v matches Val::Slice(ad, es) ==> forall|i: int|
            0 <= i < es.len() ==> normalized(*e, #[trigger] es[i]),
        Ty::Boxed(e) => v matches Val::Boxed(ad, x) ==> normalized(*e, *x),
        _ => true,
    }
}

/// Equality under `t` is reflexive on well-formed values.
pub proof fn lemma_equiv_reflexive(t: Ty, v: Val)
    requires
        wf(t, v),
    ensures
        equiv(t, v, v),
    decreases t,
{
    match t {
        Ty::Pair(a, b) => {
            if let Val::Pair(x, y) = v {
                lemma_equiv_reflexive(*a, *x);
                lemma_equiv_reflexive(*b, *y);
            }
        },
        Ty::Opt(e) => {
            if let Val::Opt(Some(x)) = v {
                lemma_equiv_reflexive(*e, *x);
            }
        },
        Ty::Arr(e) => {
            if let Val::Arr(ad, cp, es) = v {
                assert forall|i: int| 0 <= i < es.len() implies equiv(*e, #[trigger] es[i], es[i]) by {
                    lemma_equiv_reflexive(*e, es[i]);
                }
            }
        },
        Ty::Slice(e) => {
            if let Val::Slice(ad, es) = v {
                assert forall|i: int| 0 <= i < es.len() implies equiv(*e, #[trigger] es[i], es[i]) by {
                    lemma_equiv_reflexive(*e, es[i]);
                }
            }
        },
        Ty::Boxed(e) => {
            if let Val::Boxed(ad, x) = v {
                lemma_equiv_reflexive(*e, *x);
            }
        },
        _ => {},
    }
}

/// Neutralizing preserves well-formedness.
pub proof fn lemma_neutral_wf(t: Ty, v: Val)
    requires
        wf(t, v),
    ensures
        wf(t, neutral(t, v)),
    decreases t,
{
    match t {
        Ty::Pair(a, b) => {
            if let Val::Pair(x, y) = v {
                lemma_neutral_wf(*a, *x);
                lemma_neutral_wf(*b, *y);
            }
        },
        Ty::Opt(e) => {
            if let Val::Opt(Some(x)) = v {
                lemma_neutral_wf(*e, *x);
            }
        },
        _ => {},
    }
}

/// Consumes a value and hands back its neutralized form: the in-buffer edit
/// the protocol performs on the header copy, expressed on the value itself.
pub fn embalm_value(t: &Ty, v: Value) -> (r: Value)
    requires
        wf(*t, v@),
    ensures
        r@ == neutral(*t, v@),
    decreases *t,
{
    match t {
        Ty::Pair(ta, tb) => {
            match v {
                Value::Pair(x, y) => Value::Pair(
                    Box::new(embalm_value(ta, *x)),
                    Box::new(embalm_value(tb, *y)),
                ),
                other => {
                    proof {
                        assert(false);
                    }
                    other
                },
            }
        },
        Ty::Opt(te) => {
            match v {
                Value::Opt(None) => Value::Opt(None),
                Value::Opt(Some(x)) => Value::Opt(Some(Box::new(embalm_value(te, *x)))),
                other => {
                    proof {
                        assert(false);
                    }
                    other
                },
            }
        },
        Ty::Arr(_) => {
            match v {
                Value::Arr(ad, cp, es) => {
                    let n = es.len() as u64;
                    let r = Value::Arr(NEUTRAL_ADDR, n, es);
                    proof {
                        broadcast use lemma_vals_of;

                        assert(vals_of(es, 0).len() == es@.len());
                        assert(n == es@.len());
                        assert(r@ =~= neutral(*t, Value::Arr(ad, cp, es)@));
                    }
                    r
                },
                other => {
                    proof {
                        assert(false);
                    }
                    other
                },
            }
        },
        Ty::Text => {
            match v {
                Value::Text(ad, cp, d) => {
                    let n = d.len() as u64;
                    Value::Text(NEUTRAL_ADDR, n, d)
                },
                other => {
                    proof {
                        assert(false);
                    }
                    other
                },
            }
        },
        Ty::Slice(_) => {
            match v {
                Value::Slice(ad, es) => {
                    let r = Value::Slice(NEUTRAL_ADDR, es);
                    proof {
                        broadcast use lemma_vals_of;

                        assert(r@ =~= neutral(*t, Value::Slice(ad, es)@));
                    }
                    r
                },
                other => {
                    proof {
                        assert(false);
                    }
                    other
                },
            }
        },
        Ty::Boxed(_) => {
            match v {
                Value::Boxed(ad, x) => Value::Boxed(NEUTRAL_ADDR, x),
                other => {
                    proof {
                        assert(false);
                    }
                    other
                },
            }
        },
        _ => v,
    }
}

/// Decides equality under `t`, disregarding address and capacity words.
#[verifier::loop_isolation(false)]
pub fn value_eq(t: &Ty, a: &Value, b: &Value) -> (r: bool)
    requires
        wf(*t, a@),
        wf(*t, b@),
    ensures
        r == equiv(*t, a@, b@),
    decreases *t,
{
    proof {
        broadcast use lemma_vals_of;

    }
    match t {
        Ty::U8 => match (a, b) {
            (Value::U8(x), Value::U8(y)) => {
                proof {
                    assert(a@ == Val::U8(*x));
                    assert(b@ == Val::U8(*y));
                }
                return x == y;
            },
            _ => unreached(),
        },
        Ty::U16 => match (a, b) {
            (Value::U16(x), Value::U16(y)) => {
                proof {
                    assert(a@ == Val::U16(*x));
                    assert(b@ == Val::U16(*y));
                }
                return x == y;
            },
            _ => unreached(),
        },
        Ty::U32 => match (a, b) {
            (Value::U32(x), Value::U32(y)) => {
                proof {
                    assert(a@ == Val::U32(*x));
                    assert(b@ == Val::U32(*y));
                }
                return x == y;
            },
            _ => unreached(),
        },
        Ty::U64 => match (a, b) {
            (Value::U64(x), Value::U64(y)) => {
                proof {
                    assert(a@ == Val::U64(*x));
                    assert(b@ == Val::U64(*y));
                }
                return x == y;
            },
            _ => unreached(),
        },
        Ty::I8 => match (a, b) {
            (Value::I8(x), Value::I8(y)) => {
                proof {
                    assert(a@ == Val::I8(*x));
                    assert(b@ == Val::I8(*y));
                }
                return x == y;
            },
            _ => unreached(),
        },
        Ty::I16 => match (a, b) {
            (Value::I16(x), Value::I16(y)) => {
                proof {
                    assert(a@ == Val::I16(*x));
                    assert(b@ == Val::I16(*y));
                }
                return x == y;
            },
            _ => unreached(),
        },
        Ty::I32 => match (a, b) {
            (Value::I32(x), Value::I32(y)) => {
                proof {
                    assert(a@ == Val::I32(*x));
                    assert(b@ == Val::I32(*y));
                }
                return x == y;
            },
            _ => unreached(),
        },
        Ty::I64 => match (a, b) {
            (Value::I64(x), Value::I64(y)) => {
                proof {
                    assert(a@ == Val::I64(*x));
                    assert(b@ == Val::I64(*y));
                }
                return x == y;
            },
            _ => unreached(),
        },
        Ty::Bool => match (a, b) {
            (Value::Bool(x), Value::Bool(y)) => {
                proof {
                    assert(a@ == Val::Bool(*x));
                    assert(b@ == Val::Bool(*y));
                }
                return x == y;
            },
            _ => unreached(),
        },
        Ty::Unit => match (a, b) {
            (Value::Unit, Value::Unit) => {
                proof {
                    assert(a@ == Val::Unit);
                    assert(b@ == Val::Unit);
                }
                return true;
            },
            _ => unreached(),
        },
        Ty::Pair(ta, tb) => match (a, b) {
            (Value::Pair(x1, y1), Value::Pair(x2, y2)) => {
                let e1 = value_eq(ta, x1, x2);
                let e2 = value_eq(tb, y1, y2);
                proof {
                    assert(a@ matches Val::Pair(p1, q1) && *p1 == x1@ && *q1 == y1@);
                    assert(b@ matches Val::Pair(p2, q2) && *p2 == x2@ && *q2 == y2@);
                    assert(equiv(*t, a@, b@) == (equiv(**ta, x1@, x2@) && equiv(
                        **tb,
                        y1@,
                        y2@,
                    )));
                }
                return e1 && e2;
            },
            _ => unreached(),
        },
        Ty::Opt(te) => match (a, b) {
            (Value::Opt(o1), Value::Opt(o2)) => match (o1, o2) {
                (None, None) => {
                    proof {
                        assert(a@ == Val::Opt(None));
                        assert(b@ == Val::Opt(None));
                    }
                    return true;
                },
                (Some(x1), Some(x2)) => {
                    let e = value_eq(te, x1, x2);
                    proof {
                        assert(a@ matches Val::Opt(Some(p1)) && *p1 == x1@);
                        assert(b@ matches Val::Opt(Some(p2)) && *p2 == x2@);
                        assert(equiv(*t, a@, b@) == equiv(**te, x1@, x2@));
                    }
                    return e;
                },
                (None, Some(x2)) => {
                    proof {
                        assert(a@ == Val::Opt(None));
                        assert(b@ matches Val::Opt(Some(p2)));
                        assert(!equiv(*t, a@, b@));
                    }
                    return false;
                },
                (Some(x1), None) => {
                    proof {
                        assert(a@ matches Val::Opt(Some(p1)));
                        assert(b@ == Val::Opt(None));
                        assert(!equiv(*t, a@, b@));
                    }
                    return false;
                },
            },
            _ => unreached(),
        },
        Ty::Arr(te) => match (a, b) {
            (Value::Arr(_, _, es1), Value::Arr(_, _, es2)) => {
                if es1.len() != es2.len() {
                    false
                } else {
                    proof {
                        broadcast use lemma_vals_of;

                        assert forall|k: int| 0 <= k < es1.len() implies wf(**te, #[trigger] es1[k]@)
                            && wf(**te, es2[k]@) by {
                            assert(a@ matches Val::Arr(x0, x1, s1) && s1 == vals_of(*es1, 0));
                            assert(b@ matches Val::Arr(y0, y1, s2) && s2 == vals_of(*es2, 0));
                            assert(vals_of(*es1, 0)[k] == val_of(es1[k]));
                            assert(vals_of(*es2, 0)[k] == val_of(es2[k]));
                            assert(wf(**te, vals_of(*es1, 0)[k]));
                            assert(wf(**te, vals_of(*es2, 0)[k]));
                        }
                    }
                    let mut i: usize = 0;
                    let mut ok = true;
                    while i < es1.len()
                        invariant
                            i <= es1.len(),
                            ok == (forall|k: int| 0 <= k < i ==> equiv(**te, #[trigger] es1[k]@, es2[k]@)),
                        decreases es1.len() - i,
                    {
                        proof {
                            assert(wf(**te, es1[i as int]@));
                            assert(wf(**te, es2[i as int]@));
                        }
                        let e = value_eq(te, &es1[i], &es2[i]);
                        ok = ok && e;
                        i = i + 1;
                    }
                    proof {
                        broadcast use lemma_vals_of;

                        assert(a@ matches Val::Arr(x0, x1, s1) && s1 == vals_of(*es1, 0));
                        assert(b@ matches Val::Arr(y0, y1, s2) && s2 == vals_of(*es2, 0));
                        if ok {
                            assert forall|k: int| 0 <= k < es1@.len() implies equiv(
                                **te,
                                #[trigger] vals_of(*es1, 0)[k],
                                vals_of(*es2, 0)[k],
                            ) by {
                                assert(vals_of(*es1, 0)[k] == val_of(es1[k]));
                                assert(vals_of(*es2, 0)[k] == val_of(es2[k]));
                                assert(equiv(**te, es1[k]@, es2[k]@));
                            }
                            assert(equiv(*t, a@, b@));
                        } else {
                            let k = choose|k: int|
                                0 <= k < es1@.len() && !equiv(**te, es1[k]@, es2[k]@);
                            assert(vals_of(*es1, 0)[k] == val_of(es1[k]));
                            assert(vals_of(*es2, 0)[k] == val_of(es2[k]));
                            assert(!equiv(*t, a@, b@));
                        }
                    }
                    return ok;
                }
            },
            _ => unreached(),
        },
        Ty::Text => match (a, b) {
            (Value::Text(_, _, d1), Value::Text(_, _, d2)) => {
                proof {
                    assert(a@ matches Val::Text(a1, c1, s1) && s1 == d1@);
                    assert(b@ matches Val::Text(a2, c2, s2) && s2 == d2@);
                }
                if d1.len() != d2.len() {
                    proof {
                        assert(!equiv(*t, a@, b@));
                    }
                    false
                } else {
                    let mut i: usize = 0;
                    let mut ok = true;
                    while i < d1.len()
                        invariant
                            i <= d1.len(),
                            d1.len() == d2.len(),
                            ok == (forall|k: int| 0 <= k < i ==> d1@[k] == d2@[k]),
                        decreases d1.len() - i,
                    {
                        let e = d1[i] == d2[i];
                        ok = ok && e;
                        i = i + 1;
                    }
                    proof {
                        if ok {
                            assert(d1@ =~= d2@);
                            assert(equiv(*t, a@, b@));
                        } else {
                            assert(d1@ != d2@);
                            assert(!equiv(*t, a@, b@));
                        }
                    }
                    return ok;
                }
            },
            _ => unreached(),
        },
        Ty::Slice(te) => match (a, b) {
            (Value::Slice(_, es1), Value::Slice(_, es2)) => {
                if es1.len() != es2.len() {
                    proof {
                        broadcast use lemma_vals_of;

                        assert(a@ matches Val::Slice(x0, s1) && s1 == vals_of(*es1, 0));
                        assert(b@ matches Val::Slice(y0, s2) && s2 == vals_of(*es2, 0));
                    }
                    return false;
                } else {
                    proof {
                        broadcast use lemma_vals_of;

                        assert forall|k: int| 0 <= k < es1.len() implies wf(**te, #[trigger] es1[k]@)
                            && wf(**te, es2[k]@) by {
                            assert(a@ matches Val::Slice(x0, s1) && s1 == vals_of(*es1, 0));
                            assert(b@ matches Val::Slice(y0, s2) && s2 == vals_of(*es2, 0));
                            assert(vals_of(*es1, 0)[k] == val_of(es1[k]));
                            assert(vals_of(*es2, 0)[k] == val_of(es2[k]));
                            assert(wf(**te, vals_of(*es1, 0)[k]));
                            assert(wf(**te, vals_of(*es2, 0)[k]));
                        }
                    }
                    let mut i: usize = 0;
                    let mut ok = true;
                    while i < es1.len()
                        invariant
                            i <= es1.len(),
                            ok == (forall|k: int| 0 <= k < i ==> equiv(**te, #[trigger] es1[k]@, es2[k]@)),
                        decreases es1.len() - i,
                    {
                        proof {
                            assert(wf(**te, es1[i as int]@));
                            assert(wf(**te, es2[i as int]@));
                        }
                        let e = value_eq(te, &es1[i], &es2[i]);
                        ok = ok && e;
                        i = i + 1;
                    }
                    proof {
                        broadcast use lemma_vals_of;

                        assert(a@ matches Val::Slice(x0, s1) && s1 == vals_of(*es1, 0));
                        assert(b@ matches Val::Slice(y0, s2) && s2 == vals_of(*es2, 0));
                        if ok {
                            assert forall|k: int| 0 <= k < es1@.len() implies equiv(
                                **te,
                                #[trigger] vals_of(*es1, 0)[k],
                                vals_of(*es2, 0)[k],
                            ) by {
                                assert(vals_of(*es1, 0)[k] == val_of(es1[k]));
                                assert(vals_of(*es2, 0)[k] == val_of(es2[k]));
                                assert(equiv(**te, es1[k]@, es2[k]@));
                            }
                            assert(equiv(*t, a@, b@));
                        } else {
                            let k = choose|k: int|
                                0 <= k < es1@.len() && !equiv(**te, es1[k]@, es2[k]@);
                            assert(vals_of(*es1, 0)[k] == val_of(es1[k]));
                            assert(vals_of(*es2, 0)[k] == val_of(es2[k]));
                            assert(!equiv(*t, a@, b@));
                        }
                    }
                    return ok;
                }
            },
            _ => unreached(),
        },
        Ty::Boxed(te) => match (a, b) {
            (Value::Boxed(_, x1), Value::Boxed(_, x2)) => {
                let e = value_eq(te, x1, x2);
                proof {
                    assert(a@ matches Val::Boxed(a1, p1) && *p1 == x1@);
                    assert(b@ matches Val::Boxed(a2, p2) && *p2 == x2@);
                    assert(equiv(*t, a@, b@) == equiv(**te, x1@, x2@));
                }
                return e;
            },
            _ => unreached(),
        },
    }
}

} // verus!
