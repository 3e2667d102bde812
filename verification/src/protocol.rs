//! The capability protocol and its driver algorithms.
//!
//! `Abomonation` is the four-operation contract a serializable type
//! satisfies: tail-serialize (`entomb`), neutralize (`embalm`), reconstruct
//! (`exhume`) and validate (`verify`), together with a header writer that
//! stands for the raw header copy plus its in-buffer scrub. The contract is
//! stated over ghost accounts the implementor supplies, so the drivers
//! `encode`, `decode` and `verify` are verified once, for every implementor.

use vstd::prelude::*;
use crate::layout::{Ty, head_size, head_size_of};
use crate::value::{Val, Value, wf, neutral};
use crate::image::{head_bytes, tail_bytes, sizes_ok, write_head, entomb_value};
use crate::value::embalm_value;
use crate::codec::{exhumed, validated, exhume_value, validate_value};

verus! {

broadcast use vstd::std_specs::vec::group_vec_axioms;

/// The per-type capability contract of the protocol.
///
/// An implementor supplies ghost accounts of its shape (`well_formed`), its
/// header and tail bytes, its neutralized form, and of what reconstruction
/// and validation yield on a given buffer; the four operations are then
/// bound to those accounts by their contracts.
pub trait Abomonation: View + Sized {
    /// Whether model value `v` is a value of type `t`.
    spec fn well_formed(t: Ty, v: Self::V) -> bool;

    /// `v` with every address word scrubbed and every capacity word set to
    /// the length.
    spec fn neutralized(t: Ty, v: Self::V) -> Self::V;

    /// The raw header bytes of `v`, address words included.
    spec fn head_image(t: Ty, v: Self::V) -> Seq<u8>;

    /// The tail bytes of `v`: everything it owns indirectly, depth first.
    spec fn tail_image(t: Ty, v: Self::V) -> Seq<u8>;

    /// What reconstructing from buffer `b` yields: the value, the offset of
    /// the first unclaimed byte, and the buffer as patched — or nothing.
    spec fn exhumation(t: Ty, b: Seq<u8>, hpos: int, pos: int) -> Option<(Self::V, int, Seq<u8>)>;

    /// What validating against buffer `b` yields, without any write.
    spec fn validation(t: Ty, b: Seq<u8>, hpos: int, pos: int) -> Option<(Self::V, int)>;

    /// Appends the neutralized header of `self`: the raw copy of its own
    /// fields with the scrub already applied, since the copy cannot alias
    /// the output buffer here.
    fn write_head(&self, t: &Ty, bytes: &mut Vec<u8>)
        requires
            Self::well_formed(*t, self@),
            crate::image::sizes_ok(*t),
        ensures
            final(bytes)@ == old(bytes)@ + Self::head_image(*t, Self::neutralized(*t, self@)),
    ;

    /// Tail-serialize: appends everything `self` owns indirectly, without
    /// mutating `self`.
    fn entomb(&self, t: &Ty, bytes: &mut Vec<u8>)
        requires
            Self::well_formed(*t, self@),
            crate::image::sizes_ok(*t),
        ensures
            final(bytes)@ == old(bytes)@ + Self::tail_image(*t, self@),
    ;

    /// Neutralize: consumes `self` and hands back its neutralized form.
    fn embalm(self, t: &Ty) -> (r: Self)
        requires
            Self::well_formed(*t, self@),
        ensures
            r@ == Self::neutralized(*t, self@),
    ;

    /// Reconstruct: destructively decodes a value whose header sits at
    /// `hpos` and whose tail starts at `pos`, patching address words in the
    /// buffer; fails exactly when its account does, leaving the buffer's
    /// length unchanged.
    fn exhume(t: &Ty, bytes: &mut Vec<u8>, hpos: usize, pos: usize) -> (r: Option<(Self, usize)>)
        requires
            hpos + head_size(*t) <= pos,
            pos <= old(bytes).len(),
        ensures
            final(bytes)@.len() == old(bytes)@.len(),
            match Self::exhumation(*t, old(bytes)@, hpos as int, pos as int) {
                None => r is None,
                Some(res) => r matches Some(x) && x.0@ == res.0 && x.1 as int == res.1
                    && final(bytes)@ == res.2,
            },
    ;

    /// Validate: the read-only counterpart of reconstruction.
    fn verify(t: &Ty, bytes: &Vec<u8>, hpos: usize, pos: usize) -> (r: Option<(Self, usize)>)
        requires
            hpos + head_size(*t) <= pos,
            pos <= bytes.len(),
        ensures
            match Self::validation(*t, bytes@, hpos as int, pos as int) {
                None => r is None,
                Some(res) => r matches Some(x) && x.0@ == res.0 && x.1 as int == res.1,
            },
    ;
}

impl Abomonation for Value {
    open spec fn well_formed(t: Ty, v: Val) -> bool {
        wf(t, v)
    }

    open spec fn neutralized(t: Ty, v: Val) -> Val {
        neutral(t, v)
    }

    open spec fn head_image(t: Ty, v: Val) -> Seq<u8> {
        head_bytes(t, v)
    }

    open spec fn tail_image(t: Ty, v: Val) -> Seq<u8> {
        tail_bytes(t, v)
    }

    open spec fn exhumation(t: Ty, b: Seq<u8>, hpos: int, pos: int) -> Option<(Val, int, Seq<u8>)> {
        exhumed(t, b, hpos, pos)
    }

    open spec fn validation(t: Ty, b: Seq<u8>, hpos: int, pos: int) -> Option<(Val, int)> {
        validated(t, b, hpos, pos)
    }

    fn write_head(&self, t: &Ty, bytes: &mut Vec<u8>) {
        write_head(t, self, bytes)
    }

    fn entomb(&self, t: &Ty, bytes: &mut Vec<u8>) {
        entomb_value(t, self, bytes)
    }

    fn embalm(self, t: &Ty) -> (r: Value) {
        embalm_value(t, self)
    }

    fn exhume(t: &Ty, bytes: &mut Vec<u8>, hpos: usize, pos: usize) -> (r: Option<
        (Value, usize),
    >) {
        exhume_value(t, bytes, hpos, pos)
    }

    fn verify(t: &Ty, bytes: &Vec<u8>, hpos: usize, pos: usize) -> (r: Option<(Value, usize)>) {
        validate_value(t, bytes, hpos, pos)
    }
}

/// Encodes a value of type `t` into `bytes`, appending at its end: first
/// the value's neutralized header, then its tail. Never fails; the bytes
/// already in the sink are untouched, so images can be sequenced.
pub fn encode<T: Abomonation>(t: &Ty, value: &T, bytes: &mut Vec<u8>)
    requires
        T::well_formed(*t, value@),
        sizes_ok(*t),
    ensures
        final(bytes)@ == old(bytes)@ + T::head_image(*t, T::neutralized(*t, value@))
            + T::tail_image(*t, value@),
{
    value.write_head(t, bytes);
    value.entomb(t, bytes);
}

/// Destructively decodes a value of type `t` from `bytes`, starting at
/// offset `start`: treats the leading header-size bytes as the value's
/// header, reconstructs it against the remainder, and hands back the value
/// with the offset of the first unconsumed byte. Fails exactly when fewer
/// bytes are available than the header and tail require; never changes the
/// buffer's length.
pub fn decode<T: Abomonation>(t: &Ty, bytes: &mut Vec<u8>, start: usize) -> (r: Option<(T, usize)>)
    ensures
        final(bytes)@.len() == old(bytes)@.len(),
        ({
            let hs = head_size(*t);
            if start + hs > old(bytes)@.len() {
                r is None && final(bytes)@ == old(bytes)@
            } else {
                match T::exhumation(*t, old(bytes)@, start as int, start as int + hs) {
                    None => r is None,
                    Some(res) => r matches Some(x) && x.0@ == res.0 && x.1 as int == res.1
                        && final(bytes)@ == res.2,
                }
            }
        }),
{
    let hs = match head_size_of(t) {
        Some(h) => h,
        None => {
            proof {
                assert(old(bytes).len() == old(bytes)@.len());
            }
            return None;
        },
    };
    if hs > bytes.len() {
        return None;
    }
    if start > bytes.len() - hs {
        return None;
    }
    T::exhume(t, bytes, start, start + hs)
}

/// Validates a value of type `t` against `bytes` from offset `start`,
/// without any write: intended for buffers that already underwent a
/// successful decode, whose embedded offsets are therefore known to be
/// consistent. Hands back the value the buffer describes with the offset
/// of the first byte beyond it, or nothing on a short buffer or an address
/// mismatch.
pub fn verify<T: Abomonation>(t: &Ty, bytes: &Vec<u8>, start: usize) -> (r: Option<(T, usize)>)
    ensures
        ({
            let hs = head_size(*t);
            if start + hs > bytes@.len() {
                r is None
            } else {
                match T::validation(*t, bytes@, start as int, start as int + hs) {
                    None => r is None,
                    Some(res) => r matches Some(x) && x.0@ == res.0 && x.1 as int == res.1,
                }
            }
        }),
{
    let hs = match head_size_of(t) {
        Some(h) => h,
        None => {
            proof {
                assert(bytes.len() == bytes@.len());
            }
            return None;
        },
    };
    if hs > bytes.len() {
        return None;
    }
    if start > bytes.len() - hs {
        return None;
    }
    T::verify(t, bytes, start, start + hs)
}

} // verus!
