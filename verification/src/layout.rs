//! Type descriptors and the byte-level layout primitives of the protocol.
//!
//! A `Ty` describes one serializable type. The header of a value is laid out
//! from these descriptors alone: scalars as little-endian bytes, composites
//! as the concatenation of their constituents' headers, and every
//! owned-buffer type as fixed-width words holding an address, a length and a
//! capacity. All words are eight bytes, little-endian.

use vstd::prelude::*;
use vstd::bytes::*;

verus! {

broadcast use vstd::std_specs::vec::group_vec_axioms;

/// The sentinel written over every neutralized address field. It is a fixed,
/// invalid-but-nonzero protocol constant, never a live offset, because no
/// claimed region can start at offset one of a buffer whose header region is
/// at least one word wide.
pub const NEUTRAL_ADDR: u64 = 1;

/// A description of a serializable type: what the reader must statically
/// know to consume a binary image, since the wire format carries no tags.
pub enum Ty {
    U8,
    U16,
    U32,
    U64,
    I8,
    I16,
    I32,
    I64,
    Bool,
    Unit,
    /// A pair of two constituents, laid out one after the other.
    Pair(Box<Ty>, Box<Ty>),
    /// An optional value: a one-byte presence tag, then the payload header
    /// (zero-filled when absent, so the header size stays fixed).
    Opt(Box<Ty>),
    /// A dynamic array of elements: address, length and capacity words.
    Arr(Box<Ty>),
    /// A text buffer: address, length and capacity words over raw bytes.
    Text,
    /// A borrowed run of elements: an address word and a length word.
    Slice(Box<Ty>),
    /// A boxed single value: one address word.
    Boxed(Box<Ty>),
}

/// The size in bytes of the header region of a value of type `t`.
pub open spec fn head_size(t: Ty) -> nat
    decreases t,
{
    match t {
        Ty::U8 => 1,
        Ty::U16 => 2,
        Ty::U32 => 4,
        Ty::U64 => 8,
        Ty::I8 => 1,
        Ty::I16 => 2,
        Ty::I32 => 4,
        Ty::I64 => 8,
        Ty::Bool => 1,
        Ty::Unit => 0,
        Ty::Pair(a, b) => head_size(*a) + head_size(*b),
        Ty::Opt(e) => 1 + head_size(*e),
        Ty::Arr(_) => 24,
        Ty::Text => 24,
        Ty::Slice(_) => 16,
        Ty::Boxed(_) => 8,
    }
}

/// Computes the header size of `t`, or reports that it does not fit in a
/// machine word (possible only for absurdly nested pair descriptors).
pub fn head_size_of(t: &Ty) -> (r: Option<usize>)
    ensures
        match r {
            Some(n) => n == head_size(*t),
            None => head_size(*t) > usize::MAX,
        },
    decreases *t,
{
    match t {
        Ty::U8 => Some(1),
        Ty::U16 => Some(2),
        Ty::U32 => Some(4),
        Ty::U64 => Some(8),
        Ty::I8 => Some(1),
        Ty::I16 => Some(2),
        Ty::I32 => Some(4),
        Ty::I64 => Some(8),
        Ty::Bool => Some(1),
        Ty::Unit => Some(0),
        Ty::Pair(a, b) => {
            match (head_size_of(a), head_size_of(b)) {
                (Some(x), Some(y)) => x.checked_add(y),
                _ => None,
            }
        },
        Ty::Opt(e) => {
            match head_size_of(e) {
                Some(x) => x.checked_add(1),
                None => None,
            }
        },
        Ty::Arr(_) => Some(24),
        Ty::Text => Some(24),
        Ty::Slice(_) => Some(16),
        Ty::Boxed(_) => Some(8),
    }
}

/// A run of `n` zero bytes, used to pad the absent payload of an optional.
pub open spec fn zero_bytes(n: nat) -> Seq<u8> {
    Seq::new(n, |i: int| 0u8)
}

/// Replaces the bytes of `b` starting at `pos` with `s`.
pub open spec fn splice(b: Seq<u8>, pos: int, s: Seq<u8>) -> Seq<u8>
    recommends
        0 <= pos,
        pos + s.len() <= b.len(),
{
    b.subrange(0, pos) + s + b.subrange(pos + s.len(), b.len() as int)
}

/// The bit image of a signed byte, two's complement.
pub open spec fn i8_bits(x: i8) -> u8 {
    if x >= 0 {
        x as u8
    } else {
        (x + 256) as u8
    }
}

/// The signed byte a bit image stands for.
pub open spec fn i8_val(b: u8) -> i8 {
    if b < 128 {
        b as i8
    } else {
        (b - 256) as i8
    }
}

pub open spec fn i16_bits(x: i16) -> u16 {
    if x >= 0 {
        x as u16
    } else {
        (x + 0x10000) as u16
    }
}

pub open spec fn i16_val(b: u16) -> i16 {
    if b < 0x8000 {
        b as i16
    } else {
        (b - 0x10000) as i16
    }
}

pub open spec fn i32_bits(x: i32) -> u32 {
    if x >= 0 {
        x as u32
    } else {
        (x + 0x100000000) as u32
    }
}

pub open spec fn i32_val(b: u32) -> i32 {
    if b < 0x80000000 {
        b as i32
    } else {
        (b - 0x100000000) as i32
    }
}

pub open spec fn i64_bits(x: i64) -> u64 {
    if x >= 0 {
        x as u64
    } else {
        (x + 0x10000000000000000) as u64
    }
}

pub open spec fn i64_val(b: u64) -> i64 {
    if b < 0x8000000000000000 {
        b as i64
    } else {
        (b - 0x10000000000000000) as i64
    }
}

pub fn i8_to_bits(x: i8) -> (r: u8)
    ensures
        r == i8_bits(x),
{
    if x >= 0 {
        x as u8
    } else {
        ((x as i16) + 256) as u8
    }
}

pub fn i8_from_bits(b: u8) -> (r: i8)
    ensures
        r == i8_val(b),
{
    if b < 128 {
        b as i8
    } else {
        ((b as i16) - 256) as i8
    }
}

pub fn i16_to_bits(x: i16) -> (r: u16)
    ensures
        r == i16_bits(x),
{
    if x >= 0 {
        x as u16
    } else {
        ((x as i32) + 0x10000) as u16
    }
}

pub fn i16_from_bits(b: u16) -> (r: i16)
    ensures
        r == i16_val(b),
{
    if b < 0x8000 {
        b as i16
    } else {
        ((b as i32) - 0x10000) as i16
    }
}

pub fn i32_to_bits(x: i32) -> (r: u32)
    ensures
        r == i32_bits(x),
{
    if x >= 0 {
        x as u32
    } else {
        ((x as i64) + 0x100000000) as u32
    }
}

pub fn i32_from_bits(b: u32) -> (r: i32)
    ensures
        r == i32_val(b),
{
    if b < 0x80000000 {
        b as i32
    } else {
        ((b as i64) - 0x100000000) as i32
    }
}

pub fn i64_to_bits(x: i64) -> (r: u64)
    ensures
        r == i64_bits(x),
{
    if x >= 0 {
        x as u64
    } else {
        ((x as i128) + 0x10000000000000000) as u64
    }
}

pub fn i64_from_bits(b: u64) -> (r: i64)
    ensures
        r == i64_val(b),
{
    if b < 0x8000000000000000 {
        b as i64
    } else {
        ((b as i128) - 0x10000000000000000) as i64
    }
}

/// Appends the little-endian bytes of `x`.
pub fn push_u16(x: u16, out: &mut Vec<u8>)
    ensures
        final(out)@ == old(out)@ + spec_u16_to_le_bytes(x),
{
    let mut s = u16_to_le_bytes(x);
    out.append(&mut s);
}

/// Appends the little-endian bytes of `x`.
pub fn push_u32(x: u32, out: &mut Vec<u8>)
    ensures
        final(out)@ == old(out)@ + spec_u32_to_le_bytes(x),
{
    let mut s = u32_to_le_bytes(x);
    out.append(&mut s);
}

/// Appends the little-endian bytes of `x`.
pub fn push_u64(x: u64, out: &mut Vec<u8>)
    ensures
        final(out)@ == old(out)@ + spec_u64_to_le_bytes(x),
{
    let mut s = u64_to_le_bytes(x);
    out.append(&mut s);
}

/// Appends `n` zero bytes.
pub fn push_zeros(n: usize, out: &mut Vec<u8>)
    ensures
        final(out)@ == old(out)@ + zero_bytes(n as nat),
{
    let mut j: usize = 0;
    while j < n
        invariant
            j <= n,
            out@ == old(out)@ + zero_bytes(j as nat),
        decreases n - j,
    {
        out.push(0u8);
        proof {
            assert(out@ =~= old(out)@ + zero_bytes((j + 1) as nat));
        }
        j = j + 1;
    }
}

/// Reads the little-endian word at `pos`.
pub fn read_u16(b: &Vec<u8>, pos: usize) -> (x: u16)
    requires
        pos + 2 <= b.len(),
    ensures
        x == spec_u16_from_le_bytes(b@.subrange(pos as int, pos as int + 2)),
{
    let mut tmp: Vec<u8> = Vec::new();
    tmp.push(b[pos]);
    tmp.push(b[pos + 1]);
    proof {
        assert(tmp@ =~= b@.subrange(pos as int, pos as int + 2));
    }
    u16_from_le_bytes(tmp.as_slice())
}

/// Reads the little-endian word at `pos`.
pub fn read_u32(b: &Vec<u8>, pos: usize) -> (x: u32)
    requires
        pos + 4 <= b.len(),
    ensures
        x == spec_u32_from_le_bytes(b@.subrange(pos as int, pos as int + 4)),
{
    let mut tmp: Vec<u8> = Vec::new();
    tmp.push(b[pos]);
    tmp.push(b[pos + 1]);
    tmp.push(b[pos + 2]);
    tmp.push(b[pos + 3]);
    proof {
        assert(tmp@ =~= b@.subrange(pos as int, pos as int + 4));
    }
    u32_from_le_bytes(tmp.as_slice())
}

/// Reads the little-endian word at `pos`.
pub fn read_u64(b: &Vec<u8>, pos: usize) -> (x: u64)
    requires
        pos + 8 <= b.len(),
    ensures
        x == spec_u64_from_le_bytes(b@.subrange(pos as int, pos as int + 8)),
{
    let mut tmp: Vec<u8> = Vec::new();
    let mut j: usize = 0;
    while j < 8
        invariant
            j <= 8,
            pos + 8 <= b.len(),
            tmp@ == b@.subrange(pos as int, pos as int + j),
        decreases 8 - j,
    {
        tmp.push(b[pos + j]);
        proof {
            assert(tmp@ =~= b@.subrange(pos as int, pos as int + j + 1));
        }
        j = j + 1;
    }
    u64_from_le_bytes(tmp.as_slice())
}

/// Overwrites the word at `pos` with the little-endian bytes of `x`.
#[verifier::loop_isolation(false)]
pub fn set_u64(b: &mut Vec<u8>, pos: usize, x: u64)
    requires
        pos + 8 <= old(b).len(),
    ensures
        final(b)@ == splice(old(b)@, pos as int, spec_u64_to_le_bytes(x)),
{
    let s = u64_to_le_bytes(x);
    let mut j: usize = 0;
    while j < 8
        invariant
            j <= 8,
            pos + 8 <= b.len(),
            b@.len() == old(b)@.len(),
            s@ == spec_u64_to_le_bytes(x),
            forall|k: int| 0 <= k < b@.len() && !(pos <= k < pos + j) ==> b@[k] == old(b)@[k],
            forall|k: int| 0 <= k < j ==> b@[pos + k] == s@[k],
        decreases 8 - j,
    {
        b[pos + j] = s[j];
        j = j + 1;
    }
    proof {
        assert(b@ =~= splice(old(b)@, pos as int, spec_u64_to_le_bytes(x)));
    }
}

} // verus!
