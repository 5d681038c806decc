//! Native-like values.
//!
//! A `Value` holds concrete data in the shape of a `ValueType`: a bit, a
//! fixed-width unsigned integer, or a nested homogeneous array of values.
//! Values are produced by decoding evaluated circuit bits, by random
//! generation for test vectors, or by direct construction; they serialize
//! back into bit sequences and combine leaf-wise by XOR.

use crate::bits::{
    bits_to_nat, lemma_bits_to_nat_bound, lemma_bits_to_nat_lsb0, lemma_lsb0_len, lemma_pow2_128,
    lsb0, msb0, reverse_bits, u128_from_lsb0, u128_to_lsb0,
};
use crate::error::TypeError;
use crate::repr::BinaryRepr;
use crate::value_type::ValueType;
use rand::Rng;
use vstd::arithmetic::div_mod::{lemma_fundamental_div_mod, lemma_mod_bound};
use vstd::arithmetic::mul::lemma_mul_inequality;
use vstd::arithmetic::power2::lemma2_to64;
use vstd::prelude::*;
use vstd::slice::slice_subrange;

verus! {

/// A value that can be encoded into a binary representation.
#[derive(Debug, PartialEq)]
pub enum Value {
    Bit(bool),
    U8(u8),
    U16(u16),
    U32(u32),
    U64(u64),
    U128(u128),
    Array(Vec<Value>),
}

/// Flat LSB-first bit sequence of a sequence of values, in order.
pub open spec fn vals_lsb0(s: Seq<Value>) -> Seq<bool>
    decreases s,
{
    if s.len() == 0 {
        Seq::empty()
    } else {
        s[0].lsb0_bits() + vals_lsb0(s.drop_first())
    }
}

/// Flat MSB-first bit sequence of a sequence of values, in order.
pub open spec fn vals_msb0(s: Seq<Value>) -> Seq<bool>
    decreases s,
{
    if s.len() == 0 {
        Seq::empty()
    } else {
        s[0].msb0_bits() + vals_msb0(s.drop_first())
    }
}

impl Clone for Value {
    /// A clone is structurally the same value.
    fn clone(&self) -> (r: Self)
        ensures
            same_value(*self, r),
        decreases *self,
    {
        match self {
            Value::Bit(b) => Value::Bit(*b),
            Value::U8(x) => Value::U8(*x),
            Value::U16(x) => Value::U16(*x),
            Value::U32(x) => Value::U32(*x),
            Value::U64(x) => Value::U64(*x),
            Value::U128(x) => Value::U128(*x),
            Value::Array(v) => {
                let n = v.len();
                let mut out: Vec<Value> = Vec::new();
                let mut i: usize = 0;
                while i < n
                    invariant
                        i <= n,
                        n == v@.len(),
                        *self == Value::Array(*v),
                        out@.len() == i,
                        forall|j: int| 0 <= j < i ==> #[trigger] same_value(v@[j], out@[j]),
                    decreases n - i,
                {
                    proof {
                        assert(decreases_to!(*self => self->Array_0));
                        assert(decreases_to!(*v => v@));
                        assert(decreases_to!(v@ => v@[i as int]));
                        assert(decreases_to!(*self => v@[i as int]));
                    }
                    let part = v[i].clone();
                    out.push(part);
                    i = i + 1;
                }
                proof {
                    lemma_same_values_intro(v@, out@);
                }
                Value::Array(out)
            },
        }
    }
}

impl Value {
    /// Shape inference reads the variant tag, and for an array the first
    /// element; an array must have one along that path.
    pub open spec fn shape_defined(self) -> bool
        decreases self,
    {
        match self {
            Value::Array(v) => v@.len() > 0 && v@[0].shape_defined(),
            _ => true,
        }
    }

    /// The shape of the value, inferred from the variant tag and, for an
    /// array, from its first element.
    pub open spec fn shape(self) -> ValueType
        recommends
            self.shape_defined(),
        decreases self,
    {
        match self {
            Value::Bit(_) => ValueType::Bit,
            Value::U8(_) => ValueType::U8,
            Value::U16(_) => ValueType::U16,
            Value::U32(_) => ValueType::U32,
            Value::U64(_) => ValueType::U64,
            Value::U128(_) => ValueType::U128,
            Value::Array(v) => ValueType::Array(
                Box::new(
                    if v@.len() > 0 {
                        v@[0].shape()
                    } else {
                        ValueType::Bit
                    },
                ),
                v@.len() as usize,
            ),
        }
    }

    /// The value has shape `t`: scalars by tag, arrays elementwise.
    pub open spec fn matches_type(self, t: ValueType) -> bool
        decreases self,
    {
        match self {
            Value::Bit(_) => t == ValueType::Bit,
            Value::U8(_) => t == ValueType::U8,
            Value::U16(_) => t == ValueType::U16,
            Value::U32(_) => t == ValueType::U32,
            Value::U64(_) => t == ValueType::U64,
            Value::U128(_) => t == ValueType::U128,
            Value::Array(v) => {
                &&& t matches ValueType::Array(et, n)
                &&& v@.len() == n
                &&& forall|i: int| 0 <= i < v@.len() ==> (#[trigger] v@[i]).matches_type(*et)
            },
        }
    }

    /// Well-formed: every array is non-empty and homogeneous, so the
    /// inferred shape describes every element.
    pub open spec fn wf(self) -> bool
        decreases self,
    {
        match self {
            Value::Array(v) => v@.len() > 0 && (forall|i: int|
                0 <= i < v@.len() ==> (#[trigger] v@[i]).wf() && v@[i].shape() == v@[0].shape()),
            _ => true,
        }
    }

    /// The LSB-first bit sequence of the value: leaves flattened in
    /// structural order, each leaf contributing its bits LSB first.
    pub open spec fn lsb0_bits(self) -> Seq<bool>
        decreases self,
    {
        match self {
            Value::Bit(b) => seq![b],
            Value::U8(x) => lsb0(x as nat, 8),
            Value::U16(x) => lsb0(x as nat, 16),
            Value::U32(x) => lsb0(x as nat, 32),
            Value::U64(x) => lsb0(x as nat, 64),
            Value::U128(x) => lsb0(x as nat, 128),
            Value::Array(v) => vals_lsb0(v@),
        }
    }

    /// The MSB-first bit sequence of the value: leaves flattened in
    /// structural order, each leaf contributing its bits MSB first.
    pub open spec fn msb0_bits(self) -> Seq<bool>
        decreases self,
    {
        match self {
            Value::Bit(b) => seq![b],
            Value::U8(x) => msb0(x as nat, 8),
            Value::U16(x) => msb0(x as nat, 16),
            Value::U32(x) => msb0(x as nat, 32),
            Value::U64(x) => msb0(x as nat, 64),
            Value::U128(x) => msb0(x as nat, 128),
            Value::Array(v) => vals_msb0(v@),
        }
    }

    /// Returns the type of the value.
    ///
    /// The shape is read from the variant tag; for an array it is inferred
    /// from the first element, so an array must have one.
    pub fn value_type(&self) -> (r: ValueType)
        requires
            self.shape_defined(),
        ensures
            r == self.shape(),
        decreases *self,
    {
        match self {
            Value::Bit(_) => ValueType::Bit,
            Value::U8(_) => ValueType::U8,
            Value::U16(_) => ValueType::U16,
            Value::U32(_) => ValueType::U32,
            Value::U64(_) => ValueType::U64,
            Value::U128(_) => ValueType::U128,
            Value::Array(v) => {
                let t = v[0].value_type();
                ValueType::Array(Box::new(t), v.len())
            },
        }
    }

    /// Builds the LSB-first bit vector of the value.
    fn lsb0_vec(&self) -> (r: Vec<bool>)
        ensures
            r@ == self.lsb0_bits(),
        decreases *self,
    {
        match self {
            Value::Bit(b) => {
                let mut r: Vec<bool> = Vec::new();
                r.push(*b);
                proof {
                    assert(r@ =~= seq![*b]);
                }
                r
            },
            Value::U8(x) => u128_to_lsb0(*x as u128, 8),
            Value::U16(x) => u128_to_lsb0(*x as u128, 16),
            Value::U32(x) => u128_to_lsb0(*x as u128, 32),
            Value::U64(x) => u128_to_lsb0(*x as u128, 64),
            Value::U128(x) => u128_to_lsb0(*x, 128),
            Value::Array(v) => {
                let n = v.len();
                let mut r: Vec<bool> = Vec::new();
                let mut i: usize = 0;
                while i < n
                    invariant
                        i <= n,
                        n == v@.len(),
                        *self == Value::Array(*v),
                        r@ == vals_lsb0(v@.subrange(0, i as int)),
                    decreases n - i,
                {
                    proof {
                        assert(decreases_to!(*self => self->Array_0));
                        assert(decreases_to!(*v => v@));
                        assert(decreases_to!(v@ => v@[i as int]));
                        assert(decreases_to!(*self => v@[i as int]));
                    }
                    let mut part = v[i].lsb0_vec();
                    r.append(&mut part);
                    proof {
                        lemma_vals_lsb0_push(v@.subrange(0, i as int), v@[i as int]);
                        assert(v@.subrange(0, i as int).push(v@[i as int]) =~= v@.subrange(
                            0,
                            i + 1,
                        ));
                    }
                    i = i + 1;
                }
                proof {
                    assert(v@.subrange(0, n as int) =~= v@);
                }
                r
            },
        }
    }

    /// Builds the MSB-first bit vector of the value.
    fn msb0_vec(&self) -> (r: Vec<bool>)
        ensures
            r@ == self.msb0_bits(),
        decreases *self,
    {
        match self {
            Value::Bit(b) => {
                let mut r: Vec<bool> = Vec::new();
                r.push(*b);
                proof {
                    assert(r@ =~= seq![*b]);
                }
                r
            },
            Value::U8(x) => reverse_bits(u128_to_lsb0(*x as u128, 8)),
            Value::U16(x) => reverse_bits(u128_to_lsb0(*x as u128, 16)),
            Value::U32(x) => reverse_bits(u128_to_lsb0(*x as u128, 32)),
            Value::U64(x) => reverse_bits(u128_to_lsb0(*x as u128, 64)),
            Value::U128(x) => reverse_bits(u128_to_lsb0(*x, 128)),
            Value::Array(v) => {
                let n = v.len();
                let mut r: Vec<bool> = Vec::new();
                let mut i: usize = 0;
                while i < n
                    invariant
                        i <= n,
                        n == v@.len(),
                        *self == Value::Array(*v),
                        r@ == vals_msb0(v@.subrange(0, i as int)),
                    decreases n - i,
                {
                    proof {
                        assert(decreases_to!(*self => self->Array_0));
                        assert(decreases_to!(*v => v@));
                        assert(decreases_to!(v@ => v@[i as int]));
                        assert(decreases_to!(*self => v@[i as int]));
                    }
                    let mut part = v[i].msb0_vec();
                    r.append(&mut part);
                    proof {
                        lemma_vals_msb0_push(v@.subrange(0, i as int), v@[i as int]);
                        assert(v@.subrange(0, i as int).push(v@[i as int]) =~= v@.subrange(
                            0,
                            i + 1,
                        ));
                    }
                    i = i + 1;
                }
                proof {
                    assert(v@.subrange(0, n as int) =~= v@);
                }
                r
            },
        }
    }

    /// Consumes the value into its LSB-first bit sequence: nested arrays
    /// flattened in structural order, each leaf LSB first.
    pub fn into_iter_lsb0(self) -> (r: Vec<bool>)
        ensures
            r@ == self.lsb0_bits(),
    {
        self.lsb0_vec()
    }

    /// Consumes the value into its MSB-first bit sequence: nested arrays
    /// flattened in structural order, each leaf MSB first.
    pub fn into_iter_msb0(self) -> (r: Vec<bool>)
        ensures
            r@ == self.msb0_bits(),
    {
        self.msb0_vec()
    }

    /// Creates a new value of the given type using the provided rng,
    /// drawing independently per scalar leaf.
    pub fn random<R: Rng>(rng: &mut R, ty: &ValueType) -> (r: Value)
        ensures
            r.matches_type(*ty),
        decreases *ty,
    {
        match ty {
            ValueType::Bit => Value::Bit(random_scalar(rng)),
            ValueType::U8 => Value::U8(random_scalar(rng)),
            ValueType::U16 => Value::U16(random_scalar(rng)),
            ValueType::U32 => Value::U32(random_scalar(rng)),
            ValueType::U64 => Value::U64(random_scalar(rng)),
            ValueType::U128 => Value::U128(random_scalar(rng)),
            ValueType::Array(et, n) => {
                let count = *n;
                let mut out: Vec<Value> = Vec::new();
                let mut i: usize = 0;
                while i < count
                    invariant
                        i <= count,
                        *ty is Array,
                        ty->Array_0 == *et,
                        ty->Array_1 == count,
                        out@.len() == i,
                        forall|j: int| 0 <= j < i ==> (#[trigger] out@[j]).matches_type(**et),
                    decreases count - i,
                {
                    proof {
                        assert(decreases_to!(*ty => ty->Array_0));
                        assert(decreases_to!(*ty => **et));
                    }
                    let x = Value::random(rng, et);
                    out.push(x);
                    i = i + 1;
                }
                Value::Array(out)
            },
        }
    }
}

/// What decoding a `t`-shaped LSB-first bit sequence yields: the value of
/// shape `t` whose scalar leaves read the corresponding bit chunks with
/// index 0 as the least-significant bit.
pub open spec fn decodes(t: ValueType, bits: Seq<bool>, v: Value) -> bool
    decreases t,
{
    match t {
        ValueType::Bit => bits.len() == 1 && v == Value::Bit(bits[0]),
        ValueType::U8 => {
            &&& bits.len() == 8
            &&& v matches Value::U8(x)
            &&& x as nat == bits_to_nat(bits)
        },
        ValueType::U16 => {
            &&& bits.len() == 16
            &&& v matches Value::U16(x)
            &&& x as nat == bits_to_nat(bits)
        },
        ValueType::U32 => {
            &&& bits.len() == 32
            &&& v matches Value::U32(x)
            &&& x as nat == bits_to_nat(bits)
        },
        ValueType::U64 => {
            &&& bits.len() == 64
            &&& v matches Value::U64(x)
            &&& x as nat == bits_to_nat(bits)
        },
        ValueType::U128 => {
            &&& bits.len() == 128
            &&& v matches Value::U128(x)
            &&& x as nat == bits_to_nat(bits)
        },
        ValueType::Array(et, n) => {
            let w = et.spec_len() as int;
            &&& bits.len() == et.spec_len() * n
            &&& v matches Value::Array(vs)
            &&& vs@.len() == n
            &&& forall|i: int|
                0 <= i < vs@.len() ==> decodes(
                    *et,
                    bits.subrange(i * w, (i + 1) * w),
                    #[trigger] vs@[i],
                )
        },
    }
}

impl ValueType {
    /// Decodes a bit slice of exactly this shape's length into a value.
    fn decode_exact(&self, bits: &[bool]) -> (v: Value)
        requires
            self.fits(),
            self.elems_sized(),
            bits@.len() == self.spec_len(),
        ensures
            decodes(*self, bits@, v),
        decreases *self,
    {
        match self {
            ValueType::Bit => Value::Bit(bits[0]),
            ValueType::U8 => {
                proof {
                    lemma_bits_to_nat_bound(bits@);
                    lemma2_to64();
                }
                Value::U8(u128_from_lsb0(bits) as u8)
            },
            ValueType::U16 => {
                proof {
                    lemma_bits_to_nat_bound(bits@);
                    lemma2_to64();
                }
                Value::U16(u128_from_lsb0(bits) as u16)
            },
            ValueType::U32 => {
                proof {
                    lemma_bits_to_nat_bound(bits@);
                    lemma2_to64();
                }
                Value::U32(u128_from_lsb0(bits) as u32)
            },
            ValueType::U64 => {
                proof {
                    lemma_bits_to_nat_bound(bits@);
                    lemma2_to64();
                }
                Value::U64(u128_from_lsb0(bits) as u64)
            },
            ValueType::U128 => {
                proof {
                    lemma_bits_to_nat_bound(bits@);
                    lemma_pow2_128();
                }
                Value::U128(u128_from_lsb0(bits))
            },
            ValueType::Array(et, n) => {
                let w = et.len();
                let count = *n;
                let mut out: Vec<Value> = Vec::new();
                let mut i: usize = 0;
                proof {
                    assert(self.spec_len() == et.spec_len() * count);
                }
                while i < count
                    invariant
                        i <= count,
                        *self is Array,
                        self->Array_0 == *et,
                        self->Array_1 == count,
                        et.fits(),
                        et.elems_sized(),
                        w == et.spec_len(),
                        w >= 1,
                        bits@.len() == w * count <= usize::MAX,
                        out@.len() == i,
                        forall|j: int|
                            0 <= j < i ==> decodes(
                                **et,
                                bits@.subrange(j * (w as int), (j + 1) * (w as int)),
                                #[trigger] out@[j],
                            ),
                    decreases count - i,
                {
                    proof {
                        lemma_mul_inequality(i + 1 as int, count as int, w as int);
                        lemma_mul_inequality(i as int, count as int, w as int);
                        assert((i + 1) * w == i * w + w) by (nonlinear_arith);
                        assert(decreases_to!(*self => self->Array_0));
                        assert(decreases_to!(*self => **et));
                    }
                    let start = i * w;
                    let stop = start + w;
                    let chunk = slice_subrange(bits, start, stop);
                    let part = et.decode_exact(chunk);
                    out.push(part);
                    i = i + 1;
                }
                Value::Array(out)
            },
        }
    }
}

impl BinaryRepr {
    /// Decodes the type from a binary value: `bits` are the evaluated
    /// wires of this representation, listed LSB first in structural order,
    /// and the result is the value they denote.
    ///
    /// Fails with `InvalidLength` whenever the bit count differs from the
    /// bit length of the representation.
    pub fn from_bin_repr(&self, bits: &[bool]) -> (r: Result<Value, TypeError>)
        requires
            self.spec_len() <= usize::MAX,
            bits@.len() == self.spec_len() ==> self.decodable(),
        ensures
            r is Ok <==> bits@.len() == self.spec_len(),
            r matches Ok(v) ==> decodes(self.shape(), bits@, v),
            r matches Err(e)
                ==> e matches TypeError::InvalidLength { expected, actual } && expected
                == self.spec_len() && actual == bits@.len(),
    {
        let expected = self.len();
        if bits.len() != expected {
            return Err(TypeError::InvalidLength { expected, actual: bits.len() });
        }
        proof {
            crate::repr::lemma_decodable_shape(*self);
        }
        let t = self.value_type();
        Ok(t.decode_exact(bits))
    }
}

/// Two values combine by leaf-wise XOR: equal scalar tags, and for arrays
/// every pair over the shared prefix combines in turn. The tail of the
/// longer array plays no part: pairing walks both arrays in step and stops
/// at the shorter one, whose length the result takes.
pub open spec fn xor_compat(a: Value, b: Value) -> bool
    decreases a,
{
    match (a, b) {
        (Value::Bit(_), Value::Bit(_)) => true,
        (Value::U8(_), Value::U8(_)) => true,
        (Value::U16(_), Value::U16(_)) => true,
        (Value::U32(_), Value::U32(_)) => true,
        (Value::U64(_), Value::U64(_)) => true,
        (Value::U128(_), Value::U128(_)) => true,
        (Value::Array(x), Value::Array(y)) => xor_seq_compat(x@, y@),
        _ => false,
    }
}

/// Every pair of two value sequences, walked in step up to the shorter
/// end, combines.
pub open spec fn xor_seq_compat(x: Seq<Value>, y: Seq<Value>) -> bool
    decreases x,
{
    if x.len() == 0 || y.len() == 0 {
        true
    } else {
        xor_compat(x[0], y[0]) && xor_seq_compat(x.drop_first(), y.drop_first())
    }
}

/// How a successful combination relates to its operands: scalar leaves
/// XOR-ed, arrays combined pointwise over the shared prefix, whose length
/// the result takes.
pub open spec fn xor_rel(a: Value, b: Value, r: Value) -> bool
    decreases a,
{
    match (a, b) {
        (Value::Bit(p), Value::Bit(q)) => r == Value::Bit(p ^ q),
        (Value::U8(p), Value::U8(q)) => r == Value::U8(p ^ q),
        (Value::U16(p), Value::U16(q)) => r == Value::U16(p ^ q),
        (Value::U32(p), Value::U32(q)) => r == Value::U32(p ^ q),
        (Value::U64(p), Value::U64(q)) => r == Value::U64(p ^ q),
        (Value::U128(p), Value::U128(q)) => r == Value::U128(p ^ q),
        (Value::Array(x), Value::Array(y)) => {
            &&& r matches Value::Array(z)
            &&& xor_seq_rel(x@, y@, z@)
        },
        _ => false,
    }
}

/// The pointwise combination of two value sequences, walked in step up to
/// the shorter end.
pub open spec fn xor_seq_rel(x: Seq<Value>, y: Seq<Value>, z: Seq<Value>) -> bool
    decreases x,
{
    if x.len() == 0 || y.len() == 0 {
        z.len() == 0
    } else {
        &&& z.len() > 0
        &&& xor_rel(x[0], y[0], z[0])
        &&& xor_seq_rel(x.drop_first(), y.drop_first(), z.drop_first())
    }
}

/// Which error an incompatible combination reports: the inferred shapes of
/// the first incompatible pair, found left to right, depth first.
pub open spec fn xor_errs(a: Value, b: Value, e: TypeError) -> bool
    decreases a,
{
    match (a, b) {
        (Value::Bit(_), Value::Bit(_)) => false,
        (Value::U8(_), Value::U8(_)) => false,
        (Value::U16(_), Value::U16(_)) => false,
        (Value::U32(_), Value::U32(_)) => false,
        (Value::U64(_), Value::U64(_)) => false,
        (Value::U128(_), Value::U128(_)) => false,
        (Value::Array(x), Value::Array(y)) => xor_seq_errs(x@, y@, e),
        _ => {
            &&& e matches TypeError::UnexpectedType { expected, actual }
            &&& expected == a.shape()
            &&& actual == b.shape()
        },
    }
}

/// The error of the first incompatible pair of two value sequences, walked
/// in step.
pub open spec fn xor_seq_errs(x: Seq<Value>, y: Seq<Value>, e: TypeError) -> bool
    decreases x,
{
    if x.len() == 0 || y.len() == 0 {
        false
    } else if !xor_compat(x[0], y[0]) {
        xor_errs(x[0], y[0], e)
    } else {
        xor_seq_errs(x.drop_first(), y.drop_first(), e)
    }
}

/// Shape inference is defined on both sides of the first incompatible
/// pair, wherever the combination fails: exactly what reporting the error
/// needs.
pub open spec fn xor_err_defined(a: Value, b: Value) -> bool
    decreases a,
{
    match (a, b) {
        (Value::Bit(_), Value::Bit(_)) => true,
        (Value::U8(_), Value::U8(_)) => true,
        (Value::U16(_), Value::U16(_)) => true,
        (Value::U32(_), Value::U32(_)) => true,
        (Value::U64(_), Value::U64(_)) => true,
        (Value::U128(_), Value::U128(_)) => true,
        (Value::Array(x), Value::Array(y)) => xor_seq_err_defined(x@, y@),
        _ => a.shape_defined() && b.shape_defined(),
    }
}

/// Shape inference is defined at the first incompatible pair of two value
/// sequences, walked in step.
pub open spec fn xor_seq_err_defined(x: Seq<Value>, y: Seq<Value>) -> bool
    decreases x,
{
    if x.len() == 0 || y.len() == 0 {
        true
    } else if !xor_compat(x[0], y[0]) {
        xor_err_defined(x[0], y[0])
    } else {
        xor_seq_err_defined(x.drop_first(), y.drop_first())
    }
}

/// Sequences compatible as wholes are compatible at every shared index.
proof fn lemma_xor_seq_compat_elim(x: Seq<Value>, y: Seq<Value>, j: int)
    requires
        xor_seq_compat(x, y),
        0 <= j < x.len(),
        0 <= j < y.len(),
    ensures
        xor_compat(x[j], y[j]),
    decreases j,
{
    if j > 0 {
        lemma_xor_seq_compat_elim(x.drop_first(), y.drop_first(), j - 1);
        assert(x.drop_first()[j - 1] == x[j]);
    }
}

/// Sequences compatible at every shared index are compatible as wholes.
proof fn lemma_xor_seq_compat_intro(x: Seq<Value>, y: Seq<Value>)
    requires
        forall|j: int| 0 <= j < x.len() && j < y.len() ==> #[trigger] xor_compat(x[j], y[j]),
    ensures
        xor_seq_compat(x, y),
    decreases x.len(),
{
    if x.len() > 0 && y.len() > 0 {
        assert(xor_compat(x[0], y[0]));
        assert forall|j: int|
            0 <= j < x.drop_first().len() && j < y.drop_first().len() implies #[trigger] xor_compat(
            x.drop_first()[j],
            y.drop_first()[j],
        ) by {
            assert(x.drop_first()[j] == x[j + 1]);
            assert(y.drop_first()[j] == y[j + 1]);
            assert(xor_compat(x[j + 1], y[j + 1]));
        };
        lemma_xor_seq_compat_intro(x.drop_first(), y.drop_first());
    }
}

/// A sequence of the shared length whose entries combine the operands
/// pointwise is the pointwise combination.
proof fn lemma_xor_seq_rel_intro(x: Seq<Value>, y: Seq<Value>, z: Seq<Value>)
    requires
        z.len() == (if x.len() <= y.len() {
            x.len() as int
        } else {
            y.len() as int
        }),
        forall|j: int| 0 <= j < z.len() ==> #[trigger] xor_rel(x[j], y[j], z[j]),
    ensures
        xor_seq_rel(x, y, z),
    decreases x.len(),
{
    if x.len() > 0 && y.len() > 0 {
        assert(xor_rel(x[0], y[0], z[0]));
        assert forall|j: int| 0 <= j < z.drop_first().len() implies #[trigger] xor_rel(
            x.drop_first()[j],
            y.drop_first()[j],
            z.drop_first()[j],
        ) by {
            assert(x.drop_first()[j] == x[j + 1]);
            assert(y.drop_first()[j] == y[j + 1]);
            assert(z.drop_first()[j] == z[j + 1]);
            assert(xor_rel(x[j + 1], y[j + 1], z[j + 1]));
        };
        lemma_xor_seq_rel_intro(x.drop_first(), y.drop_first(), z.drop_first());
    }
}

/// An error of the first incompatible pair, behind a compatible prefix, is
/// the error of the sequences.
proof fn lemma_xor_seq_errs_intro(x: Seq<Value>, y: Seq<Value>, i: int, e: TypeError)
    requires
        0 <= i < x.len(),
        0 <= i < y.len(),
        forall|j: int| 0 <= j < i ==> #[trigger] xor_compat(x[j], y[j]),
        !xor_compat(x[i], y[i]),
        xor_errs(x[i], y[i], e),
    ensures
        xor_seq_errs(x, y, e),
    decreases i,
{
    if i == 0 {
    } else {
        assert(xor_compat(x[0], y[0]));
        assert forall|j: int| 0 <= j < i - 1 implies #[trigger] xor_compat(
            x.drop_first()[j],
            y.drop_first()[j],
        ) by {
            assert(x.drop_first()[j] == x[j + 1]);
            assert(y.drop_first()[j] == y[j + 1]);
            assert(xor_compat(x[j + 1], y[j + 1]));
        };
        assert(x.drop_first()[i - 1] == x[i]);
        assert(y.drop_first()[i - 1] == y[i]);
        lemma_xor_seq_errs_intro(x.drop_first(), y.drop_first(), i - 1, e);
    }
}

/// Where error shapes are defined for two sequences, they are defined at
/// the first incompatible pair behind any compatible prefix.
proof fn lemma_xor_seq_err_defined_elim(x: Seq<Value>, y: Seq<Value>, i: int)
    requires
        xor_seq_err_defined(x, y),
        0 <= i < x.len(),
        0 <= i < y.len(),
        forall|j: int| 0 <= j < i ==> #[trigger] xor_compat(x[j], y[j]),
        !xor_compat(x[i], y[i]),
    ensures
        xor_err_defined(x[i], y[i]),
    decreases i,
{
    if i == 0 {
    } else {
        assert(xor_compat(x[0], y[0]));
        assert forall|j: int| 0 <= j < i - 1 implies #[trigger] xor_compat(
            x.drop_first()[j],
            y.drop_first()[j],
        ) by {
            assert(x.drop_first()[j] == x[j + 1]);
            assert(y.drop_first()[j] == y[j + 1]);
            assert(xor_compat(x[j + 1], y[j + 1]));
        };
        assert(x.drop_first()[i - 1] == x[i]);
        assert(y.drop_first()[i - 1] == y[i]);
        lemma_xor_seq_err_defined_elim(x.drop_first(), y.drop_first(), i - 1);
    }
}

impl Value {
    /// Combines two values of identical shape by XOR-ing corresponding
    /// scalar leaves.
    ///
    /// Fails with `UnexpectedType`, naming the two inferred shapes, at the
    /// first pair of leaves whose variants differ. Two arrays combine over
    /// the shared prefix of their elements; a longer operand's tail is
    /// dropped, so the result takes the shorter length.
    pub fn bitxor(&self, rhs: &Value) -> (r: Result<Value, TypeError>)
        requires
            xor_compat(*self, *rhs) || xor_err_defined(*self, *rhs),
        ensures
            r is Ok <==> xor_compat(*self, *rhs),
            r matches Ok(v) ==> xor_rel(*self, *rhs, v),
            r matches Err(e) ==> xor_errs(*self, *rhs, e),
        decreases *self,
    {
        match (self, rhs) {
            (Value::Bit(a), Value::Bit(b)) => Ok(Value::Bit(*a ^ *b)),
            (Value::U8(a), Value::U8(b)) => Ok(Value::U8(*a ^ *b)),
            (Value::U16(a), Value::U16(b)) => Ok(Value::U16(*a ^ *b)),
            (Value::U32(a), Value::U32(b)) => Ok(Value::U32(*a ^ *b)),
            (Value::U64(a), Value::U64(b)) => Ok(Value::U64(*a ^ *b)),
            (Value::U128(a), Value::U128(b)) => Ok(Value::U128(*a ^ *b)),
            (Value::Array(x), Value::Array(y)) => {
                let m = if x.len() <= y.len() {
                    x.len()
                } else {
                    y.len()
                };
                let mut out: Vec<Value> = Vec::new();
                let mut i: usize = 0;
                while i < m
                    invariant
                        i <= m,
                        m == (if x@.len() <= y@.len() {
                            x@.len() as int
                        } else {
                            y@.len() as int
                        }),
                        *self == Value::Array(*x),
                        *rhs == Value::Array(*y),
                        self->Array_0 == *x,
                        rhs->Array_0 == *y,
                        xor_compat(*self, *rhs) || xor_err_defined(*self, *rhs),
                        out@.len() == i,
                        forall|j: int| 0 <= j < i ==> #[trigger] xor_compat(x@[j], y@[j]),
                        forall|j: int| 0 <= j < i ==> #[trigger] xor_rel(x@[j], y@[j], out@[j]),
                    decreases m - i,
                {
                    proof {
                        assert(decreases_to!(*self => self->Array_0));
                        assert(decreases_to!(*x => x@));
                        assert(decreases_to!(x@ => x@[i as int]));
                        assert(decreases_to!(*self => x@[i as int]));
                        if !xor_compat(x@[i as int], y@[i as int]) {
                            assert(!xor_compat(*self, *rhs)) by {
                                if xor_compat(*self, *rhs) {
                                    assert(xor_seq_compat(x@, y@));
                                    lemma_xor_seq_compat_elim(x@, y@, i as int);
                                }
                            };
                            assert(xor_seq_err_defined(x@, y@));
                            lemma_xor_seq_err_defined_elim(x@, y@, i as int);
                        }
                    }
                    let c = x[i].bitxor(&y[i]);
                    match c {
                        Ok(v) => {
                            out.push(v);
                        },
                        Err(e) => {
                            proof {
                                lemma_xor_seq_errs_intro(x@, y@, i as int, e);
                                assert(xor_errs(*self, *rhs, e));
                                assert(!xor_compat(*self, *rhs)) by {
                                    if xor_compat(*self, *rhs) {
                                        assert(xor_seq_compat(x@, y@));
                                        lemma_xor_seq_compat_elim(x@, y@, i as int);
                                    }
                                };
                            }
                            return Err(e);
                        },
                    }
                    i = i + 1;
                }
                proof {
                    lemma_xor_seq_compat_intro(x@, y@);
                    assert(xor_compat(*self, *rhs));
                    lemma_xor_seq_rel_intro(x@, y@, out@);
                }
                let r = Value::Array(out);
                proof {
                    assert(xor_rel(*self, *rhs, r));
                }
                Ok(r)
            },
            _ => {
                proof {
                    assert(!xor_compat(*self, *rhs));
                }
                Err(
                    TypeError::UnexpectedType {
                        expected: self.value_type(),
                        actual: rhs.value_type(),
                    },
                )
            },
        }
    }
}

/// Relies on rand's `Rng::gen` with the `Standard` distribution to draw
/// one independent sample; nothing is promised of a random result.
#[verifier::external_body]
fn random_scalar<T, R: Rng>(rng: &mut R) -> T where
    rand::distributions::Standard: rand::distributions::Distribution<T>,
 {
    rng.gen()
}

/// Round-trip identity for scalar values: decoding the LSB-first bit
/// sequence of a bit or fixed-width integer value at its own shape yields
/// the value back.
pub proof fn lemma_scalar_round_trip(v: Value)
    requires
        !(v is Array),
    ensures
        decodes(v.shape(), v.lsb0_bits(), v),
{
    lemma2_to64();
    lemma_pow2_128();
    match v {
        Value::Bit(b) => {
            assert(v.lsb0_bits() == seq![b]);
            assert(seq![b].len() == 1 && seq![b][0] == b);
        },
        Value::U8(x) => {
            lemma_lsb0_len(x as nat, 8);
            lemma_bits_to_nat_lsb0(x as nat, 8);
        },
        Value::U16(x) => {
            lemma_lsb0_len(x as nat, 16);
            lemma_bits_to_nat_lsb0(x as nat, 16);
        },
        Value::U32(x) => {
            lemma_lsb0_len(x as nat, 32);
            lemma_bits_to_nat_lsb0(x as nat, 32);
        },
        Value::U64(x) => {
            lemma_lsb0_len(x as nat, 64);
            lemma_bits_to_nat_lsb0(x as nat, 64);
        },
        Value::U128(x) => {
            lemma_lsb0_len(x as nat, 128);
            lemma_bits_to_nat_lsb0(x as nat, 128);
        },
        Value::Array(_) => {},
    }
}

/// Decoding at a scalar shape is unique: two values decoded from the same
/// bits are the same value, so a decoded scalar is recovered exactly.
pub proof fn lemma_scalar_decode_unique(t: ValueType, bits: Seq<bool>, v1: Value, v2: Value)
    requires
        !(t is Array),
        decodes(t, bits, v1),
        decodes(t, bits, v2),
    ensures
        v1 == v2,
{
}

/// Splitting a sequence of values splits its flat LSB-first bits.
pub proof fn lemma_vals_lsb0_concat(a: Seq<Value>, b: Seq<Value>)
    ensures
        vals_lsb0(a + b) == vals_lsb0(a) + vals_lsb0(b),
    decreases a.len(),
{
    if a.len() == 0 {
        assert(a + b =~= b);
        assert(vals_lsb0(a) + vals_lsb0(b) =~= vals_lsb0(b));
    } else {
        lemma_vals_lsb0_concat(a.drop_first(), b);
        assert((a + b).drop_first() =~= a.drop_first() + b);
        assert((a + b)[0] == a[0]);
        assert(a[0].lsb0_bits() + (vals_lsb0(a.drop_first()) + vals_lsb0(b)) =~= (a[0].lsb0_bits()
            + vals_lsb0(a.drop_first())) + vals_lsb0(b));
    }
}

/// The flat LSB-first bits of a sequence of values split around any
/// element.
pub proof fn lemma_vals_lsb0_decompose(s: Seq<Value>, i: int)
    requires
        0 <= i < s.len(),
    ensures
        vals_lsb0(s) == vals_lsb0(s.subrange(0, i)) + s[i].lsb0_bits() + vals_lsb0(
            s.subrange(i + 1, s.len() as int),
        ),
{
    lemma_vals_lsb0_concat(s.subrange(0, i), seq![s[i]] + s.subrange(i + 1, s.len() as int));
    lemma_vals_lsb0_concat(seq![s[i]], s.subrange(i + 1, s.len() as int));
    assert(s =~= s.subrange(0, i) + (seq![s[i]] + s.subrange(i + 1, s.len() as int)));
    assert(seq![s[i]].drop_first() =~= Seq::<Value>::empty());
    assert(vals_lsb0(Seq::<Value>::empty()) == Seq::<bool>::empty());
    assert(vals_lsb0(seq![s[i]]) == s[i].lsb0_bits() + vals_lsb0(seq![s[i]].drop_first()));
    assert(s[i].lsb0_bits() + Seq::<bool>::empty() =~= s[i].lsb0_bits());
}

/// A sequence of values whose bits all have one length has the flat bit
/// count of that many elements.
pub proof fn lemma_vals_lsb0_uniform(s: Seq<Value>, w: nat)
    requires
        forall|i: int| 0 <= i < s.len() ==> (#[trigger] s[i]).lsb0_bits().len() == w,
    ensures
        vals_lsb0(s).len() == s.len() * w,
    decreases s.len(),
{
    if s.len() == 0 {
    } else {
        lemma_vals_lsb0_uniform(s.drop_first(), w);
        assert(s.len() * w == (s.len() - 1) * w + w) by (nonlinear_arith);
    }
}

/// Round-trip identity for whole values: decoding the LSB-first bit
/// sequence of a well-formed value at its own shape yields the value back,
/// arrays included.
pub proof fn lemma_value_round_trip(v: Value)
    requires
        v.wf(),
        v.lsb0_bits().len() <= usize::MAX,
    ensures
        decodes(v.shape(), v.lsb0_bits(), v),
        v.lsb0_bits().len() == v.shape().spec_len(),
        v.lsb0_bits().len() >= 1,
    decreases v,
{
    match v {
        Value::Array(vs) => {
            let n = vs@.len();
            let bits = v.lsb0_bits();
            let shape0 = vs@[0].shape();
            let w = shape0.spec_len();
            assert forall|i: int|
                0 <= i < n implies decodes(
                shape0,
                (#[trigger] vs@[i]).lsb0_bits(),
                vs@[i],
            ) && vs@[i].lsb0_bits().len() == w && vs@[i].lsb0_bits().len() >= 1 by {
                assert(decreases_to!(v => v->Array_0));
                assert(decreases_to!(v->Array_0 => v->Array_0@));
                assert(decreases_to!(v->Array_0@ => v->Array_0@[i]));
                lemma_vals_lsb0_decompose(vs@, i);
                assert(vs@[i].lsb0_bits().len() <= vals_lsb0(vs@).len());
                lemma_value_round_trip(vs@[i]);
                assert(vs@[i].shape() == shape0);
                if i == 0 {
                } else {
                    assert(vs@[0].lsb0_bits().len() == w) by {
                        assert(decreases_to!(v->Array_0@ => v->Array_0@[0]));
                        lemma_vals_lsb0_decompose(vs@, 0);
                        lemma_value_round_trip(vs@[0]);
                    };
                }
            };
            lemma_vals_lsb0_uniform(vs@, w);
            assert(bits.len() == n * w);
            assert(w >= 1) by {
                assert(vs@[0].lsb0_bits().len() == w);
            };
            assert(n <= n * w && 1 <= n * w && w * n == n * w) by (nonlinear_arith)
                requires
                    n >= 1,
                    w >= 1,
            ;
            let t = v.shape();
            assert(t == ValueType::Array(Box::new(shape0), n as usize));
            assert(t.spec_len() == (shape0.spec_len() * (n as usize)) as nat);
            assert forall|i: int|
                0 <= i < n implies decodes(
                shape0,
                bits.subrange(i * (w as int), (i + 1) * (w as int)),
                #[trigger] vs@[i],
            ) by {
                lemma_vals_lsb0_decompose(vs@, i);
                assert forall|j: int|
                    0 <= j < vs@.subrange(0, i).len() implies (#[trigger] vs@.subrange(
                    0,
                    i,
                )[j]).lsb0_bits().len() == w by {
                    assert(vs@.subrange(0, i)[j] == vs@[j]);
                };
                lemma_vals_lsb0_uniform(vs@.subrange(0, i), w);
                assert(vals_lsb0(vs@.subrange(0, i)).len() == i * w);
                assert(bits.subrange(i * (w as int), i * (w as int) + vs@[i].lsb0_bits().len())
                    =~= vs@[i].lsb0_bits());
                assert(i * (w as int) + vs@[i].lsb0_bits().len() == (i + 1) * (w as int)) by {
                    assert((i + 1) * w == i * w + w) by (nonlinear_arith);
                };
            };
        },
        _ => {
            lemma_scalar_round_trip(v);
            match v {
                Value::Bit(_) => {},
                Value::U8(x) => lemma_lsb0_len(x as nat, 8),
                Value::U16(x) => lemma_lsb0_len(x as nat, 16),
                Value::U32(x) => lemma_lsb0_len(x as nat, 32),
                Value::U64(x) => lemma_lsb0_len(x as nat, 64),
                Value::U128(x) => lemma_lsb0_len(x as nat, 128),
                Value::Array(_) => {},
            }
        },
    }
}

/// Structural equality of values: equal tags, equal scalar data, arrays
/// pointwise. Spec-level `==` on array values is opaque in their vector
/// field, so the laws state recovery in this relation; on scalars it
/// coincides with `==`.
pub open spec fn same_value(a: Value, b: Value) -> bool
    decreases a,
{
    match (a, b) {
        (Value::Bit(x), Value::Bit(y)) => x == y,
        (Value::U8(x), Value::U8(y)) => x == y,
        (Value::U16(x), Value::U16(y)) => x == y,
        (Value::U32(x), Value::U32(y)) => x == y,
        (Value::U64(x), Value::U64(y)) => x == y,
        (Value::U128(x), Value::U128(y)) => x == y,
        (Value::Array(x), Value::Array(y)) => same_values(x@, y@),
        _ => false,
    }
}

/// Structural equality of value sequences, pointwise.
pub open spec fn same_values(x: Seq<Value>, y: Seq<Value>) -> bool
    decreases x,
{
    if x.len() != y.len() {
        false
    } else if x.len() == 0 {
        true
    } else {
        same_value(x[0], y[0]) && same_values(x.drop_first(), y.drop_first())
    }
}

/// Sequences of equal length that agree pointwise are structurally equal.
proof fn lemma_same_values_intro(x: Seq<Value>, y: Seq<Value>)
    requires
        x.len() == y.len(),
        forall|i: int| 0 <= i < x.len() ==> #[trigger] same_value(x[i], y[i]),
    ensures
        same_values(x, y),
    decreases x.len(),
{
    if x.len() > 0 {
        assert(same_value(x[0], y[0]));
        assert forall|i: int| 0 <= i < x.drop_first().len() implies #[trigger] same_value(
            x.drop_first()[i],
            y.drop_first()[i],
        ) by {
            assert(x.drop_first()[i] == x[i + 1]);
            assert(y.drop_first()[i] == y[i + 1]);
            assert(same_value(x[i + 1], y[i + 1]));
        };
        lemma_same_values_intro(x.drop_first(), y.drop_first());
    }
}

/// Decoding is unique at every shape: two values decoded from the same
/// bits are structurally the same value, so decoding recovers a value
/// exactly.
pub proof fn lemma_decodes_unique(t: ValueType, bits: Seq<bool>, v1: Value, v2: Value)
    requires
        decodes(t, bits, v1),
        decodes(t, bits, v2),
    ensures
        same_value(v1, v2),
    decreases t,
{
    match t {
        ValueType::Array(et, n) => {
            let w = et.spec_len() as int;
            let vs1 = v1->Array_0;
            let vs2 = v2->Array_0;
            assert forall|i: int| 0 <= i < vs1@.len() implies #[trigger] same_value(
                vs1@[i],
                vs2@[i],
            ) by {
                assert(decreases_to!(t => t->Array_0));
                lemma_decodes_unique(
                    *et,
                    bits.subrange(i * w, (i + 1) * w),
                    vs1@[i],
                    vs2@[i],
                );
            };
            lemma_same_values_intro(vs1@, vs2@);
        },
        _ => {},
    }
}

/// The other direction of the scalar round trip: serializing a value
/// decoded from a bit sequence yields that bit sequence back.
pub proof fn lemma_scalar_bits_round_trip(t: ValueType, bits: Seq<bool>, v: Value)
    requires
        !(t is Array),
        decodes(t, bits, v),
    ensures
        v.lsb0_bits() == bits,
{
    match v {
        Value::Bit(b) => {
            assert(seq![b] =~= bits);
        },
        Value::U8(x) => {
            crate::bits::lemma_lsb0_bits_to_nat(bits);
        },
        Value::U16(x) => {
            crate::bits::lemma_lsb0_bits_to_nat(bits);
        },
        Value::U32(x) => {
            crate::bits::lemma_lsb0_bits_to_nat(bits);
        },
        Value::U64(x) => {
            crate::bits::lemma_lsb0_bits_to_nat(bits);
        },
        Value::U128(x) => {
            crate::bits::lemma_lsb0_bits_to_nat(bits);
        },
        Value::Array(_) => {},
    }
}

/// The other direction of the round trip at every shape: serializing a
/// value decoded from a bit sequence yields that bit sequence back.
pub proof fn lemma_decoded_bits_round_trip(t: ValueType, bits: Seq<bool>, v: Value)
    requires
        decodes(t, bits, v),
    ensures
        v.lsb0_bits() == bits,
    decreases t,
{
    match t {
        ValueType::Array(et, n) => {
            let w = et.spec_len() as int;
            let vs = v->Array_0;
            assert forall|i: int|
                0 <= i < vs@.len() implies (#[trigger] vs@[i]).lsb0_bits() == bits.subrange(
                i * w,
                (i + 1) * w,
            ) && vs@[i].lsb0_bits().len() == w by {
                assert(decreases_to!(t => t->Array_0));
                lemma_decoded_bits_round_trip(*et, bits.subrange(i * w, (i + 1) * w), vs@[i]);
                assert((i + 1) * w == i * w + w) by (nonlinear_arith);
                assert(0 <= i * w && (i + 1) * w <= bits.len()) by (nonlinear_arith)
                    requires
                        0 <= i < n,
                        w >= 0,
                        bits.len() == w * n,
                ;
            };
            lemma_vals_lsb0_uniform(vs@, et.spec_len());
            assert(vals_lsb0(vs@).len() == vs@.len() * et.spec_len());
            assert(vs@.len() * et.spec_len() == et.spec_len() * n) by (nonlinear_arith)
                requires
                    vs@.len() == n,
            ;
            assert forall|k: int| 0 <= k < bits.len() implies vals_lsb0(vs@)[k] == bits[k] by {
                assert(w >= 1) by (nonlinear_arith)
                    requires
                        0 <= w,
                        w * (n as int) > k >= 0,
                ;
                lemma_fundamental_div_mod(k, w);
                lemma_mod_bound(k, w);
                let i = k / w;
                let j = k % w;
                assert(0 <= j < w);
                assert(0 <= i < n) by (nonlinear_arith)
                    requires
                        w >= 1,
                        k == w * i + j,
                        0 <= j < w,
                        0 <= k < w * (n as int),
                ;
                lemma_vals_lsb0_decompose(vs@, i);
                assert forall|p: int|
                    0 <= p < vs@.subrange(0, i).len() implies (#[trigger] vs@.subrange(
                    0,
                    i,
                )[p]).lsb0_bits().len() == et.spec_len() by {
                    assert(vs@.subrange(0, i)[p] == vs@[p]);
                };
                lemma_vals_lsb0_uniform(vs@.subrange(0, i), et.spec_len());
                let prefix = vals_lsb0(vs@.subrange(0, i));
                let child = vs@[i].lsb0_bits();
                let suffix = vals_lsb0(vs@.subrange(i + 1, vs@.len() as int));
                assert(vals_lsb0(vs@) == prefix + child + suffix);
                assert(prefix.len() == i * w) by (nonlinear_arith)
                    requires
                        prefix.len() == (vs@.subrange(0, i).len() as nat) * (et.spec_len() as nat),
                        vs@.subrange(0, i).len() == i,
                        w == et.spec_len(),
                        i >= 0,
                ;
                assert(k == i * w + j) by (nonlinear_arith)
                    requires
                        k == w * i + j,
                ;
                assert((i + 1) * w == i * w + w) by (nonlinear_arith);
                assert(child.len() == w);
                assert(vals_lsb0(vs@)[k] == child[j]) by {
                    assert(k < (prefix + child).len());
                    assert(((prefix + child) + suffix)[k] == (prefix + child)[k]);
                    assert((prefix + child)[k] == child[k - prefix.len()]);
                };
                assert(child[j] == bits.subrange(i * w, (i + 1) * w)[j]);
                assert(bits.subrange(i * w, (i + 1) * w)[j] == bits[i * w + j]);
            };
            assert(v.lsb0_bits() =~= bits);
        },
        _ => {
            lemma_scalar_bits_round_trip(t, bits, v);
        },
    }
}

/// Appending one value appends its LSB-first bits.
pub proof fn lemma_vals_lsb0_push(s: Seq<Value>, x: Value)
    ensures
        vals_lsb0(s.push(x)) == vals_lsb0(s) + x.lsb0_bits(),
    decreases s.len(),
{
    if s.len() == 0 {
        assert(s.push(x) =~= seq![x]);
        assert(seq![x].drop_first() =~= Seq::<Value>::empty());
        assert(vals_lsb0(Seq::<Value>::empty()) == Seq::<bool>::empty());
        assert(vals_lsb0(seq![x]) == x.lsb0_bits() + vals_lsb0(seq![x].drop_first()));
        assert(vals_lsb0(s) + x.lsb0_bits() =~= x.lsb0_bits() + Seq::<bool>::empty());
    } else {
        lemma_vals_lsb0_push(s.drop_first(), x);
        assert(s.push(x).drop_first() =~= s.drop_first().push(x));
        assert(s.push(x)[0] == s[0]);
        assert(s[0].lsb0_bits() + (vals_lsb0(s.drop_first()) + x.lsb0_bits()) =~= (s[0].lsb0_bits()
            + vals_lsb0(s.drop_first())) + x.lsb0_bits());
    }
}

/// Appending one value appends its MSB-first bits.
pub proof fn lemma_vals_msb0_push(s: Seq<Value>, x: Value)
    ensures
        vals_msb0(s.push(x)) == vals_msb0(s) + x.msb0_bits(),
    decreases s.len(),
{
    if s.len() == 0 {
        assert(s.push(x) =~= seq![x]);
        assert(seq![x].drop_first() =~= Seq::<Value>::empty());
        assert(vals_msb0(Seq::<Value>::empty()) == Seq::<bool>::empty());
        assert(vals_msb0(seq![x]) == x.msb0_bits() + vals_msb0(seq![x].drop_first()));
        assert(vals_msb0(s) + x.msb0_bits() =~= x.msb0_bits() + Seq::<bool>::empty());
    } else {
        lemma_vals_msb0_push(s.drop_first(), x);
        assert(s.push(x).drop_first() =~= s.drop_first().push(x));
        assert(s.push(x)[0] == s[0]);
        assert(s[0].msb0_bits() + (vals_msb0(s.drop_first()) + x.msb0_bits()) =~= (s[0].msb0_bits()
            + vals_msb0(s.drop_first())) + x.msb0_bits());
    }
}

} // verus!