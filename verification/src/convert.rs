//! Capability contracts: deriving shapes and wire representations from
//! native types.
//!
//! `ToBinaryRepr` builds a type's wire representation from a flat node
//! slice; `StaticValueType` names a type's shape without an instance;
//! `BinaryLength` gives the bit width as a constant. The six scalar types,
//! fixed arrays of them, and dynamically sized vectors of them implement
//! the family.

use crate::error::TypeError;
use crate::node::Node;
use crate::scalar::{Bit, Scalar, U128, U16, U32, U64, U8};
use crate::value_type::ValueType;
use vstd::arithmetic::mul::lemma_mul_inequality;
use vstd::prelude::*;
use vstd::slice::{slice_subrange, slice_to_vec};

verus! {

/// A type that can be represented in binary form.
pub trait ToBinaryRepr: Sized {
    /// The binary representation of the type.
    type Repr;

    /// The bit length of this instance, as a mathematical integer.
    spec fn spec_len(&self) -> nat;

    /// Which node counts yield a representation.
    spec fn accepts(n: nat) -> bool;

    /// The length that the error reports when a node count is rejected.
    spec fn expected_len(n: nat) -> nat;

    /// The representation holds exactly these nodes, in order, in the
    /// type's shape.
    spec fn repr_of(nodes: Seq<Node>, r: Self::Repr) -> bool;

    /// The length of the type in bits.
    fn len(&self) -> (r: usize)
        requires
            self.spec_len() <= usize::MAX,
        ensures
            r == self.spec_len(),
    ;

    /// Creates new binary representation of the type.
    fn new_bin_repr(nodes: &[Node]) -> (r: Result<Self::Repr, TypeError>)
        requires
            Self::expected_len(nodes@.len()) <= usize::MAX,
        ensures
            r is Ok <==> Self::accepts(nodes@.len()),
            r matches Ok(rep) ==> Self::repr_of(nodes@, rep),
            r matches Err(e)
                ==> e matches TypeError::InvalidLength { expected, actual } && expected
                == Self::expected_len(nodes@.len()) && actual == nodes@.len(),
    ;
}

/// A type for which the value type can be statically determined.
pub trait StaticValueType {
    /// The shape of the type, as a specification value.
    spec fn spec_value_type() -> ValueType;

    /// The value type of the type.
    fn value_type() -> (r: ValueType)
        ensures
            r == Self::spec_value_type(),
    ;
}

/// A type that has a constant bit length.
pub trait BinaryLength {
    /// The length of the type in bits.
    const LEN: usize;
}

impl ValueType {
    /// Creates a new value type.
    pub fn new<T: StaticValueType>() -> (r: ValueType)
        ensures
            r == T::spec_value_type(),
    {
        T::value_type()
    }

    /// Creates a new array value type.
    pub fn new_array<T: StaticValueType>(len: usize) -> (r: ValueType)
        ensures
            r == ValueType::Array(Box::new(T::spec_value_type()), len),
    {
        ValueType::Array(Box::new(T::value_type()), len)
    }
}

/// Builds one scalar from a node slice of exactly its width.
fn scalar_new<const W: usize>(nodes: &[Node]) -> (r: Result<Scalar<W>, TypeError>)
    ensures
        r is Ok <==> nodes@.len() == W,
        r matches Ok(s) ==> s@ == nodes@,
        r matches Err(e)
            ==> e matches TypeError::InvalidLength { expected, actual } && expected == W && actual
            == nodes@.len(),
{
    if nodes.len() != W {
        Err(TypeError::InvalidLength { expected: W, actual: nodes.len() })
    } else {
        Ok(Scalar::new(slice_to_vec(nodes)))
    }
}

/// Chunks a node slice into `count` scalars of `W` bits each, in order.
fn scalar_chunks<const W: usize>(nodes: &[Node], count: usize) -> (r: Vec<Scalar<W>>)
    requires
        W >= 1,
        W * count <= usize::MAX,
        nodes@.len() == W * count,
    ensures
        r@.len() == count,
        forall|i: int|
            0 <= i < count ==> (#[trigger] r@[i])@ == nodes@.subrange(
                W * i,
                W * (i + 1),
            ),
{
    let mut r: Vec<Scalar<W>> = Vec::new();
    let mut i: usize = 0;
    while i < count
        invariant
            i <= count,
            W >= 1,
            W * count <= usize::MAX,
            nodes@.len() == W * count,
            r@.len() == i,
            forall|j: int|
                0 <= j < i ==> (#[trigger] r@[j])@ == nodes@.subrange(
                    W * j,
                    W * (j + 1),
                ),
        decreases count - i,
    {
        proof {
            lemma_mul_inequality(i + 1 as int, count as int, W as int);
            lemma_mul_inequality(i as int, count as int, W as int);
            assert(W * (i + 1) == W * i + W) by (nonlinear_arith);
            assert(i * W == W * i && (i + 1) * W == W * (i + 1)) by (nonlinear_arith);
        }
        let start = i * W;
        let chunk = slice_subrange(nodes, start, start + W);
        r.push(Scalar::new(slice_to_vec(chunk)));
        i = i + 1;
    }
    r
}

impl ToBinaryRepr for bool {
    type Repr = Bit;

    open spec fn spec_len(&self) -> nat {
        1
    }

    open spec fn accepts(n: nat) -> bool {
        n == 1
    }

    open spec fn expected_len(n: nat) -> nat {
        1
    }

    open spec fn repr_of(nodes: Seq<Node>, r: Bit) -> bool {
        r@ == nodes
    }

    fn len(&self) -> (r: usize) {
        1
    }

    fn new_bin_repr(nodes: &[Node]) -> (r: Result<Bit, TypeError>) {
        scalar_new::<1>(nodes)
    }
}

impl<const N: usize> ToBinaryRepr for [bool; N] {
    type Repr = Vec<Bit>;

    open spec fn spec_len(&self) -> nat {
        1 * (N as nat)
    }

    open spec fn accepts(n: nat) -> bool {
        n == 1 * (N as nat)
    }

    open spec fn expected_len(n: nat) -> nat {
        1 * (N as nat)
    }

    open spec fn repr_of(nodes: Seq<Node>, r: Vec<Bit>) -> bool {
        &&& r@.len() == N
        &&& forall|i: int|
            0 <= i < N ==> (#[trigger] r@[i])@ == nodes.subrange(1 * i, 1 * (i + 1))
    }

    fn len(&self) -> (r: usize) {
        1 * N
    }

    fn new_bin_repr(nodes: &[Node]) -> (r: Result<Vec<Bit>, TypeError>) {
        let expected = 1 * N;
        if nodes.len() != expected {
            Err(TypeError::InvalidLength { expected, actual: nodes.len() })
        } else {
            Ok(scalar_chunks::<1>(nodes, N))
        }
    }
}

impl ToBinaryRepr for Vec<bool> {
    type Repr = Vec<Bit>;

    open spec fn spec_len(&self) -> nat {
        1 * self@.len()
    }

    /// Dynamically sized sequences accept a whole number of elements: any
    /// node count divisible by the element width.
    open spec fn accepts(n: nat) -> bool {
        n % 1 == 0
    }

    /// A rejected count reports the nearest whole-element length above it.
    open spec fn expected_len(n: nat) -> nat {
        ((((n + 1 - 1) as nat) / 1) * 1) as nat
    }

    open spec fn repr_of(nodes: Seq<Node>, r: Vec<Bit>) -> bool {
        &&& r@.len() * 1 == nodes.len()
        &&& forall|i: int|
            0 <= i < r@.len() ==> (#[trigger] r@[i])@ == nodes.subrange(1 * i, 1 * (i + 1))
    }

    fn len(&self) -> (r: usize)
        ensures
            r == 1 * self@.len(),
    {
        1 * self.len()
    }

    fn new_bin_repr(nodes: &[Node]) -> (r: Result<Vec<Bit>, TypeError>) {
        let n = nodes.len();
        if n % 1 != 0 {
            let expected = (n / 1 + 1) * 1;
            proof {
                assert(expected == ((n as nat + 1 - 1) / 1) * 1) by (nonlinear_arith)
                    requires
                        n % 1 != 0,
                        expected == (n as int / 1 + 1) * 1,
                        n <= usize::MAX,
                        ((n as nat + 1 - 1) / 1) * 1 <= usize::MAX,
                ;
            }
            Err(TypeError::InvalidLength { expected, actual: n })
        } else {
            let count = n / 1;
            proof {
                assert(1 * count == n) by (nonlinear_arith)
                    requires
                        n % 1 == 0,
                        count == n as int / 1,
                ;
                assert(((n as nat + 1 - 1) / 1) * 1 == n) by (nonlinear_arith)
                    requires
                        n % 1 == 0,
                ;
            }
            let reps = scalar_chunks::<1>(nodes, count);
            proof {
                assert(reps@.len() * 1 == n) by (nonlinear_arith)
                    requires
                        reps@.len() == count,
                        count == n as int / 1,
                        n % 1 == 0,
                ;
            }
            Ok(reps)
        }
    }
}

impl StaticValueType for bool {
    open spec fn spec_value_type() -> ValueType {
        ValueType::Bit
    }

    fn value_type() -> (r: ValueType) {
        ValueType::Bit
    }
}

impl<const N: usize> StaticValueType for [bool; N] {
    open spec fn spec_value_type() -> ValueType {
        ValueType::Array(Box::new(ValueType::Bit), N)
    }

    fn value_type() -> (r: ValueType) {
        ValueType::Array(Box::new(ValueType::Bit), N)
    }
}

impl BinaryLength for bool {
    const LEN: usize = 1;
}

impl<const N: usize> BinaryLength for [bool; N] {
    const LEN: usize = 1 * N;
}

impl ToBinaryRepr for u8 {
    type Repr = U8;

    open spec fn spec_len(&self) -> nat {
        8
    }

    open spec fn accepts(n: nat) -> bool {
        n == 8
    }

    open spec fn expected_len(n: nat) -> nat {
        8
    }

    open spec fn repr_of(nodes: Seq<Node>, r: U8) -> bool {
        r@ == nodes
    }

    fn len(&self) -> (r: usize) {
        8
    }

    fn new_bin_repr(nodes: &[Node]) -> (r: Result<U8, TypeError>) {
        scalar_new::<8>(nodes)
    }
}

impl<const N: usize> ToBinaryRepr for [u8; N] {
    type Repr = Vec<U8>;

    open spec fn spec_len(&self) -> nat {
        8 * (N as nat)
    }

    open spec fn accepts(n: nat) -> bool {
        n == 8 * (N as nat)
    }

    open spec fn expected_len(n: nat) -> nat {
        8 * (N as nat)
    }

    open spec fn repr_of(nodes: Seq<Node>, r: Vec<U8>) -> bool {
        &&& r@.len() == N
        &&& forall|i: int|
            0 <= i < N ==> (#[trigger] r@[i])@ == nodes.subrange(8 * i, 8 * (i + 1))
    }

    fn len(&self) -> (r: usize) {
        8 * N
    }

    fn new_bin_repr(nodes: &[Node]) -> (r: Result<Vec<U8>, TypeError>) {
        let expected = 8 * N;
        if nodes.len() != expected {
            Err(TypeError::InvalidLength { expected, actual: nodes.len() })
        } else {
            Ok(scalar_chunks::<8>(nodes, N))
        }
    }
}

impl ToBinaryRepr for Vec<u8> {
    type Repr = Vec<U8>;

    open spec fn spec_len(&self) -> nat {
        8 * self@.len()
    }

    /// Dynamically sized sequences accept a whole number of elements: any
    /// node count divisible by the element width.
    open spec fn accepts(n: nat) -> bool {
        n % 8 == 0
    }

    /// A rejected count reports the nearest whole-element length above it.
    open spec fn expected_len(n: nat) -> nat {
        ((((n + 8 - 1) as nat) / 8) * 8) as nat
    }

    open spec fn repr_of(nodes: Seq<Node>, r: Vec<U8>) -> bool {
        &&& r@.len() * 8 == nodes.len()
        &&& forall|i: int|
            0 <= i < r@.len() ==> (#[trigger] r@[i])@ == nodes.subrange(8 * i, 8 * (i + 1))
    }

    fn len(&self) -> (r: usize)
        ensures
            r == 8 * self@.len(),
    {
        8 * self.len()
    }

    fn new_bin_repr(nodes: &[Node]) -> (r: Result<Vec<U8>, TypeError>) {
        let n = nodes.len();
        if n % 8 != 0 {
            let expected = (n / 8 + 1) * 8;
            proof {
                assert(expected == ((n as nat + 8 - 1) / 8) * 8) by (nonlinear_arith)
                    requires
                        n % 8 != 0,
                        expected == (n as int / 8 + 1) * 8,
                        n <= usize::MAX,
                        ((n as nat + 8 - 1) / 8) * 8 <= usize::MAX,
                ;
            }
            Err(TypeError::InvalidLength { expected, actual: n })
        } else {
            let count = n / 8;
            proof {
                assert(8 * count == n) by (nonlinear_arith)
                    requires
                        n % 8 == 0,
                        count == n as int / 8,
                ;
                assert(((n as nat + 8 - 1) / 8) * 8 == n) by (nonlinear_arith)
                    requires
                        n % 8 == 0,
                ;
            }
            let reps = scalar_chunks::<8>(nodes, count);
            proof {
                assert(reps@.len() * 8 == n) by (nonlinear_arith)
                    requires
                        reps@.len() == count,
                        count == n as int / 8,
                        n % 8 == 0,
                ;
            }
            Ok(reps)
        }
    }
}

impl StaticValueType for u8 {
    open spec fn spec_value_type() -> ValueType {
        ValueType::U8
    }

    fn value_type() -> (r: ValueType) {
        ValueType::U8
    }
}

impl<const N: usize> StaticValueType for [u8; N] {
    open spec fn spec_value_type() -> ValueType {
        ValueType::Array(Box::new(ValueType::U8), N)
    }

    fn value_type() -> (r: ValueType) {
        ValueType::Array(Box::new(ValueType::U8), N)
    }
}

impl BinaryLength for u8 {
    const LEN: usize = 8;
}

impl<const N: usize> BinaryLength for [u8; N] {
    const LEN: usize = 8 * N;
}

impl ToBinaryRepr for u16 {
    type Repr = U16;

    open spec fn spec_len(&self) -> nat {
        16
    }

    open spec fn accepts(n: nat) -> bool {
        n == 16
    }

    open spec fn expected_len(n: nat) -> nat {
        16
    }

    open spec fn repr_of(nodes: Seq<Node>, r: U16) -> bool {
        r@ == nodes
    }

    fn len(&self) -> (r: usize) {
        16
    }

    fn new_bin_repr(nodes: &[Node]) -> (r: Result<U16, TypeError>) {
        scalar_new::<16>(nodes)
    }
}

impl<const N: usize> ToBinaryRepr for [u16; N] {
    type Repr = Vec<U16>;

    open spec fn spec_len(&self) -> nat {
        16 * (N as nat)
    }

    open spec fn accepts(n: nat) -> bool {
        n == 16 * (N as nat)
    }

    open spec fn expected_len(n: nat) -> nat {
        16 * (N as nat)
    }

    open spec fn repr_of(nodes: Seq<Node>, r: Vec<U16>) -> bool {
        &&& r@.len() == N
        &&& forall|i: int|
            0 <= i < N ==> (#[trigger] r@[i])@ == nodes.subrange(16 * i, 16 * (i + 1))
    }

    fn len(&self) -> (r: usize) {
        16 * N
    }

    fn new_bin_repr(nodes: &[Node]) -> (r: Result<Vec<U16>, TypeError>) {
        let expected = 16 * N;
        if nodes.len() != expected {
            Err(TypeError::InvalidLength { expected, actual: nodes.len() })
        } else {
            Ok(scalar_chunks::<16>(nodes, N))
        }
    }
}

impl ToBinaryRepr for Vec<u16> {
    type Repr = Vec<U16>;

    open spec fn spec_len(&self) -> nat {
        16 * self@.len()
    }

    /// Dynamically sized sequences accept a whole number of elements: any
    /// node count divisible by the element width.
    open spec fn accepts(n: nat) -> bool {
        n % 16 == 0
    }

    /// A rejected count reports the nearest whole-element length above it.
    open spec fn expected_len(n: nat) -> nat {
        ((((n + 16 - 1) as nat) / 16) * 16) as nat
    }

    open spec fn repr_of(nodes: Seq<Node>, r: Vec<U16>) -> bool {
        &&& r@.len() * 16 == nodes.len()
        &&& forall|i: int|
            0 <= i < r@.len() ==> (#[trigger] r@[i])@ == nodes.subrange(16 * i, 16 * (i + 1))
    }

    fn len(&self) -> (r: usize)
        ensures
            r == 16 * self@.len(),
    {
        16 * self.len()
    }

    fn new_bin_repr(nodes: &[Node]) -> (r: Result<Vec<U16>, TypeError>) {
        let n = nodes.len();
        if n % 16 != 0 {
            let expected = (n / 16 + 1) * 16;
            proof {
                assert(expected == ((n as nat + 16 - 1) / 16) * 16) by (nonlinear_arith)
                    requires
                        n % 16 != 0,
                        expected == (n as int / 16 + 1) * 16,
                        n <= usize::MAX,
                        ((n as nat + 16 - 1) / 16) * 16 <= usize::MAX,
                ;
            }
            Err(TypeError::InvalidLength { expected, actual: n })
        } else {
            let count = n / 16;
            proof {
                assert(16 * count == n) by (nonlinear_arith)
                    requires
                        n % 16 == 0,
                        count == n as int / 16,
                ;
                assert(((n as nat + 16 - 1) / 16) * 16 == n) by (nonlinear_arith)
                    requires
                        n % 16 == 0,
                ;
            }
            let reps = scalar_chunks::<16>(nodes, count);
            proof {
                assert(reps@.len() * 16 == n) by (nonlinear_arith)
                    requires
                        reps@.len() == count,
                        count == n as int / 16,
                        n % 16 == 0,
                ;
            }
            Ok(reps)
        }
    }
}

impl StaticValueType for u16 {
    open spec fn spec_value_type() -> ValueType {
        ValueType::U16
    }

    fn value_type() -> (r: ValueType) {
        ValueType::U16
    }
}

impl<const N: usize> StaticValueType for [u16; N] {
    open spec fn spec_value_type() -> ValueType {
        ValueType::Array(Box::new(ValueType::U16), N)
    }

    fn value_type() -> (r: ValueType) {
        ValueType::Array(Box::new(ValueType::U16), N)
    }
}

impl BinaryLength for u16 {
    const LEN: usize = 16;
}

impl<const N: usize> BinaryLength for [u16; N] {
    const LEN: usize = 16 * N;
}

impl ToBinaryRepr for u32 {
    type Repr = U32;

    open spec fn spec_len(&self) -> nat {
        32
    }

    open spec fn accepts(n: nat) -> bool {
        n == 32
    }

    open spec fn expected_len(n: nat) -> nat {
        32
    }

    open spec fn repr_of(nodes: Seq<Node>, r: U32) -> bool {
        r@ == nodes
    }

    fn len(&self) -> (r: usize) {
        32
    }

    fn new_bin_repr(nodes: &[Node]) -> (r: Result<U32, TypeError>) {
        scalar_new::<32>(nodes)
    }
}

impl<const N: usize> ToBinaryRepr for [u32; N] {
    type Repr = Vec<U32>;

    open spec fn spec_len(&self) -> nat {
        32 * (N as nat)
    }

    open spec fn accepts(n: nat) -> bool {
        n == 32 * (N as nat)
    }

    open spec fn expected_len(n: nat) -> nat {
        32 * (N as nat)
    }

    open spec fn repr_of(nodes: Seq<Node>, r: Vec<U32>) -> bool {
        &&& r@.len() == N
        &&& forall|i: int|
            0 <= i < N ==> (#[trigger] r@[i])@ == nodes.subrange(32 * i, 32 * (i + 1))
    }

    fn len(&self) -> (r: usize) {
        32 * N
    }

    fn new_bin_repr(nodes: &[Node]) -> (r: Result<Vec<U32>, TypeError>) {
        let expected = 32 * N;
        if nodes.len() != expected {
            Err(TypeError::InvalidLength { expected, actual: nodes.len() })
        } else {
            Ok(scalar_chunks::<32>(nodes, N))
        }
    }
}

impl ToBinaryRepr for Vec<u32> {
    type Repr = Vec<U32>;

    open spec fn spec_len(&self) -> nat {
        32 * self@.len()
    }

    /// Dynamically sized sequences accept a whole number of elements: any
    /// node count divisible by the element width.
    open spec fn accepts(n: nat) -> bool {
        n % 32 == 0
    }

    /// A rejected count reports the nearest whole-element length above it.
    open spec fn expected_len(n: nat) -> nat {
        ((((n + 32 - 1) as nat) / 32) * 32) as nat
    }

    open spec fn repr_of(nodes: Seq<Node>, r: Vec<U32>) -> bool {
        &&& r@.len() * 32 == nodes.len()
        &&& forall|i: int|
            0 <= i < r@.len() ==> (#[trigger] r@[i])@ == nodes.subrange(32 * i, 32 * (i + 1))
    }

    fn len(&self) -> (r: usize)
        ensures
            r == 32 * self@.len(),
    {
        32 * self.len()
    }

    fn new_bin_repr(nodes: &[Node]) -> (r: Result<Vec<U32>, TypeError>) {
        let n = nodes.len();
        if n % 32 != 0 {
            let expected = (n / 32 + 1) * 32;
            proof {
                assert(expected == ((n as nat + 32 - 1) / 32) * 32) by (nonlinear_arith)
                    requires
                        n % 32 != 0,
                        expected == (n as int / 32 + 1) * 32,
                        n <= usize::MAX,
                        ((n as nat + 32 - 1) / 32) * 32 <= usize::MAX,
                ;
            }
            Err(TypeError::InvalidLength { expected, actual: n })
        } else {
            let count = n / 32;
            proof {
                assert(32 * count == n) by (nonlinear_arith)
                    requires
                        n % 32 == 0,
                        count == n as int / 32,
                ;
                assert(((n as nat + 32 - 1) / 32) * 32 == n) by (nonlinear_arith)
                    requires
                        n % 32 == 0,
                ;
            }
            let reps = scalar_chunks::<32>(nodes, count);
            proof {
                assert(reps@.len() * 32 == n) by (nonlinear_arith)
                    requires
                        reps@.len() == count,
                        count == n as int / 32,
                        n % 32 == 0,
                ;
            }
            Ok(reps)
        }
    }
}

impl StaticValueType for u32 {
    open spec fn spec_value_type() -> ValueType {
        ValueType::U32
    }

    fn value_type() -> (r: ValueType) {
        ValueType::U32
    }
}

impl<const N: usize> StaticValueType for [u32; N] {
    open spec fn spec_value_type() -> ValueType {
        ValueType::Array(Box::new(ValueType::U32), N)
    }

    fn value_type() -> (r: ValueType) {
        ValueType::Array(Box::new(ValueType::U32), N)
    }
}

impl BinaryLength for u32 {
    const LEN: usize = 32;
}

impl<const N: usize> BinaryLength for [u32; N] {
    const LEN: usize = 32 * N;
}

impl ToBinaryRepr for u64 {
    type Repr = U64;

    open spec fn spec_len(&self) -> nat {
        64
    }

    open spec fn accepts(n: nat) -> bool {
        n == 64
    }

    open spec fn expected_len(n: nat) -> nat {
        64
    }

    open spec fn repr_of(nodes: Seq<Node>, r: U64) -> bool {
        r@ == nodes
    }

    fn len(&self) -> (r: usize) {
        64
    }

    fn new_bin_repr(nodes: &[Node]) -> (r: Result<U64, TypeError>) {
        scalar_new::<64>(nodes)
    }
}

impl<const N: usize> ToBinaryRepr for [u64; N] {
    type Repr = Vec<U64>;

    open spec fn spec_len(&self) -> nat {
        64 * (N as nat)
    }

    open spec fn accepts(n: nat) -> bool {
        n == 64 * (N as nat)
    }

    open spec fn expected_len(n: nat) -> nat {
        64 * (N as nat)
    }

    open spec fn repr_of(nodes: Seq<Node>, r: Vec<U64>) -> bool {
        &&& r@.len() == N
        &&& forall|i: int|
            0 <= i < N ==> (#[trigger] r@[i])@ == nodes.subrange(64 * i, 64 * (i + 1))
    }

    fn len(&self) -> (r: usize) {
        64 * N
    }

    fn new_bin_repr(nodes: &[Node]) -> (r: Result<Vec<U64>, TypeError>) {
        let expected = 64 * N;
        if nodes.len() != expected {
            Err(TypeError::InvalidLength { expected, actual: nodes.len() })
        } else {
            Ok(scalar_chunks::<64>(nodes, N))
        }
    }
}

impl ToBinaryRepr for Vec<u64> {
    type Repr = Vec<U64>;

    open spec fn spec_len(&self) -> nat {
        64 * self@.len()
    }

    /// Dynamically sized sequences accept a whole number of elements: any
    /// node count divisible by the element width.
    open spec fn accepts(n: nat) -> bool {
        n % 64 == 0
    }

    /// A rejected count reports the nearest whole-element length above it.
    open spec fn expected_len(n: nat) -> nat {
        ((((n + 64 - 1) as nat) / 64) * 64) as nat
    }

    open spec fn repr_of(nodes: Seq<Node>, r: Vec<U64>) -> bool {
        &&& r@.len() * 64 == nodes.len()
        &&& forall|i: int|
            0 <= i < r@.len() ==> (#[trigger] r@[i])@ == nodes.subrange(64 * i, 64 * (i + 1))
    }

    fn len(&self) -> (r: usize)
        ensures
            r == 64 * self@.len(),
    {
        64 * self.len()
    }

    fn new_bin_repr(nodes: &[Node]) -> (r: Result<Vec<U64>, TypeError>) {
        let n = nodes.len();
        if n % 64 != 0 {
            let expected = (n / 64 + 1) * 64;
            proof {
                assert(expected == ((n as nat + 64 - 1) / 64) * 64) by (nonlinear_arith)
                    requires
                        n % 64 != 0,
                        expected == (n as int / 64 + 1) * 64,
                        n <= usize::MAX,
                        ((n as nat + 64 - 1) / 64) * 64 <= usize::MAX,
                ;
            }
            Err(TypeError::InvalidLength { expected, actual: n })
        } else {
            let count = n / 64;
            proof {
                assert(64 * count == n) by (nonlinear_arith)
                    requires
                        n % 64 == 0,
                        count == n as int / 64,
                ;
                assert(((n as nat + 64 - 1) / 64) * 64 == n) by (nonlinear_arith)
                    requires
                        n % 64 == 0,
                ;
            }
            let reps = scalar_chunks::<64>(nodes, count);
            proof {
                assert(reps@.len() * 64 == n) by (nonlinear_arith)
                    requires
                        reps@.len() == count,
                        count == n as int / 64,
                        n % 64 == 0,
                ;
            }
            Ok(reps)
        }
    }
}

impl StaticValueType for u64 {
    open spec fn spec_value_type() -> ValueType {
        ValueType::U64
    }

    fn value_type() -> (r: ValueType) {
        ValueType::U64
    }
}

impl<const N: usize> StaticValueType for [u64; N] {
    open spec fn spec_value_type() -> ValueType {
        ValueType::Array(Box::new(ValueType::U64), N)
    }

    fn value_type() -> (r: ValueType) {
        ValueType::Array(Box::new(ValueType::U64), N)
    }
}

impl BinaryLength for u64 {
    const LEN: usize = 64;
}

impl<const N: usize> BinaryLength for [u64; N] {
    const LEN: usize = 64 * N;
}

impl ToBinaryRepr for u128 {
    type Repr = U128;

    open spec fn spec_len(&self) -> nat {
        128
    }

    open spec fn accepts(n: nat) -> bool {
        n == 128
    }

    open spec fn expected_len(n: nat) -> nat {
        128
    }

    open spec fn repr_of(nodes: Seq<Node>, r: U128) -> bool {
        r@ == nodes
    }

    fn len(&self) -> (r: usize) {
        128
    }

    fn new_bin_repr(nodes: &[Node]) -> (r: Result<U128, TypeError>) {
        scalar_new::<128>(nodes)
    }
}

impl<const N: usize> ToBinaryRepr for [u128; N] {
    type Repr = Vec<U128>;

    open spec fn spec_len(&self) -> nat {
        128 * (N as nat)
    }

    open spec fn accepts(n: nat) -> bool {
        n == 128 * (N as nat)
    }

    open spec fn expected_len(n: nat) -> nat {
        128 * (N as nat)
    }

    open spec fn repr_of(nodes: Seq<Node>, r: Vec<U128>) -> bool {
        &&& r@.len() == N
        &&& forall|i: int|
            0 <= i < N ==> (#[trigger] r@[i])@ == nodes.subrange(128 * i, 128 * (i + 1))
    }

    fn len(&self) -> (r: usize) {
        128 * N
    }

    fn new_bin_repr(nodes: &[Node]) -> (r: Result<Vec<U128>, TypeError>) {
        let expected = 128 * N;
        if nodes.len() != expected {
            Err(TypeError::InvalidLength { expected, actual: nodes.len() })
        } else {
            Ok(scalar_chunks::<128>(nodes, N))
        }
    }
}

impl ToBinaryRepr for Vec<u128> {
    type Repr = Vec<U128>;

    open spec fn spec_len(&self) -> nat {
        128 * self@.len()
    }

    /// Dynamically sized sequences accept a whole number of elements: any
    /// node count divisible by the element width.
    open spec fn accepts(n: nat) -> bool {
        n % 128 == 0
    }

    /// A rejected count reports the nearest whole-element length above it.
    open spec fn expected_len(n: nat) -> nat {
        ((((n + 128 - 1) as nat) / 128) * 128) as nat
    }

    open spec fn repr_of(nodes: Seq<Node>, r: Vec<U128>) -> bool {
        &&& r@.len() * 128 == nodes.len()
        &&& forall|i: int|
            0 <= i < r@.len() ==> (#[trigger] r@[i])@ == nodes.subrange(128 * i, 128 * (i + 1))
    }

    fn len(&self) -> (r: usize)
        ensures
            r == 128 * self@.len(),
    {
        128 * self.len()
    }

    fn new_bin_repr(nodes: &[Node]) -> (r: Result<Vec<U128>, TypeError>) {
        let n = nodes.len();
        if n % 128 != 0 {
            let expected = (n / 128 + 1) * 128;
            proof {
                assert(expected == ((n as nat + 128 - 1) / 128) * 128) by (nonlinear_arith)
                    requires
                        n % 128 != 0,
                        expected == (n as int / 128 + 1) * 128,
                        n <= usize::MAX,
                        ((n as nat + 128 - 1) / 128) * 128 <= usize::MAX,
                ;
            }
            Err(TypeError::InvalidLength { expected, actual: n })
        } else {
            let count = n / 128;
            proof {
                assert(128 * count == n) by (nonlinear_arith)
                    requires
                        n % 128 == 0,
                        count == n as int / 128,
                ;
                assert(((n as nat + 128 - 1) / 128) * 128 == n) by (nonlinear_arith)
                    requires
                        n % 128 == 0,
                ;
            }
            let reps = scalar_chunks::<128>(nodes, count);
            proof {
                assert(reps@.len() * 128 == n) by (nonlinear_arith)
                    requires
                        reps@.len() == count,
                        count == n as int / 128,
                        n % 128 == 0,
                ;
            }
            Ok(reps)
        }
    }
}

impl StaticValueType for u128 {
    open spec fn spec_value_type() -> ValueType {
        ValueType::U128
    }

    fn value_type() -> (r: ValueType) {
        ValueType::U128
    }
}

impl<const N: usize> StaticValueType for [u128; N] {
    open spec fn spec_value_type() -> ValueType {
        ValueType::Array(Box::new(ValueType::U128), N)
    }

    fn value_type() -> (r: ValueType) {
        ValueType::Array(Box::new(ValueType::U128), N)
    }
}

impl BinaryLength for u128 {
    const LEN: usize = 128;
}

impl<const N: usize> BinaryLength for [u128; N] {
    const LEN: usize = 128 * N;
}

} // verus!
