//! Wire-level scalars.
//!
//! A `Scalar<W>` owns exactly `W` node handles, one per bit, index 0 being
//! the least-significant bit. The byte-order conversions permute node
//! identities only; which node occupies which byte and bit slot is
//! load-bearing for downstream gate wiring, so the contracts pin every
//! index exactly.

use crate::node::Node;
use vstd::arithmetic::div_mod::lemma_fundamental_div_mod;
use vstd::prelude::*;

verus! {

/// A fixed-width scalar at the wire level: `W` node handles, LSB first.
#[derive(Debug)]
pub struct Scalar<const W: usize> {
    nodes: Vec<Node>,
}

impl<const W: usize> Clone for Scalar<W> {
    /// A clone owns the same node handles.
    fn clone(&self) -> (r: Self)
        ensures
            r@ == self@,
    {
        Scalar { nodes: self.nodes() }
    }
}

/// A single wire bit.
pub type Bit = Scalar<1>;

/// An 8-bit wire scalar.
pub type U8 = Scalar<8>;

/// A 16-bit wire scalar.
pub type U16 = Scalar<16>;

/// A 32-bit wire scalar.
pub type U32 = Scalar<32>;

/// A 64-bit wire scalar.
pub type U64 = Scalar<64>;

/// A 128-bit wire scalar.
pub type U128 = Scalar<128>;

impl<const W: usize> View for Scalar<W> {
    type V = Seq<Node>;

    closed spec fn view(&self) -> Seq<Node> {
        self.nodes@
    }
}

impl<const W: usize> Scalar<W> {
    /// The scalar owns exactly `W` node handles.
    pub open spec fn wf(self) -> bool {
        self@.len() == W
    }

    /// Creates a scalar from exactly `W` node handles, index 0 the
    /// least-significant bit. The length is the caller's duty, as it is
    /// for the owning collection in the encoding entry points.
    pub fn new(nodes: Vec<Node>) -> (r: Self)
        requires
            nodes@.len() == W,
        ensures
            r@ == nodes@,
            r.wf(),
    {
        Scalar { nodes }
    }

    /// Returns a copy of the node handles, LSB first.
    pub fn nodes(&self) -> (r: Vec<Node>)
        ensures
            r@ == self@,
    {
        let n = self.nodes.len();
        let mut r: Vec<Node> = Vec::new();
        let mut i: usize = 0;
        while i < n
            invariant
                i <= n,
                n == self@.len(),
                r@ =~= self@.subrange(0, i as int),
            decreases n - i,
        {
            r.push(self.nodes[i]);
            i = i + 1;
        }
        proof {
            assert(r@ =~= self@);
        }
        r
    }

    /// Renumbers every node `offset` places towards lower indices.
    pub fn shift_left(&mut self, offset: usize)
        requires
            forall|i: int| 0 <= i < old(self)@.len() ==> offset <= old(self)@[i].id,
        ensures
            final(self)@.len() == old(self)@.len(),
            forall|i: int|
                0 <= i < old(self)@.len() ==> final(self)@[i].id == old(self)@[i].id - offset,
    {
        let n = self.nodes.len();
        let mut i: usize = 0;
        while i < n
            invariant
                i <= n,
                n == self@.len() == old(self)@.len(),
                forall|k: int| i <= k < n ==> self@[k] == old(self)@[k],
                forall|k: int| 0 <= k < i ==> self@[k].id == old(self)@[k].id - offset,
                forall|k: int| 0 <= k < n ==> offset <= old(self)@[k].id,
            decreases n - i,
        {
            let id = self.nodes[i].id - offset;
            self.nodes[i] = Node { id };
            i = i + 1;
        }
    }

    /// Returns the representation of this scalar as a byte array in big
    /// endian: byte `i` (0 the most significant) receives bit positions
    /// `[(W/8 - 1 - i) * 8, (W/8 - i) * 8)` of the scalar, each byte
    /// itself LSB first.
    pub fn to_be_bytes(&self) -> (r: Vec<U8>)
        requires
            self.wf(),
            W % 8 == 0,
        ensures
            r@.len() == W as int / 8,
            forall|i: int| 0 <= i < r@.len() ==> (#[trigger] r@[i]).wf(),
            forall|i: int, j: int|
                0 <= i < r@.len() && 0 <= j < 8 ==> #[trigger] r@[i]@[j] == self@[(W as int / 8 - 1
                    - i) * 8 + j],
    {
        proof {
            lemma_fundamental_div_mod(W as int, 8);
        }
        let m = W / 8;
        let mut r: Vec<U8> = Vec::new();
        let mut i: usize = 0;
        while i < m
            invariant
                i <= m,
                m == W as int / 8,
                8 * m == W,
                self@.len() == W,
                r@.len() == i,
                forall|k: int| 0 <= k < i ==> (#[trigger] r@[k]).wf(),
                forall|k: int, j: int|
                    0 <= k < i && 0 <= j < 8 ==> #[trigger] r@[k]@[j] == self@[(m - 1 - k) * 8 + j],
            decreases m - i,
        {
            let base = (m - 1 - i) * 8;
            let mut byte: Vec<Node> = Vec::new();
            let mut j: usize = 0;
            while j < 8
                invariant
                    j <= 8,
                    base == (m - 1 - i as int) * 8,
                    0 <= base,
                    base + 8 <= W,
                    self@.len() == W,
                    byte@.len() == j,
                    forall|t: int| 0 <= t < j ==> byte@[t] == self@[base + t],
                decreases 8 - j,
            {
                byte.push(self.nodes[base + j]);
                j = j + 1;
            }
            r.push(U8::new(byte));
            i = i + 1;
        }
        r
    }

    /// Creates a scalar from its representation as a byte array in big
    /// endian: bit `i` of the result is bit `i % 8` of byte
    /// `W/8 - 1 - i / 8`.
    pub fn from_be_bytes(bytes: &Vec<U8>) -> (r: Self)
        requires
            W % 8 == 0,
            bytes@.len() == W as int / 8,
            forall|i: int| 0 <= i < bytes@.len() ==> (#[trigger] bytes@[i]).wf(),
        ensures
            r.wf(),
            forall|i: int|
                0 <= i < W ==> #[trigger] r@[i] == bytes@[W as int / 8 - 1 - i / 8]@[i % 8],
    {
        proof {
            lemma_fundamental_div_mod(W as int, 8);
        }
        let m = W / 8;
        let mut nodes: Vec<Node> = Vec::new();
        let mut i: usize = 0;
        while i < W
            invariant
                i <= W,
                m == W as int / 8,
                8 * m == W,
                bytes@.len() == m,
                forall|k: int| 0 <= k < m ==> (#[trigger] bytes@[k]).wf(),
                nodes@.len() == i,
                forall|k: int| 0 <= k < i ==> #[trigger] nodes@[k] == bytes@[m - 1 - k / 8]@[k % 8],
            decreases W - i,
        {
            proof {
                lemma_fundamental_div_mod(i as int, 8);
            }
            let b = m - 1 - i / 8;
            let node = bytes[b].nodes[i % 8];
            nodes.push(node);
            i = i + 1;
        }
        Scalar { nodes }
    }

    /// Returns the representation of this scalar as a byte array in little
    /// endian: byte `i` (0 the least significant) receives bit positions
    /// `[i * 8, (i + 1) * 8)` of the scalar, each byte itself LSB first.
    pub fn to_le_bytes(&self) -> (r: Vec<U8>)
        requires
            self.wf(),
            W % 8 == 0,
        ensures
            r@.len() == W as int / 8,
            forall|i: int| 0 <= i < r@.len() ==> (#[trigger] r@[i]).wf(),
            forall|i: int, j: int|
                0 <= i < r@.len() && 0 <= j < 8 ==> #[trigger] r@[i]@[j] == self@[i * 8 + j],
    {
        proof {
            lemma_fundamental_div_mod(W as int, 8);
        }
        let m = W / 8;
        let mut r: Vec<U8> = Vec::new();
        let mut i: usize = 0;
        while i < m
            invariant
                i <= m,
                m == W as int / 8,
                8 * m == W,
                self@.len() == W,
                r@.len() == i,
                forall|k: int| 0 <= k < i ==> (#[trigger] r@[k]).wf(),
                forall|k: int, j: int|
                    0 <= k < i && 0 <= j < 8 ==> #[trigger] r@[k]@[j] == self@[k * 8 + j],
            decreases m - i,
        {
            let base = i * 8;
            let mut byte: Vec<Node> = Vec::new();
            let mut j: usize = 0;
            while j < 8
                invariant
                    j <= 8,
                    base == i as int * 8,
                    i < m,
                    base + 8 <= W,
                    self@.len() == W,
                    byte@.len() == j,
                    forall|t: int| 0 <= t < j ==> byte@[t] == self@[base + t],
                decreases 8 - j,
            {
                byte.push(self.nodes[base + j]);
                j = j + 1;
            }
            r.push(U8::new(byte));
            i = i + 1;
        }
        r
    }

    /// Creates a scalar from its representation as a byte array in little
    /// endian: bit `i` of the result is bit `i % 8` of byte `i / 8`.
    pub fn from_le_bytes(bytes: &Vec<U8>) -> (r: Self)
        requires
            W % 8 == 0,
            bytes@.len() == W as int / 8,
            forall|i: int| 0 <= i < bytes@.len() ==> (#[trigger] bytes@[i]).wf(),
        ensures
            r.wf(),
            forall|i: int| 0 <= i < W ==> #[trigger] r@[i] == bytes@[i / 8]@[i % 8],
    {
        proof {
            lemma_fundamental_div_mod(W as int, 8);
        }
        let m = W / 8;
        let mut nodes: Vec<Node> = Vec::new();
        let mut i: usize = 0;
        while i < W
            invariant
                i <= W,
                m == W as int / 8,
                8 * m == W,
                bytes@.len() == m,
                forall|k: int| 0 <= k < m ==> (#[trigger] bytes@[k]).wf(),
                nodes@.len() == i,
                forall|k: int| 0 <= k < i ==> #[trigger] nodes@[k] == bytes@[k / 8]@[k % 8],
            decreases W - i,
        {
            proof {
                lemma_fundamental_div_mod(i as int, 8);
            }
            let b = i / 8;
            let node = bytes[b].nodes[i % 8];
            nodes.push(node);
            i = i + 1;
        }
        Scalar { nodes }
    }
}

/// Endianness round-trip, big-endian side: a scalar rebuilt from its
/// big-endian byte view carries the original node at every bit position.
/// `b` is related to `x` as `to_be_bytes` relates its result to its
/// receiver, and `y` to `b` as `from_be_bytes` does.
pub proof fn lemma_be_bytes_round_trip<const W: usize>(x: Scalar<W>, b: Seq<U8>, y: Scalar<W>)
    requires
        W % 8 == 0,
        x.wf(),
        b.len() == W as int / 8,
        forall|i: int| 0 <= i < b.len() ==> (#[trigger] b[i]).wf(),
        forall|i: int, j: int|
            0 <= i < b.len() && 0 <= j < 8 ==> #[trigger] b[i]@[j] == x@[(W as int / 8 - 1 - i) * 8
                + j],
        y.wf(),
        forall|i: int| 0 <= i < W ==> #[trigger] y@[i] == b[W as int / 8 - 1 - i / 8]@[i % 8],
    ensures
        y@ == x@,
{
    let m = W as int / 8;
    lemma_fundamental_div_mod(W as int, 8);
    assert forall|i: int| 0 <= i < W implies y@[i] == x@[i] by {
        lemma_fundamental_div_mod(i, 8);
        let q = i / 8;
        let rem = i % 8;
        assert(0 <= q < m);
        assert(y@[i] == b[m - 1 - q]@[rem]);
        assert(b[m - 1 - q]@[rem] == x@[(m - 1 - (m - 1 - q)) * 8 + rem]);
        assert((m - 1 - (m - 1 - q)) * 8 + rem == i);
    };
    assert(y@ =~= x@);
}

/// Endianness round-trip, little-endian side: a scalar rebuilt from its
/// little-endian byte view carries the original node at every bit
/// position. `b` is related to `x` as `to_le_bytes` relates its result to
/// its receiver, and `y` to `b` as `from_le_bytes` does.
pub proof fn lemma_le_bytes_round_trip<const W: usize>(x: Scalar<W>, b: Seq<U8>, y: Scalar<W>)
    requires
        W % 8 == 0,
        x.wf(),
        b.len() == W as int / 8,
        forall|i: int| 0 <= i < b.len() ==> (#[trigger] b[i]).wf(),
        forall|i: int, j: int|
            0 <= i < b.len() && 0 <= j < 8 ==> #[trigger] b[i]@[j] == x@[i * 8 + j],
        y.wf(),
        forall|i: int| 0 <= i < W ==> #[trigger] y@[i] == b[i / 8]@[i % 8],
    ensures
        y@ == x@,
{
    let m = W as int / 8;
    lemma_fundamental_div_mod(W as int, 8);
    assert forall|i: int| 0 <= i < W implies y@[i] == x@[i] by {
        lemma_fundamental_div_mod(i, 8);
        let q = i / 8;
        let rem = i % 8;
        assert(0 <= q < m);
        assert(y@[i] == b[q]@[rem]);
        assert(b[q]@[rem] == x@[q * 8 + rem]);
        assert(q * 8 + rem == i);
    };
    assert(y@ =~= x@);
}

} // verus!
