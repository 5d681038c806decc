//! Shaped wire data.
//!
//! A `BinaryRepr` pairs the shape of a value with actual node handles: one
//! scalar's worth of wires, or a homogeneous array of representations. Its
//! flat node sequence, in strict left-to-right structural order, is the
//! canonical correspondence between bit positions and wire nodes; every
//! contract here is stated against that sequence.

use crate::error::TypeError;
use crate::node::Node;
use crate::scalar::{Scalar, U128, U16, U32, U64, U8};
use crate::value_type::ValueType;
use vstd::arithmetic::mul::lemma_mul_inequality;
use vstd::prelude::*;
use vstd::slice::slice_to_vec;
use vstd::slice::slice_subrange;

verus! {

/// A binary representation of a type: wire nodes arranged in the shape of
/// a value.
#[derive(Debug)]
pub enum BinaryRepr {
    Bit(crate::scalar::Bit),
    U8(U8),
    U16(U16),
    U32(U32),
    U64(U64),
    U128(U128),
    Array(Vec<BinaryRepr>),
}

/// Total bit length of a sequence of representations.
pub open spec fn reprs_len(s: Seq<BinaryRepr>) -> nat
    decreases s,
{
    if s.len() == 0 {
        0
    } else {
        s[0].spec_len() + reprs_len(s.drop_first())
    }
}

/// Flat node sequence of a sequence of representations, in order.
pub open spec fn reprs_nodes(s: Seq<BinaryRepr>) -> Seq<Node>
    decreases s,
{
    if s.len() == 0 {
        Seq::empty()
    } else {
        s[0].nodes_seq() + reprs_nodes(s.drop_first())
    }
}

impl BinaryRepr {
    /// Bit length of the representation, as a mathematical integer: the
    /// declared width for a scalar, the sum of the children for an array.
    pub open spec fn spec_len(self) -> nat
        decreases self,
    {
        match self {
            BinaryRepr::Bit(_) => 1,
            BinaryRepr::U8(_) => 8,
            BinaryRepr::U16(_) => 16,
            BinaryRepr::U32(_) => 32,
            BinaryRepr::U64(_) => 64,
            BinaryRepr::U128(_) => 128,
            BinaryRepr::Array(v) => reprs_len(v@),
        }
    }

    /// The flat node sequence, in strict left-to-right structural order.
    pub open spec fn nodes_seq(self) -> Seq<Node>
        decreases self,
    {
        match self {
            BinaryRepr::Bit(x) => x@,
            BinaryRepr::U8(x) => x@,
            BinaryRepr::U16(x) => x@,
            BinaryRepr::U32(x) => x@,
            BinaryRepr::U64(x) => x@,
            BinaryRepr::U128(x) => x@,
            BinaryRepr::Array(v) => reprs_nodes(v@),
        }
    }

    /// Shape inference reads the variant tag, and for an array the first
    /// element; it is undefined on an array without elements, which this
    /// spec mirrors by demanding a first element along that path.
    pub open spec fn shape_defined(self) -> bool
        decreases self,
    {
        match self {
            BinaryRepr::Array(v) => v@.len() > 0 && v@[0].shape_defined(),
            _ => true,
        }
    }

    /// The shape of the representation, inferred from the variant tag and,
    /// for an array, from its first element.
    pub open spec fn shape(self) -> ValueType
        recommends
            self.shape_defined(),
        decreases self,
    {
        match self {
            BinaryRepr::Bit(_) => ValueType::Bit,
            BinaryRepr::U8(_) => ValueType::U8,
            BinaryRepr::U16(_) => ValueType::U16,
            BinaryRepr::U32(_) => ValueType::U32,
            BinaryRepr::U64(_) => ValueType::U64,
            BinaryRepr::U128(_) => ValueType::U128,
            BinaryRepr::Array(v) => ValueType::Array(
                Box::new(
                    if v@.len() > 0 {
                        v@[0].shape()
                    } else {
                        ValueType::Bit
                    },
                ),
                v@.len() as usize,
            ),
        }
    }

    /// Well-formedness: every scalar owns exactly its width of nodes, and
    /// every array is non-empty and homogeneous (all children of one
    /// shape). Encoding establishes this and every operation preserves it.
    pub open spec fn wf(self) -> bool
        decreases self,
    {
        match self {
            BinaryRepr::Bit(x) => x.wf(),
            BinaryRepr::U8(x) => x.wf(),
            BinaryRepr::U16(x) => x.wf(),
            BinaryRepr::U32(x) => x.wf(),
            BinaryRepr::U64(x) => x.wf(),
            BinaryRepr::U128(x) => x.wf(),
            BinaryRepr::Array(v) => v@.len() > 0 && (forall|i: int|
                0 <= i < v@.len() ==> (#[trigger] v@[i]).wf() && v@[i].shape() == v@[0].shape()),
        }
    }

    /// The representation matches shape `t` exactly, with every scalar
    /// holding its full width of nodes. Unlike `wf`, an array of length
    /// zero matches its descriptor; encoding a zero-length array shape
    /// produces exactly that.
    pub open spec fn matches_type(self, t: ValueType) -> bool
        decreases self,
    {
        match self {
            BinaryRepr::Bit(x) => t == ValueType::Bit && x.wf(),
            BinaryRepr::U8(x) => t == ValueType::U8 && x.wf(),
            BinaryRepr::U16(x) => t == ValueType::U16 && x.wf(),
            BinaryRepr::U32(x) => t == ValueType::U32 && x.wf(),
            BinaryRepr::U64(x) => t == ValueType::U64 && x.wf(),
            BinaryRepr::U128(x) => t == ValueType::U128 && x.wf(),
            BinaryRepr::Array(v) => {
                &&& t matches ValueType::Array(et, n)
                &&& v@.len() == n
                &&& forall|i: int| 0 <= i < v@.len() ==> (#[trigger] v@[i]).matches_type(*et)
            },
        }
    }

    /// The representation can decode a bit sequence: every array within is
    /// non-empty and its children agree on bit length, so chunking a bit
    /// sequence by the first child's length covers every child exactly.
    pub open spec fn decodable(self) -> bool
        decreases self,
    {
        match self {
            BinaryRepr::Array(v) => v@.len() > 0 && (forall|i: int|
                0 <= i < v@.len() ==> (#[trigger] v@[i]).decodable() && v@[i].spec_len()
                    == v@[0].spec_len()),
            _ => true,
        }
    }

    /// Returns the type of the value.
    ///
    /// The shape is read from the variant tag; for an array it is inferred
    /// from the first element, so an array must have one.
    pub fn value_type(&self) -> (r: ValueType)
        requires
            self.shape_defined(),
        ensures
            r == self.shape(),
        decreases *self,
    {
        match self {
            BinaryRepr::Bit(_) => ValueType::Bit,
            BinaryRepr::U8(_) => ValueType::U8,
            BinaryRepr::U16(_) => ValueType::U16,
            BinaryRepr::U32(_) => ValueType::U32,
            BinaryRepr::U64(_) => ValueType::U64,
            BinaryRepr::U128(_) => ValueType::U128,
            BinaryRepr::Array(v) => {
                let t = v[0].value_type();
                ValueType::Array(Box::new(t), v.len())
            },
        }
    }

    /// Returns the length of the type in bits.
    pub fn len(&self) -> (r: usize)
        requires
            self.spec_len() <= usize::MAX,
        ensures
            r == self.spec_len(),
        decreases *self,
    {
        match self {
            BinaryRepr::Bit(_) => 1,
            BinaryRepr::U8(_) => 8,
            BinaryRepr::U16(_) => 16,
            BinaryRepr::U32(_) => 32,
            BinaryRepr::U64(_) => 64,
            BinaryRepr::U128(_) => 128,
            BinaryRepr::Array(v) => {
                let n = v.len();
                let mut total: usize = 0;
                let mut i: usize = 0;
                while i < n
                    invariant
                        i <= n,
                        n == v@.len(),
                        *self == BinaryRepr::Array(*v),
                        reprs_len(v@) <= usize::MAX,
                        total == reprs_len(v@.subrange(0, i as int)),
                    decreases n - i,
                {
                    proof {
                        lemma_reprs_len_decompose(v@, i as int);
                        assert(decreases_to!(*self => self->Array_0));
                        assert(decreases_to!(*v => v@));
                        assert(decreases_to!(v@ => v@[i as int]));
                        assert(decreases_to!(*self => v@[i as int]));
                    }
                    let part = v[i].len();
                    total = total + part;
                    proof {
                        lemma_reprs_len_push(v@.subrange(0, i as int), v@[i as int]);
                        assert(v@.subrange(0, i as int).push(v@[i as int]) =~= v@.subrange(
                            0,
                            i + 1,
                        ));
                    }
                    i = i + 1;
                }
                proof {
                    assert(v@.subrange(0, n as int) =~= v@);
                }
                total
            },
        }
    }

    /// Returns the nodes, in strict left-to-right structural order: the
    /// canonical bit-position to node correspondence.
    pub fn iter(&self) -> (r: Vec<Node>)
        ensures
            r@ == self.nodes_seq(),
        decreases *self,
    {
        match self {
            BinaryRepr::Bit(x) => x.nodes(),
            BinaryRepr::U8(x) => x.nodes(),
            BinaryRepr::U16(x) => x.nodes(),
            BinaryRepr::U32(x) => x.nodes(),
            BinaryRepr::U64(x) => x.nodes(),
            BinaryRepr::U128(x) => x.nodes(),
            BinaryRepr::Array(v) => {
                let n = v.len();
                let mut r: Vec<Node> = Vec::new();
                let mut i: usize = 0;
                while i < n
                    invariant
                        i <= n,
                        n == v@.len(),
                        *self == BinaryRepr::Array(*v),
                        r@ == reprs_nodes(v@.subrange(0, i as int)),
                    decreases n - i,
                {
                    proof {
                        assert(decreases_to!(*self => self->Array_0));
                        assert(decreases_to!(*v => v@));
                        assert(decreases_to!(v@ => v@[i as int]));
                        assert(decreases_to!(*self => v@[i as int]));
                    }
                    let mut part = v[i].iter();
                    r.append(&mut part);
                    proof {
                        lemma_reprs_nodes_push(v@.subrange(0, i as int), v@[i as int]);
                        assert(v@.subrange(0, i as int).push(v@[i as int]) =~= v@.subrange(
                            0,
                            i + 1,
                        ));
                    }
                    i = i + 1;
                }
                proof {
                    assert(v@.subrange(0, n as int) =~= v@);
                }
                r
            },
        }
    }
}

impl Clone for BinaryRepr {
    /// A clone has the same shape and bit length and carries the same
    /// nodes, and is well formed wherever its source is. It is rebuilt as
    /// a shift by zero places.
    fn clone(&self) -> (r: Self)
        ensures
            r.spec_len() == self.spec_len(),
            r.shape_defined() == self.shape_defined(),
            r.shape() == self.shape(),
            r.nodes_seq() == self.nodes_seq(),
            self.wf() ==> r.wf(),
    {
        let r = self.shifted(0);
        proof {
            assert forall|k: int|
                0 <= k < self.nodes_seq().len() implies #[trigger] r.nodes_seq()[k]
                == self.nodes_seq()[k] by {
                assert(r.nodes_seq()[k].id == self.nodes_seq()[k].id);
            };
            assert(r.nodes_seq() =~= self.nodes_seq());
        }
        r
    }
}

/// How a representation after a left shift relates to the one before it:
/// the shape, the bit length and the node count are unchanged, and every
/// node's identity is renumbered down by exactly `offset`.
pub open spec fn shifted_by(a: BinaryRepr, b: BinaryRepr, offset: int) -> bool {
    &&& b.spec_len() == a.spec_len()
    &&& b.shape() == a.shape()
    &&& b.shape_defined() == a.shape_defined()
    &&& b.nodes_seq().len() == a.nodes_seq().len()
    &&& forall|k: int|
        0 <= k < a.nodes_seq().len() ==> (#[trigger] b.nodes_seq()[k]).id == a.nodes_seq()[k].id
            - offset
    &&& a.wf() ==> b.wf()
}

impl BinaryRepr {
    /// Rebuilds the representation with every node renumbered `offset`
    /// places towards lower indices.
    fn shifted(&self, offset: usize) -> (r: BinaryRepr)
        requires
            forall|k: int|
                0 <= k < self.nodes_seq().len() ==> offset <= (#[trigger] self.nodes_seq()[k]).id,
        ensures
            shifted_by(*self, r, offset as int),
        decreases *self,
    {
        match self {
            BinaryRepr::Bit(x) => {
                let mut y = x.clone();
                proof {
                    assert forall|k: int| 0 <= k < y@.len() implies offset <= y@[k].id by {
                        assert(self.nodes_seq()[k] == y@[k]);
                    };
                }
                y.shift_left(offset);
                BinaryRepr::Bit(y)
            },
            BinaryRepr::U8(x) => {
                let mut y = x.clone();
                proof {
                    assert forall|k: int| 0 <= k < y@.len() implies offset <= y@[k].id by {
                        assert(self.nodes_seq()[k] == y@[k]);
                    };
                }
                y.shift_left(offset);
                BinaryRepr::U8(y)
            },
            BinaryRepr::U16(x) => {
                let mut y = x.clone();
                proof {
                    assert forall|k: int| 0 <= k < y@.len() implies offset <= y@[k].id by {
                        assert(self.nodes_seq()[k] == y@[k]);
                    };
                }
                y.shift_left(offset);
                BinaryRepr::U16(y)
            },
            BinaryRepr::U32(x) => {
                let mut y = x.clone();
                proof {
                    assert forall|k: int| 0 <= k < y@.len() implies offset <= y@[k].id by {
                        assert(self.nodes_seq()[k] == y@[k]);
                    };
                }
                y.shift_left(offset);
                BinaryRepr::U32(y)
            },
            BinaryRepr::U64(x) => {
                let mut y = x.clone();
                proof {
                    assert forall|k: int| 0 <= k < y@.len() implies offset <= y@[k].id by {
                        assert(self.nodes_seq()[k] == y@[k]);
                    };
                }
                y.shift_left(offset);
                BinaryRepr::U64(y)
            },
            BinaryRepr::U128(x) => {
                let mut y = x.clone();
                proof {
                    assert forall|k: int| 0 <= k < y@.len() implies offset <= y@[k].id by {
                        assert(self.nodes_seq()[k] == y@[k]);
                    };
                }
                y.shift_left(offset);
                BinaryRepr::U128(y)
            },
            BinaryRepr::Array(v) => {
                let n = v.len();
                proof {
                    assert forall|k: int| 0 <= k < reprs_nodes(v@).len() implies offset <= (
                    #[trigger] reprs_nodes(v@)[k]).id by {
                        assert(self.nodes_seq()[k] == reprs_nodes(v@)[k]);
                    };
                }
                let mut out: Vec<BinaryRepr> = Vec::new();
                let mut i: usize = 0;
                while i < n
                    invariant
                        i <= n,
                        n == v@.len(),
                        *self == BinaryRepr::Array(*v),
                        forall|k: int|
                            0 <= k < reprs_nodes(v@).len() ==> offset <= (#[trigger] reprs_nodes(
                                v@,
                            )[k]).id,
                        out@.len() == i,
                        forall|j: int|
                            0 <= j < i ==> shifted_by(v@[j], #[trigger] out@[j], offset as int),
                        reprs_len(out@) == reprs_len(v@.subrange(0, i as int)),
                        reprs_nodes(out@).len() == reprs_nodes(v@.subrange(0, i as int)).len(),
                        forall|k: int|
                            0 <= k < reprs_nodes(out@).len() ==> (#[trigger] reprs_nodes(
                                out@,
                            )[k]).id == reprs_nodes(v@)[k].id - offset,
                    decreases n - i,
                {
                    proof {
                        assert(decreases_to!(*self => self->Array_0));
                        assert(decreases_to!(*v => v@));
                        assert(decreases_to!(v@ => v@[i as int]));
                        assert(decreases_to!(*self => v@[i as int]));
                        lemma_reprs_nodes_decompose(v@, i as int);
                        assert forall|k: int| 0 <= k < v@[i as int].nodes_seq().len() implies offset
                            <= (#[trigger] v@[i as int].nodes_seq()[k]).id by {
                            let base = reprs_nodes(v@.subrange(0, i as int)).len();
                            assert(reprs_nodes(v@)[base + k] == v@[i as int].nodes_seq()[k]);
                        };
                    }
                    let part = v[i].shifted(offset);
                    proof {
                        lemma_reprs_len_push(out@, part);
                        lemma_reprs_nodes_push(out@, part);
                        lemma_reprs_len_push(v@.subrange(0, i as int), v@[i as int]);
                        lemma_reprs_nodes_push(v@.subrange(0, i as int), v@[i as int]);
                        assert(v@.subrange(0, i as int).push(v@[i as int]) =~= v@.subrange(
                            0,
                            i + 1,
                        ));
                        lemma_reprs_nodes_decompose(v@, i as int);
                    }
                    out.push(part);
                    i = i + 1;
                }
                proof {
                    assert(v@.subrange(0, n as int) =~= v@);
                    if self.wf() {
                        assert forall|j: int| 0 <= j < n implies (#[trigger] out@[j]).wf()
                            && out@[j].shape() == out@[0].shape() by {
                            assert(shifted_by(v@[j], out@[j], offset as int));
                            assert(shifted_by(v@[0], out@[0], offset as int));
                        };
                    }
                    if n > 0 {
                        assert(shifted_by(v@[0], out@[0], offset as int));
                    }
                }
                BinaryRepr::Array(out)
            },
        }
    }

    /// Shifts the node IDs to the left by the given offset, relocating a
    /// previously built sub-circuit's node range. Shape and length are
    /// unchanged; only node identities change, each renumbered down by
    /// exactly `offset`.
    pub fn shift_left(&mut self, offset: usize)
        requires
            forall|k: int|
                0 <= k < old(self).nodes_seq().len() ==> offset <= (#[trigger] old(
                    self,
                ).nodes_seq()[k]).id,
        ensures
            shifted_by(*old(self), *final(self), offset as int),
    {
        let r = self.shifted(offset);
        *self = r;
    }
}

impl ValueType {
    /// Encodes a node slice of exactly the right length into the shape of
    /// `self`. Scalars consume the whole slice; an array chunks it into
    /// element-sized pieces, in order.
    fn encode_exact(&self, nodes: &[Node]) -> (r: BinaryRepr)
        requires
            self.fits(),
            self.elems_sized(),
            nodes@.len() == self.spec_len(),
        ensures
            r.matches_type(*self),
            r.nodes_seq() == nodes@,
        decreases *self,
    {
        match self {
            ValueType::Bit => BinaryRepr::Bit(Scalar::new(slice_to_vec(nodes))),
            ValueType::U8 => BinaryRepr::U8(Scalar::new(slice_to_vec(nodes))),
            ValueType::U16 => BinaryRepr::U16(Scalar::new(slice_to_vec(nodes))),
            ValueType::U32 => BinaryRepr::U32(Scalar::new(slice_to_vec(nodes))),
            ValueType::U64 => BinaryRepr::U64(Scalar::new(slice_to_vec(nodes))),
            ValueType::U128 => BinaryRepr::U128(Scalar::new(slice_to_vec(nodes))),
            ValueType::Array(et, n) => {
                let w = et.len();
                let count = *n;
                let mut out: Vec<BinaryRepr> = Vec::new();
                let mut i: usize = 0;
                proof {
                    assert(self.spec_len() == et.spec_len() * count);
                }
                while i < count
                    invariant
                        i <= count,
                        *self is Array,
                        self->Array_0 == *et,
                        self->Array_1 == count,
                        et.fits(),
                        et.elems_sized(),
                        w == et.spec_len(),
                        w >= 1,
                        nodes@.len() == w * count <= usize::MAX,
                        out@.len() == i,
                        forall|j: int| 0 <= j < i ==> (#[trigger] out@[j]).matches_type(**et),
                        reprs_nodes(out@) == nodes@.subrange(0, i * w),
                    decreases count - i,
                {
                    proof {
                        lemma_mul_inequality(i + 1 as int, count as int, w as int);
                        lemma_mul_inequality(i as int, count as int, w as int);
                        assert((i + 1) * w == i * w + w) by (nonlinear_arith);
                        assert(decreases_to!(*self => self->Array_0));
                        assert(decreases_to!(*self => **et));
                    }
                    let start = i * w;
                    let stop = start + w;
                    let chunk = slice_subrange(nodes, start, stop);
                    let part = et.encode_exact(chunk);
                    proof {
                        lemma_reprs_nodes_push(out@, part);
                        assert(nodes@.subrange(0, i * w) + nodes@.subrange(
                            i * w,
                            (i + 1) * w,
                        ) =~= nodes@.subrange(0, (i + 1) * w));
                    }
                    out.push(part);
                    i = i + 1;
                }
                proof {
                    assert(reprs_nodes(out@) == nodes@.subrange(0, count * w));
                    assert(nodes@.subrange(0, count * w) =~= nodes@) by {
                        assert(count * w == w * count) by (nonlinear_arith);
                    };
                }
                BinaryRepr::Array(out)
            },
        }
    }

    /// Encodes a flat node slice into a binary representation of this
    /// shape.
    ///
    /// Fails with `InvalidLength` whenever the slice length differs from
    /// the bit length of the shape; otherwise the result matches this
    /// shape exactly and carries the given nodes in structural order.
    pub fn to_bin_repr(&self, nodes: &[Node]) -> (r: Result<BinaryRepr, TypeError>)
        requires
            self.fits(),
            nodes@.len() == self.spec_len() ==> self.elems_sized(),
        ensures
            r is Ok <==> nodes@.len() == self.spec_len(),
            r matches Ok(b) ==> b.matches_type(*self) && b.nodes_seq() == nodes@,
            r matches Err(e)
                ==> e matches TypeError::InvalidLength { expected, actual } && expected
                == self.spec_len() && actual == nodes@.len(),
    {
        let expected = self.len();
        if nodes.len() != expected {
            Err(TypeError::InvalidLength { expected, actual: nodes.len() })
        } else {
            Ok(self.encode_exact(nodes))
        }
    }
}

/// A sequence of representations that all match one element shape has the
/// length and node count of that many elements.
pub proof fn lemma_reprs_uniform_len(s: Seq<BinaryRepr>, w: nat)
    requires
        forall|i: int|
            0 <= i < s.len() ==> (#[trigger] s[i]).spec_len() == w && s[i].nodes_seq().len() == w,
    ensures
        reprs_len(s) == s.len() * w,
        reprs_nodes(s).len() == s.len() * w,
    decreases s.len(),
{
    if s.len() == 0 {
    } else {
        lemma_reprs_uniform_len(s.drop_first(), w);
        assert(s.len() * w == (s.len() - 1) * w + w) by (nonlinear_arith);
    }
}

/// A representation that matches a shape has that shape's bit length, both
/// as declared and counted over its flat node sequence.
pub proof fn lemma_matches_type_len(r: BinaryRepr, t: ValueType)
    requires
        r.matches_type(t),
    ensures
        r.spec_len() == t.spec_len(),
        r.nodes_seq().len() == t.spec_len(),
    decreases r,
{
    match r {
        BinaryRepr::Array(v) => {
            let et = t->Array_0;
            assert forall|i: int|
                0 <= i < v@.len() implies (#[trigger] v@[i]).spec_len() == et.spec_len()
                && v@[i].nodes_seq().len() == et.spec_len() by {
                assert(decreases_to!(r => r->Array_0));
                assert(decreases_to!(r->Array_0 => r->Array_0@));
                assert(decreases_to!(r->Array_0@ => r->Array_0@[i]));
                lemma_matches_type_len(v@[i], *et);
            };
            lemma_reprs_uniform_len(v@, et.spec_len());
            assert(t is Array);
            assert(v@.len() == t->Array_1);
            assert(v@.len() * et.spec_len() == et.spec_len() * v@.len()) by (nonlinear_arith);
        },
        _ => {},
    }
}

/// Length consistency: a representation built over a node sequence of the
/// shape's bit length is as long, in bits and in nodes, as the shape
/// demands — `r`, `t` and `nodes` all agree.
pub proof fn lemma_length_consistency(t: ValueType, nodes: Seq<Node>, r: BinaryRepr)
    requires
        r.matches_type(t),
        r.nodes_seq() == nodes,
    ensures
        r.spec_len() == t.spec_len(),
        nodes.len() == t.spec_len(),
{
    lemma_matches_type_len(r, t);
}

/// A sequence of representations that agree on one bit length has the
/// total length of that many elements.
pub proof fn lemma_reprs_uniform_spec_len(s: Seq<BinaryRepr>, w: nat)
    requires
        forall|i: int| 0 <= i < s.len() ==> (#[trigger] s[i]).spec_len() == w,
    ensures
        reprs_len(s) == s.len() * w,
    decreases s.len(),
{
    if s.len() == 0 {
    } else {
        lemma_reprs_uniform_spec_len(s.drop_first(), w);
        assert(s.len() * w == (s.len() - 1) * w + w) by (nonlinear_arith);
    }
}

/// A representation that matches a shape whose arrays all have elements is
/// well formed, decodable, and carries exactly that shape.
pub proof fn lemma_matches_shape(r: BinaryRepr, t: ValueType)
    requires
        r.matches_type(t),
        t.positive(),
    ensures
        r.wf(),
        r.decodable(),
        r.shape_defined(),
        r.shape() == t,
    decreases r,
{
    match r {
        BinaryRepr::Array(v) => {
            let et = t->Array_0;
            assert forall|i: int|
                0 <= i < v@.len() implies (#[trigger] v@[i]).wf() && v@[i].decodable()
                && v@[i].shape_defined() && v@[i].shape() == *et && v@[i].spec_len()
                == et.spec_len() by {
                assert(decreases_to!(r => r->Array_0));
                assert(decreases_to!(r->Array_0 => r->Array_0@));
                assert(decreases_to!(r->Array_0@ => r->Array_0@[i]));
                lemma_matches_shape(v@[i], *et);
                lemma_matches_type_len(v@[i], *et);
            };
        },
        _ => {},
    }
}

/// A decodable representation has a defined shape, and that shape is
/// sized, chunkable, and as long as the representation itself.
pub proof fn lemma_decodable_shape(r: BinaryRepr)
    requires
        r.decodable(),
        r.spec_len() <= usize::MAX,
    ensures
        r.shape_defined(),
        r.shape().spec_len() == r.spec_len(),
        r.spec_len() >= 1,
        r.shape().elems_sized(),
        r.shape().fits(),
    decreases r,
{
    match r {
        BinaryRepr::Array(v) => {
            let n = v@.len();
            let w = v@[0].spec_len();
            assert(decreases_to!(r => r->Array_0));
            assert(decreases_to!(r->Array_0 => r->Array_0@));
            assert(decreases_to!(r->Array_0@ => r->Array_0@[0]));
            lemma_decodable_shape_pos(v@[0]);
            lemma_reprs_uniform_spec_len(v@, w);
            assert(r.spec_len() == n * w);
            assert(w <= n * w && n <= n * w && n * w >= 1) by (nonlinear_arith)
                requires
                    n >= 1,
                    w >= 1,
            ;
            lemma_decodable_shape(v@[0]);
            assert(r.shape() == ValueType::Array(Box::new(v@[0].shape()), n as usize));
            assert(r.shape().spec_len() == (v@[0].shape().spec_len() * n) as nat);
            assert(w * n == n * w) by (nonlinear_arith);
        },
        _ => {},
    }
}

/// A decodable representation holds at least one bit.
pub proof fn lemma_decodable_shape_pos(r: BinaryRepr)
    requires
        r.decodable(),
    ensures
        r.spec_len() >= 1,
    decreases r,
{
    match r {
        BinaryRepr::Array(v) => {
            let n = v@.len();
            let w = v@[0].spec_len();
            assert(decreases_to!(r => r->Array_0));
            assert(decreases_to!(r->Array_0 => r->Array_0@));
            assert(decreases_to!(r->Array_0@ => r->Array_0@[0]));
            lemma_decodable_shape_pos(v@[0]);
            lemma_reprs_uniform_spec_len(v@, w);
            assert(n * w >= 1) by (nonlinear_arith)
                requires
                    n >= 1,
                    w >= 1,
            ;
        },
        _ => {},
    }
}

/// Splitting a sequence of representations splits its total length.
pub proof fn lemma_reprs_len_concat(a: Seq<BinaryRepr>, b: Seq<BinaryRepr>)
    ensures
        reprs_len(a + b) == reprs_len(a) + reprs_len(b),
    decreases a.len(),
{
    if a.len() == 0 {
        assert(a + b =~= b);
    } else {
        lemma_reprs_len_concat(a.drop_first(), b);
        assert((a + b).drop_first() =~= a.drop_first() + b);
        assert((a + b)[0] == a[0]);
    }
}

/// Splitting a sequence of representations splits its flat node sequence.
pub proof fn lemma_reprs_nodes_concat(a: Seq<BinaryRepr>, b: Seq<BinaryRepr>)
    ensures
        reprs_nodes(a + b) == reprs_nodes(a) + reprs_nodes(b),
    decreases a.len(),
{
    if a.len() == 0 {
        assert(a + b =~= b);
        assert(reprs_nodes(a) + reprs_nodes(b) =~= reprs_nodes(b));
    } else {
        lemma_reprs_nodes_concat(a.drop_first(), b);
        assert((a + b).drop_first() =~= a.drop_first() + b);
        assert((a + b)[0] == a[0]);
        assert(a[0].nodes_seq() + (reprs_nodes(a.drop_first()) + reprs_nodes(b)) =~= (
        a[0].nodes_seq() + reprs_nodes(a.drop_first())) + reprs_nodes(b));
    }
}

/// Appending one representation adds its length.
pub proof fn lemma_reprs_len_push(s: Seq<BinaryRepr>, x: BinaryRepr)
    ensures
        reprs_len(s.push(x)) == reprs_len(s) + x.spec_len(),
{
    lemma_reprs_len_concat(s, seq![x]);
    assert(s.push(x) =~= s + seq![x]);
    assert(seq![x].drop_first() =~= Seq::<BinaryRepr>::empty());
    assert(reprs_len(Seq::<BinaryRepr>::empty()) == 0);
    assert(reprs_len(seq![x]) == x.spec_len() + reprs_len(seq![x].drop_first()));
}

/// Appending one representation appends its nodes.
pub proof fn lemma_reprs_nodes_push(s: Seq<BinaryRepr>, x: BinaryRepr)
    ensures
        reprs_nodes(s.push(x)) == reprs_nodes(s) + x.nodes_seq(),
{
    lemma_reprs_nodes_concat(s, seq![x]);
    assert(s.push(x) =~= s + seq![x]);
    assert(seq![x].drop_first() =~= Seq::<BinaryRepr>::empty());
    assert(x.nodes_seq() + reprs_nodes(Seq::<BinaryRepr>::empty()) =~= x.nodes_seq());
}

/// The total length of a sequence of representations splits around any
/// element.
pub proof fn lemma_reprs_len_decompose(s: Seq<BinaryRepr>, i: int)
    requires
        0 <= i < s.len(),
    ensures
        reprs_len(s) == reprs_len(s.subrange(0, i)) + s[i].spec_len() + reprs_len(
            s.subrange(i + 1, s.len() as int),
        ),
{
    lemma_reprs_len_concat(s.subrange(0, i), seq![s[i]] + s.subrange(i + 1, s.len() as int));
    lemma_reprs_len_concat(seq![s[i]], s.subrange(i + 1, s.len() as int));
    assert(s =~= s.subrange(0, i) + (seq![s[i]] + s.subrange(i + 1, s.len() as int)));
    assert(seq![s[i]].drop_first() =~= Seq::<BinaryRepr>::empty());
    assert(reprs_len(Seq::<BinaryRepr>::empty()) == 0);
    assert(reprs_len(seq![s[i]]) == s[i].spec_len() + reprs_len(seq![s[i]].drop_first()));
}

/// The flat node sequence of a sequence of representations splits around
/// any element.
pub proof fn lemma_reprs_nodes_decompose(s: Seq<BinaryRepr>, i: int)
    requires
        0 <= i < s.len(),
    ensures
        reprs_nodes(s) == reprs_nodes(s.subrange(0, i)) + s[i].nodes_seq() + reprs_nodes(
            s.subrange(i + 1, s.len() as int),
        ),
{
    lemma_reprs_nodes_concat(s.subrange(0, i), seq![s[i]] + s.subrange(i + 1, s.len() as int));
    lemma_reprs_nodes_concat(seq![s[i]], s.subrange(i + 1, s.len() as int));
    assert(s =~= s.subrange(0, i) + (seq![s[i]] + s.subrange(i + 1, s.len() as int)));
    assert(seq![s[i]].drop_first() =~= Seq::<BinaryRepr>::empty());
    assert(s[i].nodes_seq() + reprs_nodes(Seq::<BinaryRepr>::empty()) =~= s[i].nodes_seq());
}

} // verus!
