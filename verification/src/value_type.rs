use vstd::prelude::*;

verus! {

/// Shape descriptor of a value that can be encoded into a binary wire
/// representation: a scalar width, or a homogeneous array of a shape.
///
/// The descriptor carries no data; it drives encoding, decoding and the
/// declaration of circuit input and output ports.
#[derive(Debug, PartialEq, Eq, Hash)]
pub enum ValueType {
    Bit,
    U8,
    U16,
    U32,
    U64,
    U128,
    Array(Box<ValueType>, usize),
}

impl Clone for ValueType {
    /// A clone is the same shape.
    fn clone(&self) -> (r: Self)
        ensures
            r == *self,
        decreases *self,
    {
        match self {
            ValueType::Bit => ValueType::Bit,
            ValueType::U8 => ValueType::U8,
            ValueType::U16 => ValueType::U16,
            ValueType::U32 => ValueType::U32,
            ValueType::U64 => ValueType::U64,
            ValueType::U128 => ValueType::U128,
            ValueType::Array(t, n) => ValueType::Array(Box::new((**t).clone()), *n),
        }
    }
}

impl ValueType {
    /// Bit length of the shape, as a mathematical integer.
    pub open spec fn spec_len(self) -> nat
        decreases self,
    {
        match self {
            ValueType::Bit => 1,
            ValueType::U8 => 8,
            ValueType::U16 => 16,
            ValueType::U32 => 32,
            ValueType::U64 => 64,
            ValueType::U128 => 128,
            ValueType::Array(t, n) => (t.spec_len() * n) as nat,
        }
    }

    /// The bit length of the shape and of every nested shape fits in
    /// `usize`, so that the executable length computation cannot overflow.
    pub open spec fn fits(self) -> bool
        decreases self,
    {
        match self {
            ValueType::Array(t, n) => t.fits() && t.spec_len() * n <= usize::MAX,
            _ => true,
        }
    }

    /// Every array element shape inside carries at least one bit. Encoding
    /// chunks node slices by the element length, so an element shape of
    /// width zero cannot be chunked.
    pub open spec fn elems_sized(self) -> bool
        decreases self,
    {
        match self {
            ValueType::Array(t, n) => t.spec_len() > 0 && t.elems_sized(),
            _ => true,
        }
    }

    /// Every array level of the shape has at least one element. Shape
    /// inference on decoded data reads an array's first element, so only
    /// these shapes round-trip through their representations.
    pub open spec fn positive(self) -> bool
        decreases self,
    {
        match self {
            ValueType::Array(t, n) => n >= 1 && t.positive(),
            _ => true,
        }
    }

    /// Returns the length of the value type in bits.
    ///
    /// Scalar widths are fixed constants; an array is as long as its
    /// element shape times its element count.
    pub fn len(&self) -> (r: usize)
        requires
            self.fits(),
        ensures
            r == self.spec_len(),
        decreases *self,
    {
        match self {
            ValueType::Bit => 1,
            ValueType::U8 => 8,
            ValueType::U16 => 16,
            ValueType::U32 => 32,
            ValueType::U64 => 64,
            ValueType::U128 => 128,
            ValueType::Array(t, n) => {
                let e = t.len();
                e * *n
            },
        }
    }

    /// Returns whether the value type is an array.
    pub fn is_array(&self) -> (r: bool)
        ensures
            r == (*self is Array),
    {
        matches!(self, ValueType::Array(..))
    }
}

} // verus!
