//! Value and type encoding layer for boolean circuits.
//!
//! The crate defines two parallel domains and the verified mapping between
//! them: native-like values (bits, fixed-width unsigned integers, and
//! nested homogeneous arrays of them), and wire-level representations of
//! the same shapes in which every leaf is a handle naming one boolean
//! signal of a circuit under construction. Length, shape and bit ordering
//! are specified exactly — index 0 is always the least-significant bit —
//! because downstream gate wiring depends on which node occupies which
//! bit position, not merely on numeric equality. Allocating wire nodes and
//! building gates belong to the surrounding circuit tooling.

pub mod bits;
pub mod convert;
pub mod error;
pub mod node;
pub mod repr;
pub mod scalar;
pub mod value;
pub mod value_type;

pub use error::TypeError;
pub use node::Node;
pub use repr::BinaryRepr;
pub use value::Value;
pub use value_type::ValueType;
