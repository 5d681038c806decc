use circuit_types::convert::ToBinaryRepr;
use circuit_types::{Node, TypeError, Value, ValueType};

fn nodes(n: usize) -> Vec<Node> {
    let mut v = Vec::new();
    for i in 0..n {
        v.push(Node::new(i));
    }
    v
}

fn nodes_from(base: usize, n: usize) -> Vec<Node> {
    let mut v = Vec::new();
    for i in 0..n {
        v.push(Node::new(base + i));
    }
    v
}

#[test]
fn value_type_lengths() {
    assert_eq!(ValueType::Bit.len(), 1);
    assert_eq!(ValueType::U8.len(), 8);
    assert_eq!(ValueType::U16.len(), 16);
    assert_eq!(ValueType::U32.len(), 32);
    assert_eq!(ValueType::U64.len(), 64);
    assert_eq!(ValueType::U128.len(), 128);
    let ty = ValueType::Array(Box::new(ValueType::U64), 3);
    assert_eq!(ty.len(), 192);
    assert!(ty.is_array());
    assert!(!ValueType::U8.is_array());
}

#[test]
fn static_value_types() {
    assert_eq!(ValueType::new::<bool>(), ValueType::Bit);
    assert_eq!(ValueType::new::<u32>(), ValueType::U32);
    assert_eq!(
        ValueType::new::<[u8; 7]>(),
        ValueType::Array(Box::new(ValueType::U8), 7)
    );
    assert_eq!(
        ValueType::new_array::<u16>(9),
        ValueType::Array(Box::new(ValueType::U16), 9)
    );
}

#[test]
fn array_homogeneity_boundary() {
    let ty = ValueType::new_array::<u32>(4);
    assert_eq!(ty.len(), 128);
    let err = ty.to_bin_repr(&nodes(127)).unwrap_err();
    assert!(matches!(
        err,
        TypeError::InvalidLength { expected: 128, actual: 127 }
    ));
}

#[test]
fn length_consistency_after_encoding() {
    let ty = ValueType::Array(Box::new(ValueType::Array(Box::new(ValueType::U8), 2)), 3);
    assert_eq!(ty.len(), 48);
    let repr = ty.to_bin_repr(&nodes(48)).unwrap();
    assert_eq!(repr.len(), 48);
    assert_eq!(repr.value_type(), ty);
    let flat = repr.iter();
    assert_eq!(flat.len(), 48);
    for (i, node) in flat.iter().enumerate() {
        assert_eq!(node.id, i);
    }
}

#[test]
fn decode_length_mismatch() {
    let repr = ValueType::U16.to_bin_repr(&nodes(16)).unwrap();
    let err = repr.from_bin_repr(&vec![false; 15]).unwrap_err();
    assert!(matches!(
        err,
        TypeError::InvalidLength { expected: 16, actual: 15 }
    ));
}

#[test]
fn shift_left_preserves_shape() {
    let ty = ValueType::new_array::<u16>(2);
    let mut repr = ty.to_bin_repr(&nodes_from(10, 32)).unwrap();
    let before = repr.iter();
    repr.shift_left(10);
    assert_eq!(repr.len(), 32);
    assert_eq!(repr.value_type(), ty);
    let after = repr.iter();
    assert_eq!(before.len(), after.len());
    for (a, b) in before.iter().zip(after.iter()) {
        assert_eq!(b.id, a.id - 10);
    }
}

#[test]
fn xor_u8_correctness() {
    let r = Value::U8(12).bitxor(&Value::U8(5)).unwrap();
    assert_eq!(r, Value::U8(9));
}

#[test]
fn xor_scalar_widths() {
    assert_eq!(
        Value::Bit(true).bitxor(&Value::Bit(true)).unwrap(),
        Value::Bit(false)
    );
    assert_eq!(
        Value::U64(0xFF00).bitxor(&Value::U64(0x0FF0)).unwrap(),
        Value::U64(0xF0F0)
    );
    assert_eq!(
        Value::U128(1 << 100).bitxor(&Value::U128(1)).unwrap(),
        Value::U128((1 << 100) | 1)
    );
}

#[test]
fn xor_type_mismatch() {
    let err = Value::Bit(true).bitxor(&Value::U8(1)).unwrap_err();
    match err {
        TypeError::UnexpectedType { expected, actual } => {
            assert_eq!(expected, ValueType::Bit);
            assert_eq!(actual, ValueType::U8);
        },
        other => panic!("wrong error: {:?}", other),
    }
}

#[test]
fn xor_nested_mismatch_reports_leaf_shapes() {
    let a = Value::Array(vec![Value::U8(1), Value::U16(2)]);
    let b = Value::Array(vec![Value::U8(3), Value::U32(4)]);
    let err = a.bitxor(&b).unwrap_err();
    match err {
        TypeError::UnexpectedType { expected, actual } => {
            assert_eq!(expected, ValueType::U16);
            assert_eq!(actual, ValueType::U32);
        },
        other => panic!("wrong error: {:?}", other),
    }
}

#[test]
fn xor_array_truncates_to_shorter() {
    // arrays combine over the shared prefix; the longer tail is dropped
    let a = Value::Array(vec![Value::U8(1), Value::U8(2), Value::U8(3)]);
    let b = Value::Array(vec![Value::U8(255)]);
    let r = a.bitxor(&b).unwrap();
    assert_eq!(r, Value::Array(vec![Value::U8(254)]));
}

#[test]
fn dynamic_sequence_length_policy() {
    // a dynamically sized sequence accepts exactly a whole number of
    // elements: 24 nodes are three 8-bit values
    let reps = <Vec<u8> as ToBinaryRepr>::new_bin_repr(&nodes(24)).unwrap();
    assert_eq!(reps.len(), 3);
    for (i, rep) in reps.iter().enumerate() {
        for (j, node) in rep.nodes().iter().enumerate() {
            assert_eq!(node.id, 8 * i + j);
        }
    }
    // 20 nodes are not a whole number of 8-bit values: the error names the
    // nearest whole-element length above
    let err = <Vec<u8> as ToBinaryRepr>::new_bin_repr(&nodes(20)).unwrap_err();
    assert!(matches!(
        err,
        TypeError::InvalidLength { expected: 24, actual: 20 }
    ));
}

#[test]
fn fixed_array_new_bin_repr() {
    let reps = <[u32; 2] as ToBinaryRepr>::new_bin_repr(&nodes(64)).unwrap();
    assert_eq!(reps.len(), 2);
    let err = <[u32; 2] as ToBinaryRepr>::new_bin_repr(&nodes(63)).unwrap_err();
    assert!(matches!(
        err,
        TypeError::InvalidLength { expected: 64, actual: 63 }
    ));
}

#[test]
fn scalar_new_bin_repr_exact() {
    let rep = <u8 as ToBinaryRepr>::new_bin_repr(&nodes_from(5, 8)).unwrap();
    for (j, node) in rep.nodes().iter().enumerate() {
        assert_eq!(node.id, 5 + j);
    }
    let err = <u8 as ToBinaryRepr>::new_bin_repr(&nodes(9)).unwrap_err();
    assert!(matches!(
        err,
        TypeError::InvalidLength { expected: 8, actual: 9 }
    ));
}

#[test]
fn value_type_of_values() {
    assert_eq!(Value::Bit(false).value_type(), ValueType::Bit);
    assert_eq!(Value::U64(1).value_type(), ValueType::U64);
    let arr = Value::Array(vec![Value::U8(1), Value::U8(2)]);
    assert_eq!(arr.value_type(), ValueType::Array(Box::new(ValueType::U8), 2));
}
