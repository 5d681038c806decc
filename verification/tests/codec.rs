use circuit_types::convert::{BinaryLength, ToBinaryRepr};
use circuit_types::scalar::{U128, U16};
use circuit_types::{Node, Value, ValueType};
use rand::rngs::StdRng;
use rand::SeedableRng;

fn nodes(n: usize) -> Vec<Node> {
    let mut v = Vec::new();
    for i in 0..n {
        v.push(Node::new(i));
    }
    v
}

#[test]
fn roundtrip_u8_example() {
    // 177 == 0b10110001, LSB first: [1,0,0,0,1,1,0,1]
    let bits = vec![true, false, false, false, true, true, false, true];
    assert_eq!(Value::U8(177).into_iter_lsb0(), bits);
    let repr = ValueType::U8.to_bin_repr(&nodes(8)).unwrap();
    let decoded = repr.from_bin_repr(&bits).unwrap();
    assert_eq!(decoded, Value::U8(177));
}

#[test]
fn roundtrip_bit() {
    let repr = ValueType::Bit.to_bin_repr(&nodes(1)).unwrap();
    let bits = Value::Bit(true).into_iter_lsb0();
    assert_eq!(repr.from_bin_repr(&bits).unwrap(), Value::Bit(true));
    let bits = Value::Bit(false).into_iter_lsb0();
    assert_eq!(repr.from_bin_repr(&bits).unwrap(), Value::Bit(false));
}

#[test]
fn roundtrip_all_scalar_widths() {
    let cases = vec![
        (ValueType::U8, Value::U8(0xA5)),
        (ValueType::U16, Value::U16(0xBEEF)),
        (ValueType::U32, Value::U32(0xDEAD_BEEF)),
        (ValueType::U64, Value::U64(0x0123_4567_89AB_CDEF)),
        (ValueType::U128, Value::U128(0x0123_4567_89AB_CDEF_FEDC_BA98_7654_3210)),
    ];
    for (ty, v) in cases {
        let repr = ty.to_bin_repr(&nodes(ty.len())).unwrap();
        let bits = scalar_bits(&v);
        assert_eq!(repr.from_bin_repr(&bits).unwrap(), v);
    }
}

fn scalar_bits(v: &Value) -> Vec<bool> {
    match v {
        Value::Bit(b) => Value::Bit(*b).into_iter_lsb0(),
        Value::U8(x) => Value::U8(*x).into_iter_lsb0(),
        Value::U16(x) => Value::U16(*x).into_iter_lsb0(),
        Value::U32(x) => Value::U32(*x).into_iter_lsb0(),
        Value::U64(x) => Value::U64(*x).into_iter_lsb0(),
        Value::U128(x) => Value::U128(*x).into_iter_lsb0(),
        Value::Array(_) => panic!("scalar expected"),
    }
}

#[test]
fn roundtrip_nested_array() {
    let ty = ValueType::Array(Box::new(ValueType::Array(Box::new(ValueType::U8), 2)), 2);
    assert_eq!(ty.len(), 32);
    let repr = ty.to_bin_repr(&nodes(32)).unwrap();
    let v = Value::Array(vec![
        Value::Array(vec![Value::U8(1), Value::U8(2)]),
        Value::Array(vec![Value::U8(3), Value::U8(4)]),
    ]);
    assert_eq!(v.value_type(), ty);
    let bits = v.clone().into_iter_lsb0();
    assert_eq!(repr.from_bin_repr(&bits).unwrap(), v);
}

#[test]
fn msb0_reverses_each_leaf() {
    // 177 == 0b10110001, MSB first: [1,0,1,1,0,0,0,1]
    let bits = Value::U8(177).into_iter_msb0();
    assert_eq!(bits, vec![true, false, true, true, false, false, false, true]);
    // an array flattens in structural order, each leaf MSB first
    let arr = Value::Array(vec![Value::U8(1), Value::U8(128)]);
    let bits = arr.into_iter_msb0();
    let mut expect = vec![false, false, false, false, false, false, false, true];
    expect.extend(vec![true, false, false, false, false, false, false, false]);
    assert_eq!(bits, expect);
}

#[test]
fn be_bytes_positions_16_bit() {
    // byte 0 of the big-endian view must hold bit positions [8, 16)
    let w: U16 = <u16 as ToBinaryRepr>::new_bin_repr(&nodes(16)).unwrap();
    let bytes = w.to_be_bytes();
    assert_eq!(bytes.len(), 2);
    for j in 0..8 {
        assert_eq!(bytes[0].nodes()[j].id, 8 + j);
        assert_eq!(bytes[1].nodes()[j].id, j);
    }
    let back = U16::from_be_bytes(&bytes);
    assert_eq!(back.nodes(), w.nodes());
}

#[test]
fn le_bytes_positions_16_bit() {
    // byte 0 of the little-endian view must hold bit positions [0, 8)
    let w: U16 = <u16 as ToBinaryRepr>::new_bin_repr(&nodes(16)).unwrap();
    let bytes = w.to_le_bytes();
    assert_eq!(bytes.len(), 2);
    for j in 0..8 {
        assert_eq!(bytes[0].nodes()[j].id, j);
        assert_eq!(bytes[1].nodes()[j].id, 8 + j);
    }
    let back = U16::from_le_bytes(&bytes);
    assert_eq!(back.nodes(), w.nodes());
}

#[test]
fn test_convert_bytes() {
    // Wire a 128-bit scalar on nodes 0..128 and evaluate it at 69: reading
    // the wires through the byte views must reproduce u128::to_be_bytes
    // and u128::to_le_bytes of 69.
    let w: U128 = <u128 as ToBinaryRepr>::new_bin_repr(&nodes(128)).unwrap();
    let bits = Value::U128(69).into_iter_lsb0();

    let be = w.to_be_bytes();
    let expect = 69u128.to_be_bytes();
    assert_eq!(be.len(), 16);
    for i in 0..16 {
        let mut val = 0u8;
        for (j, node) in be[i].nodes().iter().enumerate() {
            if bits[node.id] {
                val |= 1 << j;
            }
        }
        assert_eq!(val, expect[i]);
    }

    let le = w.to_le_bytes();
    let expect = 69u128.to_le_bytes();
    assert_eq!(le.len(), 16);
    for i in 0..16 {
        let mut val = 0u8;
        for (j, node) in le[i].nodes().iter().enumerate() {
            if bits[node.id] {
                val |= 1 << j;
            }
        }
        assert_eq!(val, expect[i]);
    }
}

#[test]
fn random_matches_requested_type() {
    let mut rng = StdRng::seed_from_u64(7);
    let ty = ValueType::Array(Box::new(ValueType::U16), 3);
    let v = Value::random(&mut rng, &ty);
    assert_eq!(v.value_type(), ty);
    match v {
        Value::Array(items) => {
            assert_eq!(items.len(), 3);
            for item in items {
                assert!(matches!(item, Value::U16(_)));
            }
        },
        _ => panic!("array expected"),
    }
}

#[test]
fn random_scalars_draw_each_width() {
    let mut rng = StdRng::seed_from_u64(11);
    assert!(matches!(Value::random(&mut rng, &ValueType::Bit), Value::Bit(_)));
    assert!(matches!(Value::random(&mut rng, &ValueType::U8), Value::U8(_)));
    assert!(matches!(Value::random(&mut rng, &ValueType::U128), Value::U128(_)));
}

#[test]
fn binary_length_constants() {
    assert_eq!(<bool as BinaryLength>::LEN, 1);
    assert_eq!(<u8 as BinaryLength>::LEN, 8);
    assert_eq!(<u128 as BinaryLength>::LEN, 128);
    assert_eq!(<[bool; 5] as BinaryLength>::LEN, 5);
    assert_eq!(<[u32; 4] as BinaryLength>::LEN, 128);
}
