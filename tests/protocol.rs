use tsdb::protocol::{
    as_opcode, decode, encode, encode_payload, Command, DecodeError, OpCode, Query, TsHeader,
    TsPacket, EncodeError,
};

#[test]
fn test_header_opcode() {
    let h = TsHeader {
        byte: 0x00,
        size: 0,
    };
    assert_eq!(h.opcode(), Some(OpCode::OpTsCreate));
}

#[test]
fn test_ts_packet_to_binary() {
    let tsp = TsPacket {
        header: TsHeader {
            byte: OpCode::OpTsCreate as u8,
            size: 19,
        },
        packet: Command::Create {
            name: "ts-test".to_string(),
            retention: 3000,
        },
    };
    let binary = tsp.to_binary().unwrap();
    let decoded = TsPacket::from_binary(&binary);
    assert_eq!(tsp, decoded.unwrap());
}

#[test]
fn test_ts_packet_from_binary() {
    test_ts_packet_to_binary();
}

#[test]
fn opcodes_of_every_nibble() {
    assert_eq!(as_opcode(0), Some(OpCode::OpTsCreate));
    assert_eq!(as_opcode(1), Some(OpCode::OpTsDelete));
    assert_eq!(as_opcode(2), Some(OpCode::OpTsAddPoint));
    assert_eq!(as_opcode(3), Some(OpCode::OpTsMaddPoint));
    assert_eq!(as_opcode(4), Some(OpCode::OpTsQuery));
    for n in 5u8..=255 {
        assert_eq!(as_opcode(n), None);
    }
    let h = TsHeader { byte: 0x47, size: 0 };
    assert_eq!(h.opcode(), Some(OpCode::OpTsQuery));
    let h = TsHeader { byte: 0x50, size: 0 };
    assert_eq!(h.opcode(), None);
}

#[test]
fn packet_layout_matches_bincode() {
    let tsp = TsPacket {
        header: TsHeader { byte: 0, size: 19 },
        packet: Command::Create { name: "ts-test".to_string(), retention: 3000 },
    };
    let expected = bincode::serialize(&((0u8, 19u64), ("ts-test".to_string(), 3000i32))).unwrap();
    assert_eq!(tsp.to_binary().unwrap(), expected);
}

#[test]
fn payload_layout_matches_bincode() {
    let c = Command::MultiAddPoint { name: "é".to_string(), values: vec![1.5f64.to_bits(), 7] };
    let expected = bincode::serialize(&("é".to_string(), vec![1.5f64.to_bits(), 7u64])).unwrap();
    assert_eq!(encode_payload(&c), expected);
    let c = Command::AddPoint { name: "x".to_string(), value: 2.25f64.to_bits() };
    let expected = bincode::serialize(&("x".to_string(), 2.25f64)).unwrap();
    assert_eq!(encode_payload(&c), expected);
}

#[test]
fn packet_with_wrong_opcode_is_refused() {
    let tsp = TsPacket {
        header: TsHeader { byte: 0x10, size: 0 },
        packet: Command::Create { name: "a".to_string(), retention: 1 },
    };
    assert_eq!(tsp.to_binary(), Err(EncodeError::OpcodeMismatch));
}

#[test]
fn packet_with_wrong_size_is_refused() {
    let tsp = TsPacket {
        header: TsHeader { byte: 0x10, size: 0 },
        packet: Command::Delete { name: String::new() },
    };
    assert_eq!(tsp.to_binary(), Err(EncodeError::SizeMismatch));
}

#[test]
fn packet_cut_short_is_incomplete() {
    let tsp = TsPacket {
        header: TsHeader { byte: 0x10, size: 9 },
        packet: Command::Delete { name: "a".to_string() },
    };
    let full = tsp.to_binary().unwrap();
    for k in 0..full.len() {
        assert_eq!(TsPacket::from_binary(&full[..k].to_vec()), Err(DecodeError::Incomplete));
    }
}

#[test]
fn packet_leaves_trailing_bytes() {
    let tsp = TsPacket {
        header: TsHeader { byte: 0x10, size: 9 },
        packet: Command::Delete { name: "a".to_string() },
    };
    let mut bytes = tsp.to_binary().unwrap();
    bytes.push(0xaa);
    assert_eq!(TsPacket::from_binary(&bytes), Ok(tsp));
}

#[test]
fn packet_reads_only_its_declared_payload() {
    let mut bytes = vec![0x10u8, 0, 0, 0, 0, 0, 0, 0, 0];
    bytes.extend_from_slice(&[0u8; 8]);
    assert_eq!(TsPacket::from_binary(&bytes), Err(DecodeError::Malformed));
}

#[test]
fn packet_from_short_bytes() {
    assert_eq!(TsPacket::from_binary(&vec![0u8; 8]), Err(DecodeError::Incomplete));
    let mut b = vec![0x90u8];
    b.extend_from_slice(&[0u8; 8]);
    assert_eq!(TsPacket::from_binary(&b), Err(DecodeError::UnknownCommand));
}

fn all_commands() -> Vec<Command> {
    vec![
        Command::Create { name: "cpu".to_string(), retention: 3000 },
        Command::Create { name: String::new(), retention: -1 },
        Command::Create { name: "min".to_string(), retention: i32::MIN },
        Command::Delete { name: "cpu".to_string() },
        Command::Delete { name: String::new() },
        Command::AddPoint { name: "temp°".to_string(), value: 12.98f64.to_bits() },
        Command::MultiAddPoint { name: "m".to_string(), values: vec![] },
        Command::MultiAddPoint { name: "m".to_string(), values: vec![1, u64::MAX, 3] },
        Command::Query { name: "q".to_string(), query: Query::Average },
        Command::Query { name: "q".to_string(), query: Query::Min },
        Command::Query { name: "q".to_string(), query: Query::Max },
        Command::Query { name: "q".to_string(), query: Query::Windowed { interval: 500 } },
        Command::Query { name: "q".to_string(), query: Query::Range { lo: 1, hi: u128::MAX } },
    ]
}

#[test]
fn decode_reads_back_every_command() {
    for c in all_commands() {
        let f = encode(&c);
        assert_eq!(decode(&f), Ok((c, f.len())));
    }
}

#[test]
fn create_frame_bytes() {
    let f = encode(&Command::Create { name: "ab".to_string(), retention: 3000 });
    let mut expected = vec![0x00u8, 14, 0, 0, 0, 0, 0, 0, 0];
    expected.extend_from_slice(&[2, 0, 0, 0, 0, 0, 0, 0, b'a', b'b']);
    expected.extend_from_slice(&3000i32.to_le_bytes());
    assert_eq!(f, expected);
}

#[test]
fn short_input_is_incomplete() {
    for c in all_commands() {
        let f = encode(&c);
        for k in 0..f.len() {
            assert_eq!(decode(&f[..k]), Err(DecodeError::Incomplete));
        }
    }
}

#[test]
fn remainder_completes_a_frame() {
    let c = Command::AddPoint { name: "x".to_string(), value: 9 };
    let f = encode(&c);
    let mut buf = f[..5].to_vec();
    assert_eq!(decode(&buf), Err(DecodeError::Incomplete));
    buf.extend_from_slice(&f[5..]);
    assert_eq!(decode(&buf), Ok((c, f.len())));
}

#[test]
fn two_frames_decode_in_order() {
    let c1 = Command::Create { name: "a".to_string(), retention: 0 };
    let c2 = Command::Delete { name: "a".to_string() };
    let mut buf = encode(&c1);
    let n1 = buf.len();
    buf.extend_from_slice(&encode(&c2));
    assert_eq!(decode(&buf), Ok((c1, n1)));
    assert_eq!(decode(&buf[n1..]), Ok((c2, buf.len() - n1)));
}

#[test]
fn unknown_opcode_is_reported() {
    let mut f = encode(&Command::Delete { name: "a".to_string() });
    f[0] = 0x70;
    assert_eq!(decode(&f), Err(DecodeError::UnknownCommand));
}

#[test]
fn malformed_payloads_are_reported() {
    // A delete payload with a byte to spare.
    let mut f = vec![0x10u8, 10, 0, 0, 0, 0, 0, 0, 0];
    f.extend_from_slice(&[1, 0, 0, 0, 0, 0, 0, 0, b'a', b'!']);
    assert_eq!(decode(&f), Err(DecodeError::Malformed));
    // A name that is not UTF-8.
    let mut f = vec![0x10u8, 9, 0, 0, 0, 0, 0, 0, 0];
    f.extend_from_slice(&[1, 0, 0, 0, 0, 0, 0, 0, 0xff]);
    assert_eq!(decode(&f), Err(DecodeError::Malformed));
    // A query of an unknown kind.
    let mut f = vec![0x40u8, 9, 0, 0, 0, 0, 0, 0, 0];
    f.extend_from_slice(&[0, 0, 0, 0, 0, 0, 0, 0, 9]);
    assert_eq!(decode(&f), Err(DecodeError::Malformed));
    // A count of values that the payload does not hold.
    let mut f = vec![0x30u8, 17, 0, 0, 0, 0, 0, 0, 0];
    f.extend_from_slice(&[0, 0, 0, 0, 0, 0, 0, 0, 2, 0, 0, 0, 0, 0, 0, 0, 0]);
    assert_eq!(decode(&f), Err(DecodeError::Malformed));
}

#[test]
fn huge_declared_size_waits_for_more() {
    let f = vec![0x00u8, 0xff, 0xff, 0xff, 0xff, 0xff, 0xff, 0xff, 0xff, 1, 2, 3];
    assert_eq!(decode(&f), Err(DecodeError::Incomplete));
}
