use swirl_runtime::header::{
    decode_header, encode_header, frame_header, HeaderError, MessageHeader, MESSAGE_HEADER_SIZE,
};
use swirl_runtime::relay::{RelayInstruction, RelayOptions};

fn sample() -> MessageHeader {
    MessageHeader {
        sender: 3,
        origin: 0,
        message_id: "p1".to_string(),
        header_data: vec![0, 104, 105],
        size: 10 * 1024 * 1024,
        relay_tag: RelayInstruction::Relay(vec![
            RelayOptions {
                sender: 3,
                destination: 4,
                relay_instruction: RelayInstruction::Relay(vec![RelayOptions {
                    sender: 4,
                    destination: 5,
                    relay_instruction: RelayInstruction::End,
                }]),
            },
            RelayOptions { sender: 3, destination: 1, relay_instruction: RelayInstruction::End },
        ]),
    }
}

#[test]
fn header_round_trip() {
    let h = sample();
    let frame = encode_header(&h).unwrap();
    assert_eq!(frame.len(), MESSAGE_HEADER_SIZE);
    assert_eq!(decode_header(&frame).unwrap(), h);
}

#[test]
fn header_round_trip_with_end() {
    let h = MessageHeader {
        sender: 0,
        origin: 0,
        message_id: String::new(),
        header_data: vec![],
        size: 0,
        relay_tag: RelayInstruction::End,
    };
    let frame = encode_header(&h).unwrap();
    assert_eq!(decode_header(&frame).unwrap(), h);
}

#[test]
fn frame_at_exact_size_succeeds() {
    let f = frame_header(vec![7u8; MESSAGE_HEADER_SIZE]).unwrap();
    assert_eq!(f, vec![7u8; MESSAGE_HEADER_SIZE]);
    let f = frame_header(vec![1, 2, 3]).unwrap();
    assert_eq!(f.len(), MESSAGE_HEADER_SIZE);
    assert_eq!(&f[..3], &[1, 2, 3]);
    assert!(f[3..].iter().all(|b| *b == 0));
}

#[test]
fn frame_one_over_size_fails() {
    assert_eq!(frame_header(vec![0u8; MESSAGE_HEADER_SIZE + 1]), Err(HeaderError::Oversized { size: MESSAGE_HEADER_SIZE + 1 }));
}

#[test]
fn oversized_header_is_refused() {
    let mut h = sample();
    h.header_data = vec![1u8; MESSAGE_HEADER_SIZE];
    assert!(matches!(encode_header(&h), Err(HeaderError::Oversized { .. })));
}

#[test]
fn malformed_frames_are_refused() {
    assert_eq!(decode_header(&vec![0u8; MESSAGE_HEADER_SIZE]), Err(HeaderError::Malformed));
    assert_eq!(decode_header(&vec![0xffu8; MESSAGE_HEADER_SIZE]), Err(HeaderError::Malformed));
    assert_eq!(decode_header(&[]), Err(HeaderError::Malformed));
}

fn sized(data_len: usize) -> MessageHeader {
    MessageHeader {
        sender: 0,
        origin: 0,
        message_id: "p1".to_string(),
        header_data: vec![5u8; data_len],
        size: 0,
        relay_tag: RelayInstruction::End,
    }
}

#[test]
fn header_of_exactly_the_frame_size_is_sent() {
    // 36 bytes of fixed fields, 2 of id, 4 for the one plan word, then the data.
    let h = sized(MESSAGE_HEADER_SIZE - 42);
    let frame = encode_header(&h).unwrap();
    assert_eq!(frame.len(), MESSAGE_HEADER_SIZE);
    assert_eq!(bincode::serialize(&(0u16, 0u16, "p1".to_string(), vec![5u8; MESSAGE_HEADER_SIZE - 42], 0u64, vec![0u32])).unwrap(), frame);
    assert_eq!(decode_header(&frame).unwrap(), h);
}

#[test]
fn header_one_byte_over_the_frame_is_refused() {
    let h = sized(MESSAGE_HEADER_SIZE - 41);
    assert_eq!(encode_header(&h), Err(HeaderError::Oversized { size: MESSAGE_HEADER_SIZE + 1 }));
}
