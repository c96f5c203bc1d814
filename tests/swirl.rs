use swirl_runtime::port::{decode_descriptor, encode_descriptor, PortData};
use swirl_runtime::swirl::{
    join_path, plan_receive, plan_send, transfer_permits, wait_step, Incoming, Outgoing, Ports, SwirlError, WaitStep,
    CONNECTION_PERMITS,
};

#[test]
fn descriptors_round_trip() {
    let values = vec![
        PortData::File("message.txt".to_string()),
        PortData::String("héllo wörld".to_string()),
        PortData::Int(-5),
        PortData::Int(i32::MIN),
        PortData::Int(i32::MAX),
        PortData::Bool(true),
        PortData::Bool(false),
        PortData::Empty,
    ];
    for v in values {
        let b = encode_descriptor(&v);
        assert_eq!(decode_descriptor(&b), Some(v));
    }
}

#[test]
fn descriptor_bytes() {
    assert_eq!(encode_descriptor(&PortData::Int(-5)), vec![2, 0xfb, 0xff, 0xff, 0x7f]);
    assert_eq!(encode_descriptor(&PortData::Bool(true)), vec![3, 1]);
    assert_eq!(encode_descriptor(&PortData::String("hi".to_string())), vec![1, b'h', b'i']);
    assert_eq!(encode_descriptor(&PortData::Empty), vec![4]);
}

#[test]
fn bad_descriptors_are_refused() {
    assert_eq!(decode_descriptor(&[]), None);
    assert_eq!(decode_descriptor(&[3, 2]), None);
    assert_eq!(decode_descriptor(&[2, 0, 0]), None);
    assert_eq!(decode_descriptor(&[1, 0xff]), None);
    assert_eq!(decode_descriptor(&[9]), None);
}

#[test]
fn send_of_a_file_carries_its_name_only() {
    let v = PortData::File("/work/step_s1/message.txt".to_string());
    match plan_send(&v).unwrap() {
        Outgoing::File { path, descriptor } => {
            assert_eq!(path, "/work/step_s1/message.txt");
            assert_eq!(descriptor, encode_descriptor(&PortData::File("message.txt".to_string())));
        }
        other => panic!("unexpected {:?}", other),
    }
}

#[test]
fn send_of_a_scalar_rides_in_the_header() {
    let v = PortData::Int(42);
    assert_eq!(plan_send(&v).unwrap(), Outgoing::Inline { descriptor: encode_descriptor(&v) });
}

#[test]
fn send_of_empty_is_refused() {
    assert_eq!(plan_send(&PortData::Empty), Err(SwirlError::EmptyValue));
    assert_eq!(plan_send(&PortData::File("/".to_string())), Err(SwirlError::NoFileName));
    assert_eq!(plan_send(&PortData::File("/w/..".to_string())), Err(SwirlError::NoFileName));
}

#[test]
fn receive_of_a_file_lands_in_the_receive_directory() {
    let d = encode_descriptor(&PortData::File("message.txt".to_string()));
    assert_eq!(
        plan_receive(&d, "/work/receive_B").unwrap(),
        Incoming::File { path: "/work/receive_B/message.txt".to_string() }
    );
}

#[test]
fn receive_of_a_value_stores_it() {
    let d = encode_descriptor(&PortData::String("hello".to_string()));
    assert_eq!(plan_receive(&d, "/w").unwrap(), Incoming::Value(PortData::String("hello".to_string())));
}

#[test]
fn receive_errors() {
    assert_eq!(plan_receive(&encode_descriptor(&PortData::Empty), "/w"), Err(SwirlError::EmptyValue));
    assert_eq!(plan_receive(&[42], "/w"), Err(SwirlError::BadDescriptor));
}

#[test]
fn receive_clears_then_fills() {
    let mut ports = Ports::new(vec!["p1".to_string(), "p2".to_string()]);
    let i = ports.index_of("p1").unwrap();
    ports.set(i, PortData::Int(1));
    ports.clear(i);
    assert_eq!(ports.read(i), PortData::Empty);
    let d = encode_descriptor(&PortData::Bool(true));
    if let Incoming::Value(v) = plan_receive(&d, "/w").unwrap() {
        ports.set(i, v);
    }
    assert_eq!(ports.read(i), PortData::Bool(true));
    assert!(!ports.read(i).is_empty());
    assert_eq!(ports.read(1), PortData::Empty);
}

#[test]
fn two_ports_do_not_interfere() {
    let mut ports = Ports::new(vec!["p1".to_string(), "p2".to_string()]);
    ports.set(0, PortData::String("a".to_string()));
    ports.set(1, PortData::String("b".to_string()));
    assert_eq!(ports.read(0), PortData::String("a".to_string()));
    assert_eq!(ports.read(1), PortData::String("b".to_string()));
    assert_eq!(ports.index_of("p3"), None);
}

#[test]
fn waiting_for_data() {
    assert_eq!(wait_step(&PortData::Int(1), false), Ok(WaitStep::Ready));
    assert_eq!(wait_step(&PortData::Int(1), true), Ok(WaitStep::Ready));
    assert_eq!(wait_step(&PortData::Empty, false), Ok(WaitStep::Wait));
    assert_eq!(wait_step(&PortData::Empty, true), Err(SwirlError::PortUnderflow));
}

#[test]
fn paths_join_with_a_slash() {
    assert_eq!(join_path("/a/b", "c.txt"), "/a/b/c.txt");
    assert_eq!(join_path("", "c"), "/c");
}

#[test]
fn permits_for_transfers() {
    assert_eq!(transfer_permits(1), 2);
    assert_eq!(transfer_permits(3), 4);
    assert_eq!(transfer_permits(127), 128);
    assert_eq!(transfer_permits(500), CONNECTION_PERMITS);
}
