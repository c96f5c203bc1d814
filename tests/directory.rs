use swirl_runtime::directory::{parse_address_map, DirectoryError, LocationInfo, Orchestra};

fn info(address: &str, machine: &str) -> LocationInfo {
    LocationInfo { address: address.to_string(), machine: machine.to_string() }
}

fn entries(names: &[(&str, &str)]) -> Vec<(String, LocationInfo)> {
    let mut v = Vec::new();
    for (i, (name, machine)) in names.iter().enumerate() {
        v.push((name.to_string(), info(&format!("127.0.0.1:{}", 9000 + i), machine)));
    }
    v
}

#[test]
fn ids_follow_byte_order_of_names() {
    let o = Orchestra::new("location1".to_string(), entries(&[("location2", "m"), ("location0", "m"), ("location1", "m")]))
        .unwrap();
    assert_eq!(o.location_id("location0"), 0);
    assert_eq!(o.location_id("location1"), 1);
    assert_eq!(o.location_id("location2"), 2);
    assert_eq!(o.self_id(), 1);
    assert_eq!(o.self_name(), "location1");
    assert_eq!(o.location_ids(), vec![0, 1, 2]);
}

#[test]
fn uppercase_sorts_before_lowercase() {
    let o = Orchestra::new("a".to_string(), entries(&[("a", "m"), ("B", "m"), ("_", "m")])).unwrap();
    assert_eq!(o.location_id("B"), 0);
    assert_eq!(o.location_id("_"), 1);
    assert_eq!(o.location_id("a"), 2);
}

#[test]
fn id_and_name_are_inverse() {
    let o = Orchestra::new("c".to_string(), entries(&[("e", "m2"), ("c", "m1"), ("a", "m1"), ("d", "m2"), ("b", "m1")]))
        .unwrap();
    for i in o.location_ids() {
        assert_eq!(o.location_id(&o.location_name(i)), i);
    }
    for name in ["a", "b", "c", "d", "e"] {
        assert_eq!(o.location_name(o.location_id(name)), name);
    }
}

#[test]
fn location_info_and_machines() {
    let o = Orchestra::new("a".to_string(), entries(&[("b", "m2"), ("a", "m1"), ("c", "m2")])).unwrap();
    let b = o.location_info(1);
    assert_eq!(b.machine, "m2");
    assert_eq!(b.address, "127.0.0.1:9000");
    assert!(o.same_machine(1, 2));
    assert!(!o.same_machine(0, 1));
    let names: Vec<(String, u16)> = o.locations();
    assert_eq!(names, vec![("a".to_string(), 0), ("b".to_string(), 1), ("c".to_string(), 2)]);
}

#[test]
fn unknown_names_are_not_found() {
    let o = Orchestra::new("a".to_string(), entries(&[("a", "m")])).unwrap();
    assert_eq!(o.find_location("a"), Some(0));
    assert_eq!(o.find_location("z"), None);
}

#[test]
fn construction_errors() {
    assert!(matches!(
        Orchestra::new("x".to_string(), entries(&[("a", "m"), ("b", "m")])),
        Err(DirectoryError::UnknownLocation)
    ));
    assert!(matches!(
        Orchestra::new("a".to_string(), entries(&[("a", "m"), ("b", "m"), ("a", "n")])),
        Err(DirectoryError::DuplicateLocation)
    ));
    let many: Vec<(String, LocationInfo)> = (0..0x10001).map(|i| (format!("l{}", i), info("h:1", "m"))).collect();
    assert!(matches!(Orchestra::new("l0".to_string(), many), Err(DirectoryError::TooManyLocations)));
}

#[test]
fn address_map_lines() {
    let v = parse_address_map("location0,m1,127.0.0.1:8080\r\nlocation1,m2,127.0.0.1:8081,extra\n").unwrap();
    assert_eq!(v.len(), 2);
    assert_eq!(v[0], ("location0".to_string(), info("127.0.0.1:8080", "m1")));
    assert_eq!(v[1], ("location1".to_string(), info("127.0.0.1:8081", "m2")));
    assert_eq!(parse_address_map("").unwrap().len(), 0);
}

#[test]
fn address_map_rejects_blank_and_short_lines() {
    assert_eq!(parse_address_map("a,m,h:1\n\nb,m,h:2"), Err(DirectoryError::MalformedLine { line: 1 }));
    assert_eq!(parse_address_map("a,m"), Err(DirectoryError::MalformedLine { line: 0 }));
}
