use swirl_runtime::config::{Addresses, LocationID, PortID};
use swirl_runtime::directory::DirectoryError;
use swirl_runtime::packet::add_packet;
use swirl_runtime::trace::{begin_record, debug_prelude, end_record, registered_record, unregistered_record};
use swirl_runtime::units::data_size;

#[test]
fn small_sizes_in_bytes() {
    assert_eq!(data_size(0), "0 B");
    assert_eq!(data_size(1023), "1023 B");
}

#[test]
fn sizes_with_two_places() {
    assert_eq!(data_size(1024), "1.00 KB");
    assert_eq!(data_size(1536), "1.50 KB");
    assert_eq!(data_size(10 * 1024 * 1024), "10.00 MB");
    assert_eq!(data_size(3 * 1024 * 1024 * 1024), "3.00 GB");
    assert_eq!(data_size(usize::MAX), "16777216.00 TB");
}

#[test]
fn sizes_match_float_formatting() {
    let units = [(1u64 << 10, "KB"), (1u64 << 20, "MB"), (1u64 << 30, "GB"), (1u64 << 40, "TB")];
    let mut sizes: Vec<u64> = vec![1024, 1152, 1040, 1029, 2047, 5000, 123456, 1048575, 1048576, 1_500_000];
    for k in 0..2000u64 {
        sizes.push(1024 + k * 37);
        sizes.push((1 << 20) + k * 5243);
        sizes.push((1 << 30) + k * 5_368_709);
        sizes.push((1 << 40) + k * 5_497_558_139);
    }
    for s in sizes {
        let (d, u) = units.iter().rev().find(|(d, _)| s >= *d).copied().unwrap();
        let want = format!("{:.2} {}", s as f64 / d as f64, u);
        assert_eq!(data_size(s as usize), want, "size {}", s);
    }
}

#[test]
fn fixed_addresses() {
    let a = Addresses::from_address_map_text("l1,127.0.0.1:8080\nld,127.0.0.1:8081\nl1,127.0.0.1:9090\n").unwrap();
    assert_eq!(a.get_address(LocationID::L1), "127.0.0.1:9090");
    assert_eq!(a.get_address(LocationID::LD), "127.0.0.1:8081");
    assert!(matches!(Addresses::from_address_map_text("lx,h:1"), Err(DirectoryError::MalformedLine { line: 0 })));
    assert!(matches!(Addresses::from_address_map_text("l1,h:1\nld"), Err(DirectoryError::MalformedLine { line: 1 })));
    assert_eq!(PortID::all(), vec![PortID::P1, PortID::P2]);
}

#[test]
fn packets() {
    let mut p = vec![9u8];
    add_packet(&mut p, 7, "hey");
    assert_eq!(p, vec![9, 7, 3, 0, b'h', b'e', b'y']);
    let long = "x".repeat(300);
    let mut q = Vec::new();
    add_packet(&mut q, 1, &long);
    assert_eq!(&q[..3], &[1, 44, 1]);
    assert_eq!(q.len(), 303);
}

#[test]
fn log_prelude() {
    assert_eq!(debug_prelude("12:00:00", "A", None), "[12:00:00] [A] >>> ");
    assert_eq!(debug_prelude("12:00:00", "A", Some(&"s1".to_string())), "[12:00:00] [A] [s1] >>> ");
}

#[test]
fn trace_records() {
    assert_eq!(registered_record("t", "A"), "[t] REGISTERED <A>\n");
    assert_eq!(unregistered_record("t", "A"), "[t] UNREGISTERED <A>\n");
    assert_eq!(begin_record("t", "A", "id", "send p1"), "[t] BEGIN <A> <id> \"send p1\"\n");
    assert_eq!(end_record("t", "A", "id"), "[t] END <A> <id>\n");
}
