use swirl_runtime::directory::{LocationInfo, Orchestra};
use swirl_runtime::relay::{
    destination_ntree_advanced_support, destinations_naive, destinations_ntree, destinations_ntree_advanced,
    RelayInstruction, RelayOptions,
};

fn directory(locations: &[(&str, &str)]) -> Orchestra {
    let v = locations
        .iter()
        .enumerate()
        .map(|(i, (n, m))| {
            (n.to_string(), LocationInfo { address: format!("127.0.0.1:{}", 7000 + i), machine: m.to_string() })
        })
        .collect();
    Orchestra::new(locations[0].0.to_string(), v).unwrap()
}

fn hop(sender: u16, destination: u16, relay_instruction: RelayInstruction) -> RelayOptions {
    RelayOptions { sender, destination, relay_instruction }
}

fn reached(t: &RelayInstruction, out: &mut Vec<u16>) {
    if let RelayInstruction::Relay(v) = t {
        for o in v {
            out.push(o.destination);
            reached(&o.relay_instruction, out);
        }
    }
}

fn senders_match(t: &RelayInstruction, node: u16) -> bool {
    match t {
        RelayInstruction::End => true,
        RelayInstruction::Relay(v) => v.iter().all(|o| o.sender == node && senders_match(&o.relay_instruction, o.destination)),
    }
}

#[test]
fn two_machines_cross_once() {
    let o = directory(&[("A", "m1"), ("B", "m1"), ("C", "m2"), ("D", "m2"), ("E", "m2")]);
    let plan = destinations_ntree_advanced(0, vec![1, 2, 3, 4], &o);
    let expected = RelayInstruction::Relay(vec![
        hop(0, 2, RelayInstruction::Relay(vec![hop(2, 3, RelayInstruction::End), hop(2, 4, RelayInstruction::End)])),
        hop(0, 1, RelayInstruction::End),
    ]);
    assert_eq!(plan, expected);
}

#[test]
fn single_destination_is_unicast() {
    let o = directory(&[("A", "m1"), ("B", "m2"), ("C", "m1")]);
    assert_eq!(
        destinations_ntree_advanced(0, vec![1], &o),
        RelayInstruction::Relay(vec![hop(0, 1, RelayInstruction::End)])
    );
    assert_eq!(
        destinations_ntree_advanced(0, vec![2], &o),
        RelayInstruction::Relay(vec![hop(0, 2, RelayInstruction::End)])
    );
}

#[test]
fn one_remote_machine_is_a_star_from_its_master() {
    let o = directory(&[("A", "m1"), ("B", "m2"), ("C", "m2"), ("D", "m2")]);
    let plan = destinations_ntree_advanced(0, vec![3, 1, 2], &o);
    let expected = RelayInstruction::Relay(vec![hop(
        0,
        1,
        RelayInstruction::Relay(vec![hop(1, 3, RelayInstruction::End), hop(1, 2, RelayInstruction::End)]),
    )]);
    assert_eq!(plan, expected);
}

#[test]
fn local_machine_is_a_star_from_the_sender() {
    let o = directory(&[("A", "m1"), ("B", "m1"), ("C", "m1")]);
    let plan = destinations_ntree_advanced(0, vec![2, 1], &o);
    assert_eq!(
        plan,
        RelayInstruction::Relay(vec![hop(0, 2, RelayInstruction::End), hop(0, 1, RelayInstruction::End)])
    );
}

#[test]
fn no_destinations_is_end() {
    let o = directory(&[("A", "m1"), ("B", "m1")]);
    assert_eq!(destinations_ntree_advanced(0, vec![], &o), RelayInstruction::End);
}

#[test]
fn masters_form_a_binary_tree() {
    let o = directory(&[("A", "m0"), ("B", "m1"), ("C", "m2"), ("D", "m3"), ("E", "m4"), ("F", "m5")]);
    let plan = destinations_ntree_advanced(0, vec![1, 2, 3, 4, 5], &o);
    let expected = RelayInstruction::Relay(vec![
        hop(0, 1, RelayInstruction::Relay(vec![hop(1, 3, RelayInstruction::End), hop(1, 5, RelayInstruction::End)])),
        hop(0, 2, RelayInstruction::Relay(vec![hop(2, 4, RelayInstruction::End)])),
    ]);
    assert_eq!(plan, expected);
}

#[test]
fn every_destination_once_with_repeats_in_the_request() {
    let machines = ["m1", "m2", "m3"];
    let names: Vec<String> = (0..12).map(|i| format!("n{:02}", i)).collect();
    let locs: Vec<(&str, &str)> = names.iter().enumerate().map(|(i, n)| (n.as_str(), machines[(i * 7) % 3])).collect();
    let o = directory(&locs);
    let request: Vec<u16> = vec![5, 3, 11, 3, 7, 1, 9, 2, 10, 4, 6, 8, 5, 11];
    let plan = destinations_ntree_advanced(0, request.clone(), &o);
    let mut got = Vec::new();
    reached(&plan, &mut got);
    got.sort();
    let mut want = request.clone();
    want.sort();
    want.dedup();
    assert_eq!(got, want);
    assert!(senders_match(&plan, 0));
}

#[test]
fn ntree_plan_reaches_each_once() {
    let d: Vec<u16> = (1..=10).collect();
    for n in 1..5usize {
        let plan = destinations_ntree(0, &d, n);
        let mut got = Vec::new();
        reached(&plan, &mut got);
        got.sort();
        assert_eq!(got, d);
        assert!(senders_match(&plan, 0));
    }
}

#[test]
fn ntree_with_three_destinations() {
    let plan = destinations_ntree(9, &vec![1, 2, 3], 2);
    let expected = RelayInstruction::Relay(vec![
        hop(9, 1, RelayInstruction::Relay(vec![hop(1, 3, RelayInstruction::End)])),
        hop(9, 2, RelayInstruction::End),
    ]);
    assert_eq!(plan, expected);
}

#[test]
fn naive_plan_sends_directly() {
    assert_eq!(
        destinations_naive(4, vec![2, 7]),
        RelayInstruction::Relay(vec![hop(4, 2, RelayInstruction::End), hop(4, 7, RelayInstruction::End)])
    );
}

#[test]
fn support_adds_slave_leaves_after_branches() {
    let table = vec![(0u16, vec![5u16, 6]), (1u16, vec![7u16])];
    let plan = destination_ntree_advanced_support(0, &vec![1], &table, 2);
    let expected = RelayInstruction::Relay(vec![
        hop(0, 1, RelayInstruction::Relay(vec![hop(1, 7, RelayInstruction::End)])),
        hop(0, 5, RelayInstruction::End),
        hop(0, 6, RelayInstruction::End),
    ]);
    assert_eq!(plan, expected);
}

#[test]
fn plan_as_text() {
    let o = directory(&[("A", "m1"), ("B", "m2"), ("C", "m3")]);
    let plan = RelayInstruction::Relay(vec![
        hop(0, 1, RelayInstruction::Relay(vec![hop(1, 2, RelayInstruction::End)])),
        hop(0, 2, RelayInstruction::End),
    ]);
    assert_eq!(plan.display(&o), "Relay\n| → to B\n  Relay\n  | → to C\n    End\n| → to C\n  End");
    assert_eq!(RelayInstruction::End.display_with_indent(&o, 2), "    End");
}

#[test]
fn master_is_smallest_and_leaves_keep_the_given_order() {
    let o = directory(&[("A", "m1"), ("B", "m2"), ("C", "m2"), ("D", "m2"), ("E", "m1")]);
    let plan = destinations_ntree_advanced(0, vec![1, 3, 2, 4, 3], &o);
    let expected = RelayInstruction::Relay(vec![
        hop(0, 1, RelayInstruction::Relay(vec![hop(1, 3, RelayInstruction::End), hop(1, 2, RelayInstruction::End)])),
        hop(0, 4, RelayInstruction::End),
    ]);
    assert_eq!(plan, expected);
}
