use swirl_runtime::port::PortData;
use swirl_runtime::step::{
    argument_text, decimal_text, publish_output, receive_dir, step_argv, step_dir, StepArgument, StepOutput,
};
use swirl_runtime::swirl::SwirlError;

#[test]
fn decimal_text_of_integers() {
    assert_eq!(decimal_text(0), "0");
    assert_eq!(decimal_text(7), "7");
    assert_eq!(decimal_text(-42), "-42");
    assert_eq!(decimal_text(1000), "1000");
    assert_eq!(decimal_text(i32::MIN), i32::MIN.to_string());
    assert_eq!(decimal_text(i32::MAX), i32::MAX.to_string());
}

#[test]
fn arguments_from_port_values() {
    assert_eq!(argument_text(&PortData::File("/w/receive_A/in.txt".to_string())).unwrap(), "in.txt");
    assert_eq!(argument_text(&PortData::String("x y".to_string())).unwrap(), "x y");
    assert_eq!(argument_text(&PortData::Int(-3)).unwrap(), "-3");
    assert_eq!(argument_text(&PortData::Bool(true)).unwrap(), "true");
    assert_eq!(argument_text(&PortData::Bool(false)).unwrap(), "false");
    assert_eq!(argument_text(&PortData::Empty), Err(SwirlError::EmptyValue));
}

#[test]
fn each_argument_is_one_argv_entry() {
    let values = vec![
        PortData::String("-c".to_string()),
        PortData::String("echo hi > message.txt".to_string()),
        PortData::File("/w/receive_A/in.txt".to_string()),
        PortData::Int(7),
    ];
    assert_eq!(
        step_argv(&values).unwrap(),
        vec!["-c".to_string(), "echo hi > message.txt".to_string(), "in.txt".to_string(), "7".to_string()]
    );
    assert_eq!(step_argv(&vec![]).unwrap(), Vec::<String>::new());
}

#[test]
fn argv_stops_at_the_first_empty_value() {
    let values = vec![PortData::String("a".to_string()), PortData::Empty, PortData::File("/".to_string())];
    assert_eq!(step_argv(&values), Err(SwirlError::EmptyValue));
    let values = vec![PortData::File("/".to_string()), PortData::Empty];
    assert_eq!(step_argv(&values), Err(SwirlError::NoFileName));
}

#[test]
fn step_directories() {
    assert_eq!(step_dir("/w", "s1"), "/w/step_s1");
    assert_eq!(receive_dir("/w", "B"), "/w/receive_B");
}

#[test]
fn stdout_output_is_text() {
    let v = publish_output(&StepOutput::Stdout, &vec![], b"hello".to_vec()).unwrap();
    assert_eq!(v, PortData::String("hello".to_string()));
    assert_eq!(publish_output(&StepOutput::Stdout, &vec![], vec![0xff]), Err(SwirlError::OutputNotText));
}

#[test]
fn file_output_needs_exactly_one_match() {
    let kind = StepOutput::File("out.txt".to_string());
    assert_eq!(publish_output(&kind, &vec![], vec![]), Err(SwirlError::NoOutputFile));
    assert_eq!(
        publish_output(&kind, &vec!["/w/a".to_string(), "/w/b".to_string()], vec![]),
        Err(SwirlError::MultipleOutputFiles)
    );
    assert_eq!(
        publish_output(&kind, &vec!["/w/step_s2/out.txt".to_string()], vec![]).unwrap(),
        PortData::File("/w/step_s2/out.txt".to_string())
    );
}

#[test]
fn discarded_output_publishes_empty() {
    assert_eq!(publish_output(&StepOutput::Discard, &vec![], b"ignored".to_vec()).unwrap(), PortData::Empty);
}

#[test]
fn same_inputs_same_output() {
    let a = publish_output(&StepOutput::Stdout, &vec![], b"hello".to_vec());
    let b = publish_output(&StepOutput::Stdout, &vec![], b"hello".to_vec());
    assert_eq!(a, b);
    assert_eq!(argument_text(&PortData::Int(5)), argument_text(&PortData::Int(5)));
}

#[test]
fn step_argument_from_string() {
    assert_eq!(StepArgument::from("abc".to_string()), StepArgument::String("abc".to_string()));
}
