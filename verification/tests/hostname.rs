use getmacrede::hostname::{
    guess_name, names_nothing, parse_netbios_output, Answer, Resolution, Stage, Step,
};
use getmacrede::ipv4::Ipv4;
use getmacrede::table::StringMap;

const IP: Ipv4 = Ipv4 { a: 192, b: 168, c: 1, d: 100 };

fn asked_name(step: &Step) -> String {
    match step {
        Step::AskAddresses { name } => name.clone(),
        other => panic!("{:?}", other),
    }
}

fn done_name(step: &Step) -> Option<String> {
    match step {
        Step::Done { hostname } => hostname.clone(),
        other => panic!("{:?}", other),
    }
}

#[test]
fn lease_ends_the_chain_at_once() {
    let mut table = StringMap::new();
    table.insert("192.168.1.100".to_string(), "mylaptop".to_string());
    let (state, step) = Resolution::begin(IP, Some(&table));
    assert_eq!(state.stage, Stage::Finished);
    assert_eq!(done_name(&step).as_deref(), Some("mylaptop"));
}

#[test]
fn without_a_lease_reverse_dns_is_asked() {
    let table = StringMap::new();
    let (state, step) = Resolution::begin(IP, Some(&table));
    assert_eq!(state.stage, Stage::ReverseDns);
    assert!(matches!(step, Step::AskReverseDns));
    let (state, step) = Resolution::begin(IP, None);
    assert_eq!(state.stage, Stage::ReverseDns);
    assert!(matches!(step, Step::AskReverseDns));
}

#[test]
fn reverse_name_wins_unless_it_is_numeric() {
    let (mut state, _) = Resolution::begin(IP, None);
    let step = state.advance(Answer::ReverseName { name: Some("printer.lan".to_string()) });
    assert_eq!(done_name(&step).as_deref(), Some("printer.lan"));
    assert_eq!(state.stage, Stage::Finished);

    let (mut state, _) = Resolution::begin(IP, None);
    let step = state.advance(Answer::ReverseName { name: Some("192.168.1.100".to_string()) });
    assert_eq!(asked_name(&step), "ip-192-168-1-100.local");
    assert_eq!(state.stage, Stage::PrefixedGuess);

    let (mut state, _) = Resolution::begin(IP, None);
    let step = state.advance(Answer::ReverseName { name: Some(String::new()) });
    assert_eq!(done_name(&step), None);
}

#[test]
fn reverse_name_that_begins_with_a_digit_is_a_name() {
    for name in ["3com.lan", "1x", "192.168.1.100.in-addr.arpa", "10-0-0-7", "7.example"] {
        let (mut state, _) = Resolution::begin(IP, None);
        let step = state.advance(Answer::ReverseName { name: Some(name.to_string()) });
        assert_eq!(done_name(&step).as_deref(), Some(name), "{:?}", name);
        assert_eq!(state.stage, Stage::Finished);
    }
}

#[test]
fn reverse_name_that_echoes_a_number_or_an_address_is_no_answer() {
    for name in ["192.168.1.100", "10.0.0.1", "12345", "1.2.3.4.5", "999.999", ".", "0"] {
        let (mut state, _) = Resolution::begin(IP, None);
        let step = state.advance(Answer::ReverseName { name: Some(name.to_string()) });
        assert_eq!(asked_name(&step), "ip-192-168-1-100.local", "{:?}", name);
        assert_eq!(state.stage, Stage::PrefixedGuess);
    }
}

#[test]
fn names_that_name_nothing() {
    assert!(names_nothing("192.168.1.100"));
    assert!(names_nothing("42"));
    assert!(names_nothing(""));
    assert!(!names_nothing("3com.lan"));
    assert!(!names_nothing("host"));
    assert!(!names_nothing("fe80::1"));
}

#[test]
fn whole_chain_down_to_netbios() {
    let (mut state, _) = Resolution::begin(IP, None);
    let step = state.advance(Answer::ReverseName { name: None });
    assert_eq!(asked_name(&step), "ip-192-168-1-100.local");
    let step = state.advance(Answer::Addresses { addresses: vec![Ipv4::new(192, 168, 1, 101)] });
    assert_eq!(asked_name(&step), "192-168-1-100.local");
    assert_eq!(state.stage, Stage::PlainGuess);
    let step = state.advance(Answer::Addresses { addresses: vec![] });
    assert!(matches!(step, Step::AskNetBios));
    assert_eq!(state.stage, Stage::NetBios);
    let report = "Looking up status of 192.168.1.100\n\tWORKGROUP       <00> - <GROUP> B <ACTIVE>\n\tDESKTOP-1       <00> -         B <ACTIVE>\n";
    let step = state.advance(Answer::NetBiosReport { output: Some(report.to_string()) });
    assert_eq!(done_name(&step).as_deref(), Some("DESKTOP-1"));
    assert_eq!(state.stage, Stage::Finished);
    let step = state.advance(Answer::ReverseName { name: Some("late".to_string()) });
    assert_eq!(done_name(&step), None);
}

#[test]
fn guess_that_resolves_to_the_address_is_the_name() {
    let (mut state, _) = Resolution::begin(IP, None);
    state.advance(Answer::ReverseName { name: None });
    let step = state.advance(Answer::Addresses { addresses: vec![Ipv4::new(10, 0, 0, 1), IP] });
    assert_eq!(done_name(&step).as_deref(), Some("ip-192-168-1-100"));

    let (mut state, _) = Resolution::begin(IP, None);
    state.advance(Answer::ReverseName { name: None });
    state.advance(Answer::Addresses { addresses: vec![] });
    let step = state.advance(Answer::Addresses { addresses: vec![IP] });
    assert_eq!(done_name(&step).as_deref(), Some("192-168-1-100"));
}

#[test]
fn failed_netbios_query_ends_without_a_name() {
    let mut state = Resolution { ip: IP, stage: Stage::NetBios };
    let step = state.advance(Answer::NetBiosReport { output: None });
    assert_eq!(done_name(&step), None);
    let mut state = Resolution { ip: IP, stage: Stage::NetBios };
    let step = state.advance(Answer::NetBiosReport { output: Some("no names here".to_string()) });
    assert_eq!(done_name(&step), None);
}

#[test]
fn answer_to_another_question_counts_as_none() {
    let mut state = Resolution { ip: IP, stage: Stage::PrefixedGuess };
    let step = state.advance(Answer::ReverseName { name: Some("host".to_string()) });
    assert_eq!(asked_name(&step), "192-168-1-100.local");
    let mut state = Resolution { ip: IP, stage: Stage::ReverseDns };
    let step = state.advance(Answer::Addresses { addresses: vec![IP] });
    assert_eq!(asked_name(&step), "ip-192-168-1-100.local");
}

#[test]
fn guessed_names() {
    assert_eq!(guess_name(Ipv4::new(10, 0, 0, 7), true), "ip-10-0-0-7");
    assert_eq!(guess_name(Ipv4::new(10, 0, 0, 7), false), "10-0-0-7");
}

#[test]
fn netbios_report_lines() {
    assert_eq!(parse_netbios_output(""), None);
    assert_eq!(
        parse_netbios_output("    COMPUTERNAME    <00> -         B <ACTIVE>").as_deref(),
        Some("COMPUTERNAME")
    );
    assert_eq!(parse_netbios_output("    COMPUTERNAME    <20> -         B <ACTIVE>"), None);
    assert_eq!(parse_netbios_output("    COMPUTERNAME    <00> -         B <CONFLICT>"), None);
    assert_eq!(parse_netbios_output("    WORKGROUP    <00> - <GROUP> B <ACTIVE>"), None);
    assert_eq!(parse_netbios_output("    _HIDDEN    <00> -  B <ACTIVE>"), None);
    assert_eq!(parse_netbios_output("    ..__MSBROWSE__.    <00> -  B <ACTIVE>"), None);
    assert_eq!(
        parse_netbios_output("_X <00> ACTIVE\r\n.. <00> ACTIVE\r\nSECOND <00> ACTIVE\r\nTHIRD <00> ACTIVE").as_deref(),
        Some("SECOND")
    );
}
