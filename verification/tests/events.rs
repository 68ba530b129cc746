use grimoire::{parse_events, read_event_records, Address, ResourceKind};

fn address(value: &str) -> Address {
    Address::parse(value).unwrap_or_else(|error| panic!("{}", error.to_string()))
}

#[test]
fn events_group_flows_and_charges_by_scenario_in_key_order() {
    let source = "# resources\n\
scenario\tlow\t0.25\tquiet day\n\
scenario\thigh\t0.75\tbusy day\n\
flow\thigh\t@flow\t@a/out\t@b/in\tbytes\t10\n\
flow\thigh\t@flow\t@a/out\t@b/in\tflop-work\t+3\n\
flow\tlow\t@flow\t@a/out\t@b/in\tbytes\t4\n\
charge\thigh\t@a\tmemory-bytes\t7\r\n\
\n";
    let scenarios = parse_events(source).unwrap_or_else(|error| panic!("{}", error.to_string()));
    let names: Vec<&str> = scenarios.iter().map(|s| s.name.as_str()).collect();
    assert_eq!(names, vec!["high", "low"]);
    let high = &scenarios[0];
    assert_eq!(high.probability, "0.75");
    assert_eq!(high.assumption, "busy day");
    assert_eq!(high.flows.len(), 1);
    assert_eq!(high.flows[0].relation, address("@flow"));
    assert_eq!(high.flows[0].resources.quantity(ResourceKind::Bytes), Some(10));
    assert_eq!(high.flows[0].resources.quantity(ResourceKind::FlopWork), Some(3));
    assert_eq!(high.charges.len(), 1);
    assert_eq!(high.charges[0].target, address("@a"));
    assert_eq!(high.charges[0].resources.quantity(ResourceKind::MemoryBytes), Some(7));
    let low = &scenarios[1];
    assert_eq!(low.flows[0].resources.quantity(ResourceKind::Bytes), Some(4));
    assert!(low.charges.is_empty());
}

#[test]
fn event_lines_report_the_first_bad_line() {
    let error = parse_events("scenario\ta\tnot-a-number\tx\nbogus\n").expect_err("bad probability");
    assert_eq!(error.to_string(), "events line 1: probability is not a number");
    let error = parse_events("scenario\ta\t1e-3\tx\nscenario\ta\t0.5\ty\n").expect_err("repeat");
    assert_eq!(error.to_string(), "events line 2: scenario is repeated");
    let error = parse_events("flow\ta\t@r\t@s\t@d\tjoules\t1\n").expect_err("unknown kind");
    assert_eq!(error.to_string(), "events line 1: unknown resource `joules`");
    let error = parse_events("charge\ta\t@t\tbytes\t-1\n").expect_err("negative quantity");
    assert_eq!(error.to_string(), "events line 1: quantity is not a nonnegative integer");
    let error = parse_events("\n  \nflow\tshort\n").expect_err("short record");
    assert_eq!(error.to_string(), "events line 3: invalid record `flow`");
}

#[test]
fn event_groups_report_unknown_scenarios_repeats_and_addresses() {
    let error = parse_events("scenario\ta\tinf\tx\nflow\tb\t@r\t@s\t@d\tbytes\t1\n").expect_err("unknown scenario");
    assert_eq!(error.to_string(), "flow references unknown scenario `b`");
    let error = parse_events("scenario\ta\tNaN\tx\ncharge\ta\t@t\tbytes\t1\ncharge\ta\t@t\tbytes\t2\n")
        .expect_err("repeated kind");
    assert_eq!(error.to_string(), "resource bundle repeats `bytes`");
    let error = parse_events("scenario\ta\t.5\tx\nflow\ta\t@r\tnot-an-address\t@d\tbytes\t1\n")
        .expect_err("bad address");
    assert_eq!(error.to_string(), "invalid address `not-an-address`");
}

#[test]
fn probabilities_follow_the_double_grammar() {
    for text in ["1", "+0.5", "-.5e+3", "5.", "INFINITY", "-inf", "1E9"] {
        let source = format!("scenario\ta\t{}\tx\n", text);
        assert!(parse_events(&source).is_ok(), "{} should read", text);
        assert!(text.parse::<f64>().is_ok());
    }
    for text in ["", ".", "1e", "1.2.3", "e5", " 1", "0x10", "infinit"] {
        let source = format!("scenario\ta\t{}\tx\n", text);
        assert!(parse_events(&source).is_err(), "{} should not read", text);
        assert!(text.parse::<f64>().is_err());
    }
}

#[test]
fn records_keep_their_lines() {
    let records = read_event_records("\nscenario\ta\t1\tx\ncharge\ta\t@t\tbytes\t2")
        .unwrap_or_else(|error| panic!("{}", error.to_string()));
    assert_eq!(records.scenarios[0].line, 2);
    assert_eq!(records.charges[0].line, 3);
    assert_eq!(records.charges[0].quantity, 2);
}
