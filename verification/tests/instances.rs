use lightswitch::build_parser;
use lightswitch::choose_target;
use lightswitch::find_instance_id_by_name;
use lightswitch::pad_centered;
use lightswitch::InstanceInfo;
use lightswitch::TargetChoice;

fn args(toks: &[&str]) -> Vec<String> {
    toks.iter().map(|t| t.to_string()).collect()
}

fn info(name: Option<&str>, id: &str, state: &str) -> InstanceInfo {
    InstanceInfo { name: name.map(|n| n.to_string()), id: id.to_string(), state: state.to_string() }
}

#[test]
fn target_is_by_name_when_name_flag_given() {
    let parser = build_parser();
    let cmd = parser.parse(args(&["prog", "start", "-n", "web"])).unwrap();
    match choose_target(&cmd) {
        TargetChoice::ByName(n) => assert_eq!(n, "web"),
        _ => panic!("expected a by-name target"),
    }
}

#[test]
fn target_prefers_name_over_instance() {
    let parser = build_parser();
    let cmd = parser.parse(args(&["prog", "stop", "-i", "i-1", "-n", "web"])).unwrap();
    match choose_target(&cmd) {
        TargetChoice::ByName(n) => assert_eq!(n, "web"),
        _ => panic!("expected a by-name target"),
    }
}

#[test]
fn target_is_by_id_when_only_instance_flag_given() {
    let parser = build_parser();
    let cmd = parser.parse(args(&["prog", "start", "--instance", "i-abc"])).unwrap();
    match choose_target(&cmd) {
        TargetChoice::ById(i) => assert_eq!(i, "i-abc"),
        _ => panic!("expected a by-id target"),
    }
}

#[test]
fn target_is_interactive_without_flags() {
    let parser = build_parser();
    let cmd = parser.parse(args(&["prog", "start"])).unwrap();
    assert!(matches!(choose_target(&cmd), TargetChoice::Interactive));
}

#[test]
fn name_lookup_finds_the_first_match() {
    let instances = vec![
        info(None, "i-0", "running"),
        info(Some("web"), "i-1", "stopped"),
        info(Some("db"), "i-2", "running"),
        info(Some("web"), "i-3", "running"),
    ];
    assert_eq!(find_instance_id_by_name(&instances, "web").unwrap(), "i-1");
    assert_eq!(find_instance_id_by_name(&instances, "db").unwrap(), "i-2");
    assert!(find_instance_id_by_name(&instances, "cache").is_none());
    assert!(find_instance_id_by_name(&Vec::new(), "web").is_none());
}

#[test]
fn padding_centers_the_value_with_odd_space_on_the_right() {
    assert_eq!(pad_centered("ab", 5), " ab  ");
    assert_eq!(pad_centered("ab", 6), "  ab  ");
    assert_eq!(pad_centered("abcd", 4), "abcd");
    assert_eq!(pad_centered("", 3), "   ");
}
