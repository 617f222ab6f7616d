use lightswitch::build_parser;
use lightswitch::CliError;
use lightswitch::CliOption;
use lightswitch::CliOptions;
use lightswitch::CliParser;
use lightswitch::CommandType;

fn args(toks: &[&str]) -> Vec<String> {
    toks.iter().map(|t| t.to_string()).collect()
}

#[test]
fn start_by_short_instance_flag() {
    let parser = build_parser();
    let cmd = parser.parse(args(&["prog", "start", "-i", "abc123"])).unwrap();
    assert_eq!(cmd.command, CommandType::Start);
    assert_eq!(cmd.get("--instance").unwrap().as_str(), "abc123");
    assert_eq!(cmd.options.len(), 1);
}

#[test]
fn start_by_unknown_short_flag_is_invalid() {
    let parser = build_parser();
    let err = parser.parse(args(&["prog", "start", "-x", "abc123"])).unwrap_err();
    assert_eq!(err, CliError::InvalidOption("-x".to_string()));
}

#[test]
fn stop_by_short_name_flag() {
    let parser = build_parser();
    let cmd = parser.parse(args(&["prog", "stop", "-n", "myserver"])).unwrap();
    assert_eq!(cmd.command, CommandType::Stop);
    assert_eq!(cmd.get("--name").unwrap().as_str(), "myserver");
    assert_eq!(cmd.options.len(), 1);
}

#[test]
fn program_name_only_is_help_with_no_options() {
    let parser = build_parser();
    let cmd = parser.parse(args(&["prog"])).unwrap();
    assert_eq!(cmd.command, CommandType::Help);
    assert!(cmd.options.is_empty());
}

#[test]
fn unrecognized_command_is_help_not_an_error() {
    let parser = build_parser();
    let cmd = parser.parse(args(&["prog", "frobnicate"])).unwrap();
    assert_eq!(cmd.command, CommandType::Help);
    assert!(cmd.options.is_empty());
}

#[test]
fn each_recognized_command_token_selects_its_command() {
    let parser = build_parser();
    assert_eq!(parser.parse(args(&["prog", "list"])).unwrap().command, CommandType::List);
    assert_eq!(parser.parse(args(&["prog", "start"])).unwrap().command, CommandType::Start);
    assert_eq!(parser.parse(args(&["prog", "stop"])).unwrap().command, CommandType::Stop);
    assert_eq!(parser.parse(args(&["prog", "configure"])).unwrap().command, CommandType::Configure);
}

#[test]
fn flag_valid_for_another_command_is_still_invalid() {
    // -n is registered for start and stop, not for list
    let parser = build_parser();
    let err = parser.parse(args(&["prog", "list", "-n", "web"])).unwrap_err();
    assert_eq!(err, CliError::InvalidOption("-n".to_string()));
}

#[test]
fn long_form_matches_short_form() {
    let parser = build_parser();
    let by_long = parser.parse(args(&["prog", "start", "--name", "web"])).unwrap();
    let by_short = parser.parse(args(&["prog", "start", "-n", "web"])).unwrap();
    assert_eq!(by_long.command, by_short.command);
    assert_eq!(by_long.get("--name").unwrap().as_str(), "web");
    assert_eq!(by_short.get("--name").unwrap().as_str(), "web");
    assert_eq!(by_long.options.len(), 1);
    assert_eq!(by_short.options.len(), 1);
}

#[test]
fn unknown_long_flag_is_invalid() {
    let parser = build_parser();
    let err = parser.parse(args(&["prog", "start", "--bogus", "v"])).unwrap_err();
    assert_eq!(err, CliError::InvalidOption("--bogus".to_string()));
}

#[test]
fn trailing_flag_without_value_is_missing_option_value() {
    let parser = build_parser();
    let err = parser.parse(args(&["prog", "start", "-i"])).unwrap_err();
    assert_eq!(err, CliError::MissingOptionValue("-i".to_string()));
}

#[test]
fn repeated_flag_keeps_the_last_value() {
    let parser = build_parser();
    let cmd = parser.parse(args(&["prog", "start", "-i", "a", "-i", "b"])).unwrap();
    assert_eq!(cmd.get("--instance").unwrap().as_str(), "b");
    assert_eq!(cmd.options.len(), 1);
}

#[test]
fn both_flags_of_a_command_are_stored() {
    let parser = build_parser();
    let cmd = parser.parse(args(&["prog", "start", "-n", "web", "-i", "i-1"])).unwrap();
    assert_eq!(cmd.get("--name").unwrap().as_str(), "web");
    assert_eq!(cmd.get("--instance").unwrap().as_str(), "i-1");
    assert_eq!(cmd.options.len(), 2);
}

#[test]
fn later_alias_registration_wins() {
    let mut options = CliOptions::new();
    options.add_option(CliOption::new(CommandType::Start, "-n", "--name"));
    options.add_option(CliOption::new(CommandType::Start, "-n", "--nick"));
    let parser = CliParser::new(options);
    let cmd = parser.parse(args(&["prog", "start", "-n", "v"])).unwrap();
    assert_eq!(cmd.get("--nick").unwrap().as_str(), "v");
    assert!(cmd.get("--name").is_none());
}

#[test]
fn validate_resolves_short_alias() {
    let mut options = CliOptions::new();
    options.add_option(CliOption::new(CommandType::Start, "-n", "--name"));
    let long = options.validate("-n".to_string(), &CommandType::Start).unwrap();
    assert_eq!(long, "--name");
    let err = options.validate("-q".to_string(), &CommandType::Start).unwrap_err();
    assert_eq!(err, CliError::InvalidOption("-q".to_string()));
    let err = options.validate("-n".to_string(), &CommandType::Stop).unwrap_err();
    assert_eq!(err, CliError::InvalidOption("-n".to_string()));
}

#[test]
fn error_messages_name_the_offending_token() {
    assert_eq!(CliError::InvalidOption("-x".to_string()).message(), "Invalid option: -x");
    assert_eq!(
        CliError::MissingOptionValue("-i".to_string()).message(),
        "Missing value for option: -i"
    );
}
