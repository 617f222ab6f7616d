use vstd::prelude::*;

pub mod cli_parser;
pub mod config;
pub mod instances;

pub use cli_parser::build_parser;
pub use cli_parser::CliError;
pub use cli_parser::CliErrorView;
pub use cli_parser::CliOption;
pub use cli_parser::CliOptions;
pub use cli_parser::CliParser;
pub use cli_parser::Command;
pub use cli_parser::CommandType;
pub use config::ConfigError;
pub use instances::choose_target;
pub use instances::find_instance_id_by_name;
pub use instances::pad_centered;
pub use instances::InstanceInfo;
pub use instances::TargetChoice;
pub use instances::TargetChoiceView;
pub use config::LightswitchConfig;

verus! {

/// The long-flag prefix: a token beginning with two dashes is taken as a
/// canonical flag name rather than a short alias.
pub open spec fn is_long_flag(s: Seq<char>) -> bool {
    s.len() >= 2 && s[0] == '-' && s[1] == '-'
}

} // verus!
