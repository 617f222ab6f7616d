use lightswitch::ConfigError;
use lightswitch::LightswitchConfig;

#[test]
fn new_config_uses_default_profile() {
    let cfg = LightswitchConfig::new("us-east-2");
    assert_eq!(cfg.get_profile(), "default");
    assert_eq!(cfg.get_region(), "us-east-2");
}

#[test]
fn to_json_writes_the_compact_record() {
    let cfg = LightswitchConfig::new("us-east-2");
    assert_eq!(cfg.to_json(), "{\"profile\":\"default\",\"region\":\"us-east-2\"}");
}

#[test]
fn save_then_load_round_trips_plain_values() {
    let cfg = LightswitchConfig::new("eu-west-1");
    let loaded = LightswitchConfig::from_json(&cfg.to_json()).unwrap();
    assert_eq!(loaded.get_profile(), cfg.get_profile());
    assert_eq!(loaded.get_region(), cfg.get_region());
}

#[test]
fn save_then_load_round_trips_values_needing_escapes() {
    let cfg = LightswitchConfig::new("a\"b\\c\nd\te\u{0001}f");
    let text = cfg.to_json();
    let loaded = LightswitchConfig::from_json(&text).unwrap();
    assert_eq!(loaded.get_profile(), "default");
    assert_eq!(loaded.get_region(), "a\"b\\c\nd\te\u{0001}f");
}

#[test]
fn load_accepts_the_legacy_unversioned_shape() {
    let loaded =
        LightswitchConfig::from_json("{\"profile\":\"default\",\"region\":\"us-east-2\"}").unwrap();
    assert_eq!(loaded.get_profile(), "default");
    assert_eq!(loaded.get_region(), "us-east-2");
}

#[test]
fn load_accepts_whitespace_between_tokens() {
    let loaded =
        LightswitchConfig::from_json(" {\n \"profile\" : \"p\" ,\t\"region\" : \"r\" }\r\n")
            .unwrap();
    assert_eq!(loaded.get_profile(), "p");
    assert_eq!(loaded.get_region(), "r");
}

#[test]
fn load_decodes_simple_and_hex_escapes() {
    let loaded =
        LightswitchConfig::from_json("{\"profile\":\"a\\nb\",\"region\":\"c\\u0041d\"}").unwrap();
    assert_eq!(loaded.get_profile(), "a\nb");
    assert_eq!(loaded.get_region(), "cAd");
}

#[test]
fn load_rejects_text_that_is_no_record() {
    assert_eq!(LightswitchConfig::from_json("").unwrap_err(), ConfigError::Malformed);
    assert_eq!(LightswitchConfig::from_json("{}").unwrap_err(), ConfigError::Malformed);
    assert_eq!(LightswitchConfig::from_json("not json").unwrap_err(), ConfigError::Malformed);
    assert_eq!(
        LightswitchConfig::from_json("{\"profile\":\"p\"}").unwrap_err(),
        ConfigError::Malformed
    );
    assert_eq!(
        LightswitchConfig::from_json("{\"region\":\"r\",\"profile\":\"p\"}").unwrap_err(),
        ConfigError::Malformed
    );
    assert_eq!(
        LightswitchConfig::from_json("{\"profile\":\"p\",\"region\":\"r\"} trailing").unwrap_err(),
        ConfigError::Malformed
    );
    assert_eq!(
        LightswitchConfig::from_json("{\"profile\":\"p\",\"region\":\"unterminated}").unwrap_err(),
        ConfigError::Malformed
    );
    assert_eq!(
        LightswitchConfig::from_json("{\"profile\":\"\\u0100\",\"region\":\"r\"}").unwrap_err(),
        ConfigError::Malformed
    );
}
