use i3_config_search::{ConfigEntry, ConfigMetadata, I3ConfigError};

fn simple_i3_config() -> &'static str {
    "## group1 // description1 // keys1 ##
        bindsym $mod+Ctrl+$alt+Left move workspace to output left
        ## group2 // description2 // keys2 ##
        bindsym $mod+grave exec /usr/bin/x-terminal-emulator"
}

#[test]
fn parse_simple_i3_config() {
    let sample = simple_i3_config();
    let config = ConfigMetadata::parse(sample).unwrap();
    assert_eq!(config.entries().len(), 2);
    assert_eq!(
        config.entries()[0],
        ConfigEntry::new(
            String::from("group1"),
            String::from("description1"),
            String::from("keys1"),
        )
    );
    assert_eq!(
        config.entries()[1],
        ConfigEntry::new(
            String::from("group2"),
            String::from("description2"),
            String::from("keys2"),
        )
    );
}

#[test]
fn parse_simple_i3_no_vals() {
    let sample = "bindsym $mod+Ctrl+$alt+Left move workspace to output left
        bindsym $mod+grave exec /usr/bin/x-terminal-emulator";
    let config = ConfigMetadata::parse(sample).unwrap();
    assert_eq!(config.entries().len(), 0);
}

#[test]
fn parse_simple_i3_empty() {
    let sample = "";
    let config = ConfigMetadata::parse(sample).unwrap();
    assert_eq!(config.entries().len(), 0);
}

#[test]
fn parse_simple_i3_config_comments() {
    let sample = "## group1 // description1 // keys1 ## some comments";
    let config = ConfigMetadata::parse(sample).unwrap();
    assert_eq!(config.entries().len(), 1);
    assert_eq!(
        config.entries()[0],
        ConfigEntry::new(
            String::from("group1"),
            String::from("description1"),
            String::from("keys1"),
        )
    );
}

#[test]
fn parse_simple_i3_ignore_commented() {
    let sample = "# ## group1 // description1 // keys1 ## some comments";
    let config = ConfigMetadata::parse(sample).unwrap();
    assert!(config.entries().is_empty());
}

#[test]
fn parse_simple_i3_config_multiple_words() {
    let sample = "## this is group1 // this is description1 // this is keys1 ##";
    let config = ConfigMetadata::parse(sample).unwrap();
    assert_eq!(config.entries().len(), 1);
    assert_eq!(
        config.entries()[0],
        ConfigEntry::new(
            String::from("this is group1"),
            String::from("this is description1"),
            String::from("this is keys1"),
        )
    );
}

#[test]
fn parse_simple_i3_config_line_comment() {
    let sample = "# other comment
        ## group1 // description1 // keys1 ##";
    let config = ConfigMetadata::parse(sample).unwrap();
    assert_eq!(config.entries().len(), 1);
    assert_eq!(
        config.entries()[0],
        ConfigEntry::new(
            String::from("group1"),
            String::from("description1"),
            String::from("keys1"),
        )
    );
}

#[test]
fn parse_keeps_duplicate_entries() {
    let sample = "## g // d // k ##\n## g // d // k ##";
    let config = ConfigMetadata::parse(sample).unwrap();
    assert_eq!(config.entries().len(), 2);
    assert_eq!(config.entries()[0], config.entries()[1]);
}

#[test]
fn parse_keeps_entry_order() {
    let sample = "## b // second // k2 ##\n## a // first // k1 ##";
    let config = ConfigMetadata::parse(sample).unwrap();
    assert_eq!(config.entries().len(), 2);
    assert_eq!(config.entries()[0].group(), "b");
    assert_eq!(config.entries()[1].group(), "a");
}

#[test]
fn parse_requires_closing_marker() {
    let sample = "## group1 // description1 // keys1";
    let config = ConfigMetadata::parse(sample).unwrap();
    assert!(config.entries().is_empty());
}

#[test]
fn parse_requires_both_delimiters() {
    let sample = "## group1 // description1 keys1 ##";
    let config = ConfigMetadata::parse(sample).unwrap();
    assert!(config.entries().is_empty());
}

#[test]
fn parse_allows_indented_tag_line() {
    let sample = "\t   ## group1 // description1 // keys1 ##";
    let config = ConfigMetadata::parse(sample).unwrap();
    assert_eq!(config.entries().len(), 1);
    assert_eq!(config.entries()[0].group(), "group1");
}

#[test]
fn parse_takes_last_closing_marker() {
    let sample = "## a // b // c ## trailing ## more";
    let config = ConfigMetadata::parse(sample).unwrap();
    assert_eq!(config.entries().len(), 1);
    assert_eq!(config.entries()[0].keys(), "c ## trailing");
}

#[test]
fn entry_full_text_joins_group_and_description() {
    let entry = ConfigEntry::new(
        String::from("group1"),
        String::from("description1"),
        String::from("keys1"),
    );
    assert_eq!(entry.full_text(), "group1 description1");
}

#[test]
fn error_messages_are_stable() {
    assert_eq!(I3ConfigError::ConfigParsingError.message(), "failed to parse config");
    assert_eq!(I3ConfigError::FailedGetRequest.message(), "Failed to download file");
}

#[test]
fn parse_handles_crlf_line_endings() {
    let sample = "## g1 // d1 // k1 ##\r\n## g2 // d2 // k2 ##\r\n";
    let config = ConfigMetadata::parse(sample).unwrap();
    assert_eq!(config.entries().len(), 2);
    assert_eq!(config.entries()[0].keys(), "k1");
    assert_eq!(config.entries()[1].group(), "g2");
}
