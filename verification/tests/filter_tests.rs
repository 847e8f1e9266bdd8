use i3_config_search::{ConfigEntry, ConfigMetadata, Modifiers};

fn simple_i3_config() -> &'static str {
    "## group1 // description1 // keys1 ##
        bindsym $mod+Ctrl+$alt+Left move workspace to output left
        ## group2 // description2 // keys2 ##
        bindsym $mod+grave exec /usr/bin/x-terminal-emulator"
}

#[test]
fn filter_i3_entries() {
    let sample = simple_i3_config();
    let mut config = ConfigMetadata::parse(sample).unwrap();
    let filtered_entries = config.filter("dsc1", &Modifiers::default());
    assert_eq!(filtered_entries.len(), 1);
    assert_eq!(
        filtered_entries[0].description(),
        String::from("description1")
    );
}

#[test]
fn filter_i3_entries_empty_returns_all() {
    let sample = simple_i3_config();
    let mut config = ConfigMetadata::parse(sample).unwrap();
    let filtered_entries = config.filter("", &Modifiers::default());
    assert_eq!(filtered_entries.len(), 2);
}

#[test]
fn filter_i3_entries_no_match() {
    let sample = simple_i3_config();
    let mut config = ConfigMetadata::parse(sample).unwrap();
    let filtered_entries = config.filter("qw", &Modifiers::default());
    assert!(filtered_entries.is_empty());
}

#[test]
fn filter_i3_entries_sorted() {
    let sample = "## group1 // abdc // keys1 ##
        ## group2 // abc // keys2 ##";
    let mut config = ConfigMetadata::parse(sample).unwrap();
    let filtered_entries = config.filter("abc", &Modifiers::default());
    assert_eq!(filtered_entries.len(), 2);
    assert_eq!(filtered_entries[0].description(), String::from("abc"));
    assert_eq!(filtered_entries[1].description(), String::from("abdc"));
}

#[test]
fn filter_i3_by_group() {
    let sample = "## group1 // abdc // keys1 ##
        ## group2 // abc // keys2 ##";
    let mut config = ConfigMetadata::parse(sample).unwrap();
    let filtered_entries = config.filter("grp2", &Modifiers::default());
    assert_eq!(filtered_entries.len(), 1);
    assert_eq!(filtered_entries[0].description(), String::from("abc"));
}

#[test]
fn filter_is_case_insensitive() {
    let sample = "## Group1 // Description1 // keys1 ##";
    let mut config = ConfigMetadata::parse(sample).unwrap();
    let filtered_entries = config.filter("gROUP1 dESC", &Modifiers::default());
    assert_eq!(filtered_entries.len(), 1);
}

#[test]
fn filter_excludes_entry_without_required_marker() {
    // a perfect fuzzy match is still dropped when a held modifier's marker
    // is missing from the keys
    let sample = "## group1 // abc // <ctrl>a ##";
    let mut config = ConfigMetadata::parse(sample).unwrap();
    let with_shift = Modifiers::new(true, false, false, false);
    let filtered_entries = config.filter("group1 abc", &with_shift);
    assert!(filtered_entries.is_empty());
}

#[test]
fn filter_with_modifiers_keeps_marked_entries_only() {
    let sample = "## g1 // first // <shift>a ##
        ## g2 // second // <ctrl>b ##";
    let mut config = ConfigMetadata::parse(sample).unwrap();
    let with_shift = Modifiers::new(true, false, false, false);
    let filtered_entries = config.filter("", &with_shift);
    assert_eq!(filtered_entries.len(), 1);
    assert_eq!(filtered_entries[0].description(), "first");
}

#[test]
fn filter_empty_keys_never_passes_active_modifier() {
    let sample = "## g1 // first //  ##";
    let mut config = ConfigMetadata::parse(sample).unwrap();
    assert_eq!(config.entries()[0].keys(), "");
    let with_alt = Modifiers::new(false, false, true, false);
    let filtered_entries = config.filter("", &with_alt);
    assert!(filtered_entries.is_empty());
}

#[test]
fn filter_clears_stale_annotations() {
    let sample = "## group1 // abdc // keys1 ##";
    let mut config = ConfigMetadata::parse(sample).unwrap();
    {
        let first_pass = config.filter("gro", &Modifiers::default());
        assert_eq!(first_pass.len(), 1);
    }
    {
        let second_pass = config.filter("qqq", &Modifiers::default());
        assert!(second_pass.is_empty());
    }
    // the entry that no longer matches has its annotations cleared
    let expected = vec![i3_config_search::MatchElement::Unmatched("group1".to_owned())];
    assert_eq!(config.entries()[0].matched_group(), expected);
}

#[test]
fn filter_space_in_query_matches_field_joint() {
    let sample = "## group1 // abdc // keys1 ##";
    let mut config = ConfigMetadata::parse(sample).unwrap();
    let filtered_entries = config.filter("p1 ab", &Modifiers::default());
    assert_eq!(filtered_entries.len(), 1);
}

#[test]
fn matches_modifiers_ignores_fuzzy_rank() {
    let entry = ConfigEntry::new(
        String::from("group"),
        String::from("group"),
        String::from("plain"),
    );
    let with_meta = Modifiers::new(false, false, false, true);
    assert!(!entry.matches_modifiers(&with_meta));
    assert!(entry.matches_modifiers(&Modifiers::default()));
}
