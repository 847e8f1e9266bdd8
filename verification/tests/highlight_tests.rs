use i3_config_search::{ConfigMetadata, MatchElement, Modifiers, split_to_groups_by_indices};

#[test]
fn highlight_simple_group() {
    let sample = "## group1 // abdc // keys1 ##";
    let mut config = ConfigMetadata::parse(sample).unwrap();
    let filtered_entries = config.filter("gro", &Modifiers::default());
    let expected_group = vec![
        MatchElement::Matched("gro".to_owned()),
        MatchElement::Unmatched("up1".to_owned()),
    ];
    let expected_description = vec![MatchElement::Unmatched("abdc".to_owned())];
    assert_eq!(filtered_entries[0].matched_group(), expected_group);
    assert_eq!(
        filtered_entries[0].matched_description(),
        expected_description
    );
}

#[test]
fn highlight_simple_description() {
    let sample = "## group1 // abdc // keys1 ##";
    let mut config = ConfigMetadata::parse(sample).unwrap();
    let filtered_entries = config.filter("ab", &Modifiers::default());
    let expected_group = vec![MatchElement::Unmatched("group1".to_owned())];
    let expected_description = vec![
        MatchElement::Matched("ab".to_owned()),
        MatchElement::Unmatched("dc".to_owned()),
    ];
    assert_eq!(filtered_entries[0].matched_group(), expected_group);
    assert_eq!(
        filtered_entries[0].matched_description(),
        expected_description
    );
}

#[test]
fn highlight_simple_with_space() {
    let sample = "## group1 // abdc // keys1 ##";
    let mut config = ConfigMetadata::parse(sample).unwrap();
    let filtered_entries = config.filter("group1 abdc", &Modifiers::default());
    let expected_group = vec![MatchElement::Matched("group1".to_owned())];
    let expected_description = vec![MatchElement::Matched("abdc".to_owned())];
    assert_eq!(filtered_entries[0].matched_group(), expected_group);
    assert_eq!(
        filtered_entries[0].matched_description(),
        expected_description
    );
}

#[test]
fn highlight_round_trip_reconstructs_fields() {
    // concatenating each field's span texts, in order, yields the field
    let sample = "## editors // open text editor // <ctrl>e ##";
    let mut config = ConfigMetadata::parse(sample).unwrap();
    let filtered_entries = config.filter("etxe", &Modifiers::default());
    assert_eq!(filtered_entries.len(), 1);
    let group: String = filtered_entries[0]
        .matched_group()
        .iter()
        .map(|e| e.text().to_owned())
        .collect();
    let description: String = filtered_entries[0]
        .matched_description()
        .iter()
        .map(|e| e.text().to_owned())
        .collect();
    assert_eq!(group, "editors");
    assert_eq!(description, "open text editor");
}

#[test]
fn split_without_indices_is_one_unmatched_span() {
    let spans = split_to_groups_by_indices("abc", None);
    assert_eq!(spans, vec![MatchElement::Unmatched("abc".to_owned())]);
}

#[test]
fn split_empty_text_is_one_empty_unmatched_span() {
    let indices: Vec<usize> = vec![];
    let spans = split_to_groups_by_indices("", Some(&indices));
    assert_eq!(spans, vec![MatchElement::Unmatched(String::new())]);
}

#[test]
fn split_groups_maximal_runs() {
    let indices: Vec<usize> = vec![0, 1, 4];
    let spans = split_to_groups_by_indices("abcde", Some(&indices));
    assert_eq!(
        spans,
        vec![
            MatchElement::Matched("ab".to_owned()),
            MatchElement::Unmatched("cd".to_owned()),
            MatchElement::Matched("e".to_owned()),
        ]
    );
}

#[test]
fn split_all_indices_is_one_matched_span() {
    let indices: Vec<usize> = vec![0, 1, 2];
    let spans = split_to_groups_by_indices("abc", Some(&indices));
    assert_eq!(spans, vec![MatchElement::Matched("abc".to_owned())]);
    assert!(spans[0].is_matched());
    assert_eq!(spans[0].text(), "abc");
}

#[test]
fn second_pass_replaces_annotations() {
    let sample = "## group1 // abdc // keys1 ##";
    let mut config = ConfigMetadata::parse(sample).unwrap();
    {
        let first = config.filter("gro", &Modifiers::default());
        assert_eq!(
            first[0].matched_group()[0],
            MatchElement::Matched("gro".to_owned())
        );
    }
    let second = config.filter("up1", &Modifiers::default());
    assert_eq!(
        second[0].matched_group(),
        vec![
            MatchElement::Unmatched("gro".to_owned()),
            MatchElement::Matched("up1".to_owned()),
        ]
    );
}
