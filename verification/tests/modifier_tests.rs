use i3_config_search::{ConfigEntry, Modifiers};

#[test]
fn test_modifiers_shift() {
    let modifiers = Modifiers::new(true, false, false, false);
    let short_cut = ConfigEntry::new(
        String::from("group"),
        String::from("group"),
        String::from("<shift>"),
    );
    assert!(short_cut.matches_modifiers(&modifiers))
}

#[test]
fn test_modifiers_not_shift() {
    let modifiers = Modifiers::new(true, false, false, false);
    let short_cut = ConfigEntry::new(
        String::from("group"),
        String::from("group"),
        String::from("<ctrl>"),
    );
    assert!(!short_cut.matches_modifiers(&modifiers))
}

#[test]
fn test_modifiers_shift_upper_case() {
    let modifiers = Modifiers::new(true, false, false, false);
    let short_cut = ConfigEntry::new(
        String::from("group"),
        String::from("group"),
        String::from("<Shift><ctrl>"),
    );
    assert!(short_cut.matches_modifiers(&modifiers))
}

#[test]
fn test_modifiers_control() {
    let modifiers = Modifiers::new(false, true, false, false);
    let short_cut = ConfigEntry::new(
        String::from("group"),
        String::from("group"),
        String::from("<ctrl><alt>"),
    );
    assert!(short_cut.matches_modifiers(&modifiers))
}

#[test]
fn test_modifiers_alt() {
    let modifiers = Modifiers::new(false, false, true, false);
    let short_cut = ConfigEntry::new(
        String::from("group"),
        String::from("group"),
        String::from("<alt>"),
    );
    assert!(short_cut.matches_modifiers(&modifiers))
}

#[test]
fn test_modifiers_meta() {
    let modifiers = Modifiers::new(false, false, false, true);
    let short_cut = ConfigEntry::new(
        String::from("group"),
        String::from("group"),
        String::from("<\u{f17a}>"),
    );
    assert!(short_cut.matches_modifiers(&modifiers))
}

#[test]
fn test_modifiers_ctrl_shift() {
    let modifiers = Modifiers::new(true, true, false, false);
    let short_cut = ConfigEntry::new(
        String::from("group"),
        String::from("group"),
        String::from("<Shift><ctrl>"),
    );
    assert!(short_cut.matches_modifiers(&modifiers))
}

#[test]
fn modifiers_description_none_held() {
    let modifiers = Modifiers::default();
    assert_eq!(modifiers.description(), "No modifiers pressed...");
}

#[test]
fn modifiers_description_lists_markers_in_order() {
    let modifiers = Modifiers::new(true, true, true, true);
    assert_eq!(
        modifiers.description(),
        format!("<{}><ctrl><shift><alt>", '\u{f17a}')
    );
}

#[test]
fn modifiers_description_single_marker() {
    let modifiers = Modifiers::new(false, true, false, false);
    assert_eq!(modifiers.description(), "<ctrl>");
}

#[test]
fn modifiers_compare_by_value() {
    assert_eq!(Modifiers::new(false, false, false, false), Modifiers::default());
    assert_ne!(Modifiers::new(true, false, false, false), Modifiers::default());
}
