use pdfx::pdf::labels::{bad_label_text, core_of, is_control, is_space, name_from_core, sanitize, underscore_slot};

fn all_chars() -> impl Iterator<Item = char> {
    (0u32..=0x10FFFF).filter_map(char::from_u32)
}

#[test]
fn space_test_agrees_with_std_on_every_char() {
    for c in all_chars() {
        assert_eq!(is_space(c), c.is_whitespace(), "U+{:04X}", c as u32);
    }
}

#[test]
fn control_test_agrees_with_std_on_every_char() {
    for c in all_chars() {
        assert_eq!(is_control(c), c.is_control(), "U+{:04X}", c as u32);
    }
}

#[test]
fn sanitize_trims_bullets_and_punctuation() {
    assert_eq!(sanitize("  \u{2022} Name: ").as_deref(), Some("Name"));
    assert_eq!(sanitize("* Phone *").as_deref(), Some("Phone"));
    assert_eq!(sanitize("\u{B7}- Date of birth.").as_deref(), Some("Date of birth"));
    assert_eq!(sanitize("No.:").as_deref(), Some("No"));
    assert_eq!(sanitize("Email   address").as_deref(), Some("Email address"));
}

#[test]
fn sanitize_replaces_dots_and_drops_controls() {
    assert_eq!(sanitize("e.g. value").as_deref(), Some("e_g_ value"));
    // a tab inside the label is a control character and goes, joining the words
    assert_eq!(sanitize("First\tName").as_deref(), Some("FirstName"));
    assert_eq!(sanitize("Zip\u{7}code").as_deref(), Some("Zipcode"));
}

#[test]
fn sanitize_refuses_unusable_text() {
    assert_eq!(sanitize(""), None);
    assert_eq!(sanitize("   "), None);
    assert_eq!(sanitize("---"), None);
    assert_eq!(sanitize("(  )"), None);
    assert_eq!(sanitize("a b c d e f g h i"), None);
    assert_eq!(sanitize("a b c d e f g h").as_deref(), Some("a b c d e f g h"));
    let long = "x".repeat(49);
    assert_eq!(sanitize(&long), None);
    let fits = "x".repeat(48);
    assert_eq!(sanitize(&fits).as_deref(), Some(fits.as_str()));
}

#[test]
fn sanitize_keeps_non_ascii_letters() {
    assert_eq!(sanitize("Größe:").as_deref(), Some("Größe"));
    assert_eq!(sanitize("\u{3000}名前\u{3000}").as_deref(), Some("名前"));
    assert_eq!(sanitize("\u{2460}").as_deref(), Some("\u{2460}"));
}

#[test]
fn core_and_name_from_core() {
    let core = core_of(" \u{2022} Full  name :");
    assert_eq!(core.iter().collect::<String>(), "Full  name");
    assert_eq!(name_from_core(&core, true).as_deref(), Some("Full name"));
    assert_eq!(name_from_core(&core, false), None);
    let dots: Vec<char> = "..".chars().collect();
    assert_eq!(name_from_core(&dots, true).as_deref(), Some("__"));
    let ctl: Vec<char> = vec!['\u{1}', '\u{2}'];
    assert_eq!(name_from_core(&ctl, true), None);
}

#[test]
fn blanks_and_unusable_labels() {
    assert!(underscore_slot("___"));
    assert!(underscore_slot("  _____ \t"));
    assert!(!underscore_slot("__"));
    assert!(!underscore_slot("_a_"));
    assert!(!underscore_slot("Name"));
    assert!(bad_label_text(""));
    assert!(bad_label_text(" \t "));
    assert!(bad_label_text(" ____ "));
    assert!(!bad_label_text("Name:"));
    assert!(!bad_label_text("__"));
}

#[test]
fn sanitizing_a_sanitized_name_gives_it_back() {
    for raw in ["Name:", "  - First   name . ", "e.g. City", "* Zip code *", "Date  of   birth:"] {
        let once = sanitize(raw).unwrap();
        assert_eq!(sanitize(&once).as_deref(), Some(once.as_str()));
        assert!(!once.contains('.'));
        assert!(!once.starts_with(' ') && !once.ends_with(' ') && !once.contains("  "));
    }
    assert_eq!(sanitize("Name:").as_deref(), Some("Name"));
}
