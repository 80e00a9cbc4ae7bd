use srt::text::strip_name;

#[test]
fn strip() {
    let mut name = "aidan --- tests this".to_string();
    strip_name(&mut name);
    assert_eq!(name, "aidan     tests this".to_string());

    let mut name = "a123".to_string();
    strip_name(&mut name);
    assert_eq!(name, "a123".to_string());
}

#[test]
fn strip_keeps_length_and_letters() {
    let mut name = "Snare_(Vintage)-01ü".to_string();
    let before = name.chars().count();
    strip_name(&mut name);
    assert_eq!(name, "Snare  Vintage  01ü".to_string());
    assert_eq!(name.chars().count(), before);
}

#[test]
fn strip_is_idempotent() {
    let mut once = "kick--[01]__x".to_string();
    strip_name(&mut once);
    let mut twice = once.clone();
    strip_name(&mut twice);
    assert_eq!(once, twice);
    assert_eq!(once, "kick   01   x".to_string());
}

#[test]
fn strip_empty() {
    let mut name = String::new();
    strip_name(&mut name);
    assert_eq!(name, String::new());
}
