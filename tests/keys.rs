use indexmap::IndexMap;
use utas::keys::{file_from_resource_map, key_from_locale_value_map};
use utas::model::{PluralValue, StringValue};

#[test]
fn simple_key_drops_absent_values() {
    let mut input = IndexMap::new();
    input.insert("en".to_string(), Some("Hi %@".to_string()));
    input.insert("ru".to_string(), None);
    input.insert("de".to_string(), Some("100%".to_string()));
    let key = key_from_locale_value_map("greeting".to_string(), input).unwrap();
    assert_eq!(key.name, "greeting");
    assert_eq!(key.localizations.len(), 2);
    assert_eq!(key.localizations[0].language_code, "en");
    match &key.localizations[0].value {
        StringValue::Single(s) => assert_eq!(s, "Hi %s"),
        StringValue::Plural { .. } => panic!("expected single value"),
    }
    assert_eq!(key.localizations[1].language_code, "de");
    match &key.localizations[1].value {
        StringValue::Single(s) => assert_eq!(s, "100%%"),
        StringValue::Plural { .. } => panic!("expected single value"),
    }
}

#[test]
fn plural_key_drops_absent_values_and_tags_without_separator() {
    let mut input = IndexMap::new();
    input.insert("en:one".to_string(), Some("a & b".to_string()));
    input.insert("en".to_string(), Some("dropped".to_string()));
    input.insert("ru:few".to_string(), None);
    input.insert("en:other".to_string(), Some("c".to_string()));
    let key = key_from_locale_value_map("k".to_string(), input).unwrap();
    assert_eq!(key.localizations.len(), 1);
    assert_eq!(key.localizations[0].language_code, "en");
    match &key.localizations[0].value {
        StringValue::Plural { quantities } => {
            assert_eq!(quantities.len(), 2);
            assert_eq!(
                quantities[0],
                PluralValue { quantity: "one".to_string(), text: "a &amp; b".to_string() }
            );
            assert_eq!(
                quantities[1],
                PluralValue { quantity: "other".to_string(), text: "c".to_string() }
            );
        }
        StringValue::Single(_) => panic!("expected plural value"),
    }
}

#[test]
fn plural_groups_keep_first_seen_order() {
    let mut input = IndexMap::new();
    input.insert("en:one".to_string(), Some("1".to_string()));
    input.insert("ru:one".to_string(), Some("2".to_string()));
    input.insert("en:many".to_string(), Some("3".to_string()));
    input.insert("de:x:y".to_string(), Some("4".to_string()));
    let key = key_from_locale_value_map("k".to_string(), input).unwrap();
    let codes: Vec<&str> = key.localizations.iter().map(|l| l.language_code.as_str()).collect();
    assert_eq!(codes, vec!["en", "ru", "de"]);
    match &key.localizations[0].value {
        StringValue::Plural { quantities } => {
            assert_eq!(quantities.len(), 2);
            assert_eq!(quantities[0].quantity, "one");
            assert_eq!(quantities[1].quantity, "many");
        }
        StringValue::Single(_) => panic!("expected plural value"),
    }
    match &key.localizations[2].value {
        StringValue::Plural { quantities } => {
            assert_eq!(quantities[0].quantity, "x:y");
        }
        StringValue::Single(_) => panic!("expected plural value"),
    }
}

#[test]
fn key_with_only_absent_values_is_empty() {
    let mut input = IndexMap::new();
    input.insert("en".to_string(), None);
    let key = key_from_locale_value_map("k".to_string(), input).unwrap();
    assert_eq!(key.localizations.len(), 0);
}

#[test]
fn document_keeps_key_order_in_one_section() {
    let mut first = IndexMap::new();
    first.insert("en".to_string(), Some("Login".to_string()));
    let mut second = IndexMap::new();
    second.insert("en".to_string(), Some("%d of %d".to_string()));
    let file = file_from_resource_map(vec![
        ("login_title".to_string(), first),
        ("counter".to_string(), second),
    ])
    .unwrap();
    assert_eq!(file.sections.len(), 1);
    let keys = &file.sections[0].keys;
    assert_eq!(keys.len(), 2);
    assert_eq!(keys[0].name, "login_title");
    assert_eq!(keys[1].name, "counter");
    match &keys[1].localizations[0].value {
        StringValue::Single(s) => assert_eq!(s, "%1$d of %2$d"),
        StringValue::Plural { .. } => panic!("expected single value"),
    }
}
