use indexmap::IndexMap;
use utas::keys::key_from_locale_value_map;
use utas::model::{PluralValue, StringValue};
use utas::normalize::parse_localized_string_value;

#[test]
fn parses_simple_string() {
    let input = "Lorem ipsum".to_string();
    let result = parse_localized_string_value(input).unwrap();
    assert_eq!(result, "Lorem ipsum".to_string());
}

#[test]
fn parses_single_placeholder() {
    let input = "Lorem %d ipsum".to_string();
    let result = parse_localized_string_value(input).unwrap();
    assert_eq!(result, "Lorem %d ipsum",);
}

#[test]
fn parses_single_string_placeholder() {
    let input = "Lorem %@ ipsum".to_string();
    let result = parse_localized_string_value(input).unwrap();
    assert_eq!(result, "Lorem %s ipsum".to_string(),);
}

#[test]
fn parses_multiple_placeholders() {
    let input = "Lorem %@ ipsum %.2f sir %,d amet %%".to_string();
    let result = parse_localized_string_value(input).unwrap();
    assert_eq!(result, "Lorem %1$s ipsum %2$.2f sir %3$,d amet %%");
}

#[test]
fn parses_multiple_placeholders_keeping_order_if_present() {
    let input = "Lorem %3$@ ipsum %1$.2f sir %2$,d amet".to_string();
    let result = parse_localized_string_value(input).unwrap();
    assert_eq!(result, "Lorem %3$s ipsum %1$.2f sir %2$,d amet",);
}

#[test]
fn parses_html_tags_and_related_characters_with_proper_escaping() {
    let input = "У нас было <b>38</b> попугаев в <i>чистой</i> упаковке, на которой было указано: 38 < 89 && 88 >= 55".to_string();
    let result = parse_localized_string_value(input).unwrap();
    assert_eq!(result, "У нас было &lt;b>38&lt;/b> попугаев в &lt;i>чистой&lt;/i> упаковке, на которой было указано: 38 &lt; 89 &amp;&amp; 88 >= 55");
}

#[test]
fn replaces_percent_with_double_percent() {
    let input =
        "100% Lorem %@ ipsum %.2f 20% sir %d amet 8% and %% untouched, ending with 42%".to_string();
    let result = parse_localized_string_value(input).unwrap();
    assert_eq!(
        result,
        "100%% Lorem %1$s ipsum %2$.2f 20%% sir %3$d amet 8%% and %% untouched, ending with 42%%"
    );
}

#[test]
fn replaces_percent_with_double_percent_wihout_placeholders() {
    let input = "100% Lorem ipsum amet 8% and %% untouched, ending with 42%".to_string();
    let result = parse_localized_string_value(input).unwrap();
    assert_eq!(
        result,
        "100%% Lorem ipsum amet 8%% and %% untouched, ending with 42%%"
    );
}

#[test]
fn parses_plural_form_keys() {
    let mut input = IndexMap::new();
    input.insert(
        "en:one".to_string(),
        Some("%d ruble %d bear and 1 vodka".to_string()),
    );
    input.insert(
        "en:many".to_string(),
        Some("%d rubles %d bears and 1 vodka".to_string()),
    );
    input.insert(
        "ru:one".to_string(),
        Some("%d рубль %d медведь и 1 водка".to_string()),
    );
    input.insert(
        "ru:zero".to_string(),
        Some("нет рублей нет медведей и 1 водка".to_string()),
    );
    input.insert(
        "ru:other".to_string(),
        Some("много рублей много медведей и 2 водки".to_string()),
    );
    let result = key_from_locale_value_map("receipt_example".to_string(), input).unwrap();
    let loc = result.localizations;

    assert_eq!(loc.len(), 2);
    assert_eq!(loc[0].language_code, "en".to_string());
    match &loc[0].value {
        StringValue::Plural { quantities } => {
            assert_eq!(
                quantities[0],
                PluralValue {
                    quantity: "one".to_string(),
                    text: "%1$d ruble %2$d bear and 1 vodka".to_string()
                }
            );
            assert_eq!(
                quantities[1],
                PluralValue {
                    quantity: "many".to_string(),
                    text: "%1$d rubles %2$d bears and 1 vodka".to_string()
                }
            )
        }
        StringValue::Single(_) => panic!("expected plural value"),
    }
    assert_eq!(loc[1].language_code, "ru".to_string());
    match &loc[1].value {
        StringValue::Plural { quantities } => {
            assert_eq!(
                quantities[0],
                PluralValue {
                    quantity: "one".to_string(),
                    text: "%1$d рубль %2$d медведь и 1 водка".to_string()
                }
            );
            assert_eq!(
                quantities[1],
                PluralValue {
                    quantity: "zero".to_string(),
                    text: "нет рублей нет медведей и 1 водка".to_string()
                }
            );
            assert_eq!(
                quantities[2],
                PluralValue {
                    quantity: "other".to_string(),
                    text: "много рублей много медведей и 2 водки".to_string()
                }
            )
        }
        StringValue::Single(_) => panic!("expected plural value"),
    }
}
