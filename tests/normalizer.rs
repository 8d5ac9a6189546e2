use utas::normalize::{
    convert_twine_string_placeholder, maybe_add_positional_numbers, maybe_escape_characters,
    maybe_replace_single_percent_with_double_percent, parse_localized_string_value,
};

#[test]
fn escapes_ampersand_and_less_than_only() {
    assert_eq!(maybe_escape_characters("a > b & c < d"), "a > b &amp; c &lt; d");
    assert_eq!(maybe_escape_characters("&lt;"), "&amp;lt;");
    assert_eq!(maybe_escape_characters(""), "");
    assert_eq!(maybe_escape_characters("plain >"), "plain >");
}

#[test]
fn escaping_does_not_hide_percent_handling() {
    let result = parse_localized_string_value("5% & 6% < %@".to_string()).unwrap();
    assert_eq!(result, "5%% &amp; 6%% &lt; %s");
}

#[test]
fn doubles_lone_percents_only() {
    assert_eq!(maybe_replace_single_percent_with_double_percent("%"), "%%");
    assert_eq!(maybe_replace_single_percent_with_double_percent("% of total"), "%% of total");
    assert_eq!(maybe_replace_single_percent_with_double_percent("a%b%k"), "a%%b%%k");
    assert_eq!(maybe_replace_single_percent_with_double_percent("%%%"), "%%%");
    assert_eq!(maybe_replace_single_percent_with_double_percent("%d and %5.1f"), "%d and %5.1f");
    assert_eq!(maybe_replace_single_percent_with_double_percent(""), "");
}

#[test]
fn doubling_twice_changes_nothing_more() {
    let once = maybe_replace_single_percent_with_double_percent("100% of %d, 5%% x%");
    assert_eq!(once, "100%% of %d, 5%% x%%");
    let twice = maybe_replace_single_percent_with_double_percent(&once);
    assert_eq!(twice, once);
}

#[test]
fn converts_object_directives_keeping_modifiers() {
    assert_eq!(convert_twine_string_placeholder("%1$@ and %-5@"), "%1$s and %-5s");
    assert_eq!(convert_twine_string_placeholder("%@%@"), "%s%s");
    assert_eq!(convert_twine_string_placeholder("@ alone, %d"), "@ alone, %d");
    assert_eq!(convert_twine_string_placeholder("%lld %.3@"), "%lld %.3s");
}

#[test]
fn numbers_only_with_two_or_more_unnumbered() {
    assert_eq!(maybe_add_positional_numbers("%d only"), "%d only");
    assert_eq!(maybe_add_positional_numbers("no directive"), "no directive");
    assert_eq!(maybe_add_positional_numbers("%lld %s"), "%1$lld %2$s");
    assert_eq!(maybe_add_positional_numbers("%1$d %d"), "%1$d %d");
}

#[test]
fn numbering_skips_positioned_directives() {
    assert_eq!(
        maybe_add_positional_numbers("%2$d and %d and %s"),
        "%2$d and %1$d and %2$s"
    );
}

#[test]
fn numbering_goes_past_nine() {
    let input = "%d %d %d %d %d %d %d %d %d %d %d";
    let expected = "%1$d %2$d %3$d %4$d %5$d %6$d %7$d %8$d %9$d %10$d %11$d";
    assert_eq!(maybe_add_positional_numbers(input), expected);
}

#[test]
fn normalizes_flags_width_and_star() {
    let result = parse_localized_string_value("%+05d|%*d|%.*f|%hhx".to_string()).unwrap();
    assert_eq!(result, "%1$+05d|%2$*d|%3$.*f|%4$hhx");
}

#[test]
fn conversion_leaves_no_object_directive() {
    let once = convert_twine_string_placeholder("%@ %1$@ %-3@ %hh@ user@host");
    assert_eq!(once, "%s %1$s %-3s %hhs user@host");
    assert_eq!(convert_twine_string_placeholder(&once), once);
}
