//! The stylesheet parser: value grammar, colors, and error cases.

use frameui::style::{Declaration, StyleSheet, Value};

fn parse(text: &str) -> Result<StyleSheet, frameui::css::CssError> {
    let mut sheet = StyleSheet::new();
    sheet.parse(text, 0).map(|_| sheet)
}

#[test]
fn parses_the_full_value_grammar() {
    let sheet = parse(
        "Unstyled { width: 10px; height: 50%; margin-top: auto; margin-bottom: none; \
         margin-left: -4px; margin-right: 0.25px }",
    )
    .expect("stylesheet should parse");
    assert_eq!(sheet.rules.len(), 1);
    let props = &sheet.rules[0].properties;
    assert_eq!(props[0], Declaration::Width(Value::Px(10000)));
    assert_eq!(props[1], Declaration::Height(Value::Percent(50000)));
    assert_eq!(props[2], Declaration::MarginTop(Value::Auto));
    assert_eq!(props[3], Declaration::MarginBottom(Value::Undefined));
    assert_eq!(props[4], Declaration::MarginLeft(Value::Px(-4000)));
    assert_eq!(props[5], Declaration::MarginRight(Value::Px(250)));
}

#[test]
fn keywords_ignore_ascii_case() {
    let sheet = parse("Unstyled { width: AUTO; height: 3PX }").expect("parse");
    assert_eq!(sheet.rules[0].properties[0], Declaration::Width(Value::Auto));
    assert_eq!(sheet.rules[0].properties[1], Declaration::Height(Value::Px(3000)));
}

#[test]
fn colors_go_through_the_full_color_syntax() {
    // Named, hex and functional colors all resolve to channels; this
    // exercises the real color parser underneath.
    let sheet = parse(
        ".a { background-color: red } .b { background-color: #10203040 } \
         .c { background-color: rgb(1, 2, 3) }",
    )
    .expect("parse");
    assert_eq!(
        sheet.rules[0].properties[0],
        Declaration::BackgroundColor(255, 0, 0, 255)
    );
    assert_eq!(
        sheet.rules[1].properties[0],
        Declaration::BackgroundColor(0x10, 0x20, 0x30, 0x40)
    );
    assert_eq!(
        sheet.rules[2].properties[0],
        Declaration::BackgroundColor(1, 2, 3, 255)
    );
}

#[test]
fn currentcolor_is_a_parse_error() {
    assert!(parse(".a { background-color: currentcolor }").is_err());
}

#[test]
fn unknown_property_is_rejected() {
    let e = parse(".a { bogus: 1px }").unwrap_err();
    assert!(matches!(e.kind, frameui::css::CssErrorKind::QualifiedRuleInvalid));
}

#[test]
fn at_rules_are_rejected() {
    let e = parse("@media screen { }").unwrap_err();
    match e.kind {
        frameui::css::CssErrorKind::AtRuleInvalid(name) => assert_eq!(name, "media"),
        other => panic!("wrong kind: {:?}", other),
    }
}

#[test]
fn bad_value_carries_the_token() {
    let e = parse(".a { width: 10em }").unwrap_err();
    match e.kind {
        frameui::css::CssErrorKind::UnexpectedToken(t) => assert_eq!(t, "em"),
        other => panic!("wrong kind: {:?}", other),
    }
}

#[test]
fn error_positions_use_line_and_column() {
    let e = parse("/* c */\n.a {\n  bogus: 1px }").unwrap_err();
    assert_eq!(e.line, 2);
}

#[test]
fn line_offset_shifts_reported_lines() {
    let mut sheet = StyleSheet::new();
    let e = sheet.parse(".a { bogus: 1px }", 7).unwrap_err();
    assert_eq!(e.line, 7);
}

#[test]
fn comments_and_whitespace_are_skipped() {
    let sheet = parse("/* lead */ .a /* mid */ { /* x */ width: 1px ; }").expect("parse");
    assert_eq!(sheet.rules.len(), 1);
    assert_eq!(sheet.rules[0].properties.len(), 1);
}

#[test]
fn rules_accumulate_in_source_order() {
    let sheet = parse(".a { width: 1px } .b { width: 2px } .c { width: 3px }").expect("parse");
    assert_eq!(sheet.rules.len(), 3);
    assert_eq!(sheet.rules[2].properties[0], Declaration::Width(Value::Px(3000)));
}
