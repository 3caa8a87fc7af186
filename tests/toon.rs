use json2toon::{escape_string, JsonNumber, ToonWriter};

fn number(value: f64) -> JsonNumber {
    JsonNumber { bits: value.to_bits(), text: format!("{}", value) }
}

#[test]
fn test_write_string() {
    let mut writer = ToonWriter::new();
    writer.write_string("name", "Alice");
    assert_eq!(writer.finish(), "name=\"Alice\"\n");
}

#[test]
fn test_write_string_with_escapes() {
    let mut writer = ToonWriter::new();
    writer.write_string("text", "Hello \"World\"\nNew line");
    assert_eq!(writer.finish(), "text=\"Hello \\\"World\\\"\\nNew line\"\n");
}

#[test]
fn test_write_integer() {
    let mut writer = ToonWriter::new();
    writer.write_number("age", &number(42.0));
    assert_eq!(writer.finish(), "age=42\n");
}

#[test]
fn test_write_float() {
    let mut writer = ToonWriter::new();
    writer.write_number("score", &number(98.5));
    assert_eq!(writer.finish(), "score=98.5\n");
}

#[test]
fn test_write_bool() {
    let mut writer = ToonWriter::new();
    writer.write_bool("active", true);
    assert_eq!(writer.finish(), "active=true\n");
}

#[test]
fn test_write_null() {
    let mut writer = ToonWriter::new();
    writer.write_null("optional");
    assert_eq!(writer.finish(), "optional=null\n");
}

#[test]
fn test_escape_string() {
    assert_eq!(escape_string("simple"), "simple");
    assert_eq!(escape_string("with \"quotes\""), "with \\\"quotes\\\"");
    assert_eq!(escape_string("with\\backslash"), "with\\\\backslash");
    assert_eq!(escape_string("line\nbreak"), "line\\nbreak");
    assert_eq!(escape_string("tab\there"), "tab\\there");
}

#[test]
fn test_multiple_writes() {
    let mut writer = ToonWriter::new();
    writer.write_string("name", "Bob");
    writer.write_number("age", &number(30.0));
    writer.write_bool("active", false);
    writer.write_null("middle");

    let result = writer.finish();
    assert!(result.contains("name=\"Bob\"\n"));
    assert!(result.contains("age=30\n"));
    assert!(result.contains("active=false\n"));
    assert!(result.contains("middle=null\n"));
}

#[test]
fn escape_covers_carriage_return_and_leaves_other_text_alone() {
    assert_eq!(escape_string("a\rb"), "a\\rb");
    assert_eq!(escape_string(""), "");
    assert_eq!(escape_string("é\u{1}x=y.z"), "é\u{1}x=y.z");
    assert_eq!(escape_string("\\\""), "\\\\\\\"");
}

#[test]
fn escaped_text_decodes_to_the_original() {
    let original = "q\"b\\n\nr\rt\tend";
    let escaped = escape_string(original);
    let mut decoded = String::new();
    let mut chars = escaped.chars();
    while let Some(c) = chars.next() {
        if c == '\\' {
            match chars.next() {
                Some('"') => decoded.push('"'),
                Some('\\') => decoded.push('\\'),
                Some('n') => decoded.push('\n'),
                Some('r') => decoded.push('\r'),
                Some('t') => decoded.push('\t'),
                other => panic!("unexpected escape {:?}", other),
            }
        } else {
            assert_ne!(c, '"');
            decoded.push(c);
        }
    }
    assert_eq!(decoded, original);
}

#[test]
fn numbers_render_as_integers_or_in_their_own_text() {
    let cases: Vec<(f64, &str)> = vec![
        (30.0, "30"),
        (98.5, "98.5"),
        (0.0, "0"),
        (-0.0, "0"),
        (-3.0, "-3"),
        (-2.5, "-2.5"),
        (999_999_999_999_999.0, "999999999999999"),
        (-999_999_999_999_999.0, "-999999999999999"),
        (1e15, "1000000000000000"),
        (1e20, "100000000000000000000"),
        (0.1, "0.1"),
    ];
    for (value, expected) in cases {
        let mut writer = ToonWriter::new();
        writer.write_number("n", &number(value));
        assert_eq!(writer.finish(), format!("n={}\n", expected));
    }
    let tiny = 5e-324f64;
    let mut writer = ToonWriter::new();
    writer.write_number("n", &number(tiny));
    let result = writer.finish();
    assert_ne!(result, "n=0\n");
    assert_eq!(result, format!("n={}\n", tiny));
}

#[test]
fn empty_key_and_default_writer() {
    let mut writer = ToonWriter::default();
    assert_eq!(ToonWriter::new().finish(), "");
    writer.write_bool("", false);
    writer.write_string("k", "");
    assert_eq!(writer.finish(), "=false\nk=\"\"\n");
}
