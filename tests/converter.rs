use json2toon::{Converter, JsonNumber, JsonValue};

fn num(value: f64) -> JsonValue {
    JsonValue::Number(JsonNumber { bits: value.to_bits(), text: format!("{}", value) })
}

fn text(value: &str) -> JsonValue {
    JsonValue::String(value.to_string())
}

fn object(members: Vec<(&str, JsonValue)>) -> JsonValue {
    JsonValue::Object(members.into_iter().map(|(k, v)| (k.to_string(), v)).collect())
}

#[test]
fn test_convert_simple_types() {
    let converter = Converter::new(false);

    // {"name": "Alice", "age": 30, "active": true, "middle": null}
    let json = object(vec![
        ("name", text("Alice")),
        ("age", num(30.0)),
        ("active", JsonValue::Bool(true)),
        ("middle", JsonValue::Null),
    ]);
    let toon = converter.convert(&json).ok().unwrap();

    assert!(toon.contains("name=\"Alice\"\n"));
    assert!(toon.contains("age=30\n"));
    assert!(toon.contains("active=true\n"));
    assert!(toon.contains("middle=null\n"));
}

#[test]
fn test_convert_nested_object() {
    let converter = Converter::new(false);

    // {"user": {"name": "Bob", "age": 25}}
    let json = object(vec![("user", object(vec![("name", text("Bob")), ("age", num(25.0))]))]);
    let toon = converter.convert(&json).ok().unwrap();

    assert!(toon.contains("user.name=\"Bob\"\n"));
    assert!(toon.contains("user.age=25\n"));
}

#[test]
fn test_convert_array() {
    let converter = Converter::new(false);

    // {"items": ["apple", "banana", "cherry"]}
    let json = object(vec![(
        "items",
        JsonValue::Array(vec![text("apple"), text("banana"), text("cherry")]),
    )]);
    let toon = converter.convert(&json).ok().unwrap();

    assert!(toon.contains("items.0=\"apple\"\n"));
    assert!(toon.contains("items.1=\"banana\"\n"));
    assert!(toon.contains("items.2=\"cherry\"\n"));
}

#[test]
fn test_convert_empty_array() {
    let converter = Converter::new(false);

    // {"items": []}
    let json = object(vec![("items", JsonValue::Array(vec![]))]);
    let toon = converter.convert(&json).ok().unwrap();

    assert!(toon.contains("items=\"[]\"\n"));
}

#[test]
fn test_convert_empty_object() {
    let converter = Converter::new(false);

    // {"data": {}}
    let json = object(vec![("data", JsonValue::Object(vec![]))]);
    let toon = converter.convert(&json).ok().unwrap();

    assert!(toon.contains("data=\"{}\"\n"));
}

#[test]
fn test_convert_nested_array() {
    let converter = Converter::new(false);

    // {"matrix": [[1, 2], [3, 4]]}
    let json = object(vec![(
        "matrix",
        JsonValue::Array(vec![
            JsonValue::Array(vec![num(1.0), num(2.0)]),
            JsonValue::Array(vec![num(3.0), num(4.0)]),
        ]),
    )]);
    let toon = converter.convert(&json).ok().unwrap();

    assert!(toon.contains("matrix.0.0=1\n"));
    assert!(toon.contains("matrix.0.1=2\n"));
    assert!(toon.contains("matrix.1.0=3\n"));
    assert!(toon.contains("matrix.1.1=4\n"));
}

#[test]
fn test_convert_complex_structure() {
    let converter = Converter::new(false);

    let json = object(vec![
        ("name", text("Project")),
        ("version", text("1.0.0")),
        ("authors", JsonValue::Array(vec![text("Alice"), text("Bob")])),
        ("config", object(vec![("debug", JsonValue::Bool(true)), ("timeout", num(30.0))])),
    ]);
    let toon = converter.convert(&json).ok().unwrap();

    assert!(toon.contains("name=\"Project\"\n"));
    assert!(toon.contains("version=\"1.0.0\"\n"));
    assert!(toon.contains("authors.0=\"Alice\"\n"));
    assert!(toon.contains("authors.1=\"Bob\"\n"));
    assert!(toon.contains("config.debug=true\n"));
    assert!(toon.contains("config.timeout=30\n"));
}

#[test]
fn test_top_level_array() {
    let converter = Converter::new(false);

    // [1, 2, 3]
    let json = JsonValue::Array(vec![num(1.0), num(2.0), num(3.0)]);
    let toon = converter.convert(&json).ok().unwrap();

    assert!(toon.contains("0=1\n"));
    assert!(toon.contains("1=2\n"));
    assert!(toon.contains("2=3\n"));
}

#[test]
fn test_top_level_primitive() {
    let converter = Converter::new(false);

    // "hello"
    let json = text("hello");
    let toon = converter.convert(&json).ok().unwrap();

    assert_eq!(toon, "=\"hello\"\n");
}

#[test]
fn key_paths_are_exact() {
    // {"a":{"b":[1,2]}}
    let json = object(vec![("a", object(vec![("b", JsonValue::Array(vec![num(1.0), num(2.0)]))]))]);
    let toon = Converter::new(false).convert(&json).ok().unwrap();
    assert_eq!(toon, "a.b.0=1\na.b.1=2\n");
}

#[test]
fn empty_containers_become_quoted_sentinels() {
    let json = object(vec![("items", JsonValue::Array(vec![])), ("data", JsonValue::Object(vec![]))]);
    let toon = Converter::new(false).convert(&json).ok().unwrap();
    assert_eq!(toon, "items=\"[]\"\ndata=\"{}\"\n");
    let root = Converter::new(false).convert(&JsonValue::Array(vec![])).ok().unwrap();
    assert_eq!(root, "=\"[]\"\n");
}

#[test]
fn integers_and_decimals_are_told_apart() {
    let json = JsonValue::Array(vec![num(30.0), num(98.5)]);
    let toon = Converter::new(false).convert(&json).ok().unwrap();
    assert_eq!(toon, "0=30\n1=98.5\n");
}

#[test]
fn top_level_array_in_order() {
    let json = JsonValue::Array(vec![num(1.0), num(2.0), num(3.0)]);
    let toon = Converter::new(false).convert(&json).ok().unwrap();
    assert_eq!(toon, "0=1\n1=2\n2=3\n");
}

#[test]
fn converting_twice_gives_the_same_text() {
    let json = object(vec![
        ("x", JsonValue::Array(vec![JsonValue::Null, text("a\"b"), num(-1.5)])),
        ("y", object(vec![("z", JsonValue::Bool(false))])),
    ]);
    let converter = Converter::new(true);
    let first = converter.convert(&json).ok().unwrap();
    let second = converter.convert(&json).ok().unwrap();
    assert_eq!(first, second);
    assert_eq!(first, "x.0=null\nx.1=\"a\\\"b\"\nx.2=-1.5\ny.z=false\n");
}

#[test]
fn one_line_per_leaf() {
    // six leaves: 1, [], {}, null, "s", true
    let json = JsonValue::Array(vec![
        num(1.0),
        JsonValue::Array(vec![]),
        object(vec![("e", JsonValue::Object(vec![])), ("n", JsonValue::Null)]),
        JsonValue::Array(vec![text("s"), JsonValue::Bool(true)]),
    ]);
    let toon = Converter::new(false).convert(&json).ok().unwrap();
    assert_eq!(toon.lines().count(), 6);
    assert_eq!(toon, "0=1\n1=\"[]\"\n2.e=\"{}\"\n2.n=null\n3.0=\"s\"\n3.1=true\n");
}

#[test]
fn non_finite_number_is_rejected_with_its_text() {
    let json = object(vec![
        ("ok", num(1.0)),
        ("bad", JsonValue::Array(vec![num(f64::INFINITY), num(f64::NAN)])),
    ]);
    let err = Converter::new(false).convert(&json).err().unwrap();
    assert_eq!(err.value, "inf");
    let err = Converter::new(false).convert(&num(f64::NAN)).err().unwrap();
    assert_eq!(err.value, "NaN");
}

#[test]
fn estimate_counts_each_leaf_with_its_key() {
    let converter = Converter::new(false);
    assert_eq!(converter.estimate_size(&JsonValue::Null), 6);
    assert_eq!(converter.estimate_size(&JsonValue::Bool(true)), 7);
    assert_eq!(converter.estimate_size(&num(1.0)), 25);
    assert_eq!(converter.estimate_size(&text("héllo")), 10);
    assert_eq!(converter.estimate_size(&text("a\"b")), 8);
    assert_eq!(converter.estimate_size(&JsonValue::Array(vec![])), 6);
    assert_eq!(converter.estimate_size(&JsonValue::Object(vec![])), 6);
    // {"ab": [null, {}], "c": ""}: "ab.0" + 6, "ab.1" + 6, "c" + 0 + 4
    let json = object(vec![
        ("ab", JsonValue::Array(vec![JsonValue::Null, JsonValue::Object(vec![])])),
        ("c", text("")),
    ]);
    assert_eq!(converter.estimate_size(&json), 10 + 10 + 5);
    let toon = converter.convert(&json).ok().unwrap();
    assert!(toon.len() <= converter.estimate_size(&json));
}

#[test]
fn estimate_is_never_below_the_output() {
    let converter = Converter::new(false);
    let big = 1e300f64;
    assert_eq!(converter.estimate_size(&num(big)), format!("{}", big).len() + 2);
    let values = vec![
        JsonValue::Array(vec![]),
        text("q\"\\\n\r\t"),
        num(big),
        num(-0.5),
        object(vec![("k", JsonValue::Array(vec![JsonValue::Object(vec![]), num(1e-7), text("é\"")]))]),
    ];
    for value in values {
        let toon = converter.convert(&value).ok().unwrap();
        assert!(toon.len() <= converter.estimate_size(&value), "{}", toon);
    }
}
