use stellaris_parser::{
    parse_file, parse_map_key_value_pair, parse_map_kv_list, parse_value, Failure, Value,
};

fn st(x: &str) -> Value {
    Value::Str(x.to_string())
}

fn fl(x: f64) -> Value {
    Value::Float(format!("{:?}", x))
}

fn color(space: &str, a: f64, b: f64, c: f64) -> Value {
    Value::Color(space.to_string(), format!("{:?}", a), format!("{:?}", b), format!("{:?}", c))
}

fn list(items: Vec<Value>) -> Value {
    Value::List(items)
}

fn dict(entries: Vec<(&str, Value)>) -> Value {
    Value::Dict(entries.into_iter().map(|(k, v)| (k.to_string(), v)).collect())
}

fn float_of(t: &str) -> f64 {
    t.parse::<f64>().expect("a float literal")
}

/// Equality of trees in which floats compare by the number they denote and
/// maps compare without regard to the order of their entries.
fn same(a: &Value, b: &Value) -> bool {
    match (a, b) {
        (Value::Float(x), Value::Float(y)) => float_of(x) == float_of(y),
        (Value::Color(s1, a1, b1, c1), Value::Color(s2, a2, b2, c2)) => {
            s1 == s2 && float_of(a1) == float_of(a2) && float_of(b1) == float_of(b2)
                && float_of(c1) == float_of(c2)
        }
        (Value::List(x), Value::List(y)) => {
            x.len() == y.len() && x.iter().zip(y.iter()).all(|(p, q)| same(p, q))
        }
        (Value::Dict(x), Value::Dict(y)) => {
            x.len() == y.len()
                && x.iter().all(|(k, v)| y.iter().any(|(k2, v2)| k == k2 && same(v, v2)))
        }
        _ => a == b,
    }
}

fn assert_value(input: &str, rest: &str, expected: Value) {
    match parse_value(input) {
        Ok((r, v)) => {
            assert_eq!(r, rest, "rest of {:?}", input);
            assert!(same(&v, &expected), "{:?}: got {:?}, expected {:?}", input, v, expected);
        }
        Err(e) => panic!("{:?} did not parse: {:?}", input, e),
    }
}

fn assert_file(input: &str, expected: Value) {
    match parse_file(input) {
        Ok(v) => assert!(same(&v, &expected), "{:?}: got {:?}, expected {:?}", input, v, expected),
        Err(e) => panic!("{:?} did not parse: {:?}", input, e),
    }
}

#[test]
fn test_parse_int() {
    assert_eq!(parse_value("123"), Ok(("".to_string(), Value::Int(123))));
    assert_eq!(parse_value("0"), Ok(("".to_string(), Value::Int(0))));
    assert_eq!(parse_value(" 007"), Ok(("".to_string(), Value::Int(7))));
    assert_eq!(parse_value("-1"), Ok(("".to_string(), Value::Int(-1))));
}

#[test]
fn test_parse_float() {
    assert_value("1.0", "", fl(1.0));
    assert_value("-1.0", "", fl(-1.0));
}

#[test]
fn test_parse_date() {
    assert_eq!(parse_value("2200.04.03"), Ok(("".to_string(), st("2200.04.03"))));
    assert_eq!(parse_value("2243.01.03"), Ok(("".to_string(), st("2243.01.03"))));
    assert_eq!(parse_value("1.1.1"), Ok(("".to_string(), st("1.1.1"))));
}

#[test]
fn test_parse_str() {
    assert_eq!(parse_value("\"word\""), Ok(("".to_string(), st("word"))));
    assert_eq!(
        parse_value("\"This is a full sentence!.?\""),
        Ok(("".to_string(), st("This is a full sentence!.?")))
    );
    assert_eq!(parse_value("\"Unicode ßäöü😂\""), Ok(("".to_string(), st("Unicode ßäöü😂"))));
    assert_eq!(parse_value("\"flag_human_9.dds\""), Ok(("".to_string(), st("flag_human_9.dds"))));
    assert_eq!(parse_value(r#""\"Escaped\"""#), Ok(("".to_string(), st(r#"\"Escaped\""#))));
}

#[test]
fn test_parse_unquoted_str() {
    assert_eq!(parse_value("traits"), Ok(("".to_string(), st("traits"))));
    assert_eq!(
        parse_value("target:debris_field_01"),
        Ok(("".to_string(), st("target:debris_field_01")))
    );
}

#[test]
fn test_parse_list() {
    assert_eq!(parse_value("{}"), Ok(("".to_string(), list(vec![]))));
    assert_eq!(parse_value("{1}"), Ok(("".to_string(), list(vec![Value::Int(1)]))));
    assert_eq!(
        parse_value("{1 2\t3\n4}"),
        Ok((
            "".to_string(),
            list(vec![Value::Int(1), Value::Int(2), Value::Int(3), Value::Int(4)])
        ))
    );
    assert_eq!(
        parse_value("{1 \"text\" 3}"),
        Ok(("".to_string(), list(vec![Value::Int(1), st("text"), Value::Int(3)])))
    );
    assert_eq!(
        parse_value("{1 {\"inner\"} 3}"),
        Ok((
            "".to_string(),
            list(vec![Value::Int(1), list(vec![st("inner")]), Value::Int(3)])
        ))
    );
}

#[test]
fn test_parse_map() {
    assert_value("{a.1=2}", "", dict(vec![("a.1", Value::Int(2))]));
    assert_file(
        r#"key1=value1
                key2={ list of values }
                key3={ {} {1 2 3} }"#,
        dict(vec![
            ("key1", st("value1")),
            ("key2", list(vec![st("list"), st("of"), st("values")])),
            (
                "key3",
                list(vec![list(vec![]), list(vec![Value::Int(1), Value::Int(2), Value::Int(3)])]),
            ),
        ]),
    );
    assert_value(
        "{2=2243.01.03 9=2243.01.10 12=2243.01.13}",
        "",
        dict(vec![("2", st("2243.01.03")), ("9", st("2243.01.10")), ("12", st("2243.01.13"))]),
    );
    assert_value("{x=1\ny=73.0}", "", dict(vec![("x", Value::Int(1)), ("y", fl(73.0))]));
    assert_value(
        "{x=1 y={x=1 y=73.0 z=\"asdf\"\na={\"Anniversary Portraits\"\n \t\"Apocalypse\"}}}",
        "",
        dict(vec![
            ("x", Value::Int(1)),
            (
                "y",
                dict(vec![
                    ("x", Value::Int(1)),
                    ("y", fl(73.0)),
                    ("z", st("asdf")),
                    ("a", list(vec![st("Anniversary Portraits"), st("Apocalypse")])),
                ]),
            ),
        ]),
    );
    let record = |id: i64| {
        list(vec![
            Value::Int(id),
            dict(vec![("intel", Value::Int(0)), ("stale_intel", list(vec![]))]),
        ])
    };
    assert_value(
        "{intel_manager={ intel={ { 13 { intel=0 stale_intel={} } } { 62 {intel=0 stale_intel={}}} { 63 {intel=0 stale_intel={}}} }}}",
        "",
        dict(vec![(
            "intel_manager",
            dict(vec![("intel", list(vec![record(13), record(62), record(63)]))]),
        )]),
    );
    assert_value(
        "{intel_manager={ intel={ { 67 { intel=10 stale_intel={ } } } } }}",
        "",
        dict(vec![(
            "intel_manager",
            dict(vec![(
                "intel",
                list(vec![list(vec![
                    Value::Int(67),
                    dict(vec![("intel", Value::Int(10)), ("stale_intel", list(vec![]))]),
                ])]),
            )]),
        )]),
    );
}

#[test]
fn test_parse_map_repeated_key() {
    assert_value(
        r#"{x=1 x=1 y=1 y=2 z=1 z="asdf"}"#,
        "",
        dict(vec![
            ("x", list(vec![Value::Int(1), Value::Int(1)])),
            ("y", list(vec![Value::Int(1), Value::Int(2)])),
            ("z", list(vec![Value::Int(1), st("asdf")])),
        ]),
    );
    let triple = |n: i64| list(vec![Value::Int(n), Value::Int(n), Value::Int(n)]);
    assert_value(
        "{x={1 1 1} x={2 2 2} x={3 3 3}}",
        "",
        dict(vec![("x", list(vec![triple(1), triple(2), triple(3)]))]),
    );
}

#[test]
fn test_deep_nested_object() {
    let test_depth = 250;
    let test_input =
        format!("outer_key={}{}{}", "{".repeat(test_depth), "key=value", "}".repeat(test_depth));
    parse_file(test_input.as_str()).expect("Should parse");
}

#[test]
fn test_nan_in_value() {
    let test_input = "1=nano_shipyard";
    parse_file(test_input).expect("Should parse");
}

#[test]
fn test_escaped_backslash() {
    let test_input = "prefix=\"GATE \\\\\"";
    parse_file(test_input).expect("Should parse");
}

#[test]
fn test_skipped_key_in_mapping() {
    assert_eq!(
        parse_map_key_value_pair("key=other_key=value_1").expect("asdf"),
        ("".to_string(), ("key".to_string(), st("value_1")))
    );
    assert_eq!(
        parse_map_kv_list("key=other_key=value_2").expect("asdf"),
        ("".to_string(), vec![("key".to_string(), st("value_2"))])
    );
    assert_file("key=other_key=value", dict(vec![("key", st("value"))]));
    let save_content = r#"expired=yes
        event_id=					scope={
        type=none
        id=0
        random={ 0 3991148998 }
        }"#;
    assert_file(
        save_content,
        dict(vec![
            ("expired", st("yes")),
            (
                "event_id",
                dict(vec![
                    ("type", st("none")),
                    ("id", Value::Int(0)),
                    ("random", list(vec![Value::Int(0), Value::Int(3991148998)])),
                ]),
            ),
        ]),
    );
}

#[test]
fn test_parse_file() {
    assert_file(
        r#"
            required_dlcs={
                "Ancient Relics Story Pack"
                "Anniversary Portraits"
                "Apocalypse"
            }"#,
        dict(vec![(
            "required_dlcs",
            list(vec![
                st("Ancient Relics Story Pack"),
                st("Anniversary Portraits"),
                st("Apocalypse"),
            ]),
        )]),
    );
    assert_file(
        r#"
            ship_names={
                "HUMAN1_SHIP_Drake"=1
                "HUMAN1_SHIP_Shenandoah"=1
                "HUMAN1_SHIP_Chaoyang"=1
            }"#,
        dict(vec![(
            "ship_names",
            dict(vec![
                ("HUMAN1_SHIP_Drake", Value::Int(1)),
                ("HUMAN1_SHIP_Shenandoah", Value::Int(1)),
                ("HUMAN1_SHIP_Chaoyang", Value::Int(1)),
            ]),
        )]),
    );
    assert_file(
        r#"
            flag={
                icon={
                    category="human"
                    file="flag_human_9.dds"
                }
                background={
                    category="backgrounds"
                    file="00_solid.dds"
                }
                colors={
                    "blue"
                    "black"
                    "null"
                    "null"
                }
            }"#,
        dict(vec![(
            "flag",
            dict(vec![
                ("icon", dict(vec![("category", st("human")), ("file", st("flag_human_9.dds"))])),
                (
                    "background",
                    dict(vec![("category", st("backgrounds")), ("file", st("00_solid.dds"))]),
                ),
                ("colors", list(vec![st("blue"), st("black"), st("null"), st("null")])),
            ]),
        )]),
    );
    assert_file(
        r#"intel={ { 77 { intel=10 stale_intel={ } } } }"#,
        dict(vec![(
            "intel",
            list(vec![list(vec![
                Value::Int(77),
                dict(vec![("intel", Value::Int(10)), ("stale_intel", list(vec![]))]),
            ])]),
        )]),
    );
    assert_file(
        r#"species_bio="Description contains a \"quoted\" word."
                   name_list="MAM2"
                   gender=not_set
                   trait="trait_resilient""#,
        dict(vec![
            ("species_bio", st(r#"Description contains a \"quoted\" word."#)),
            ("name_list", st("MAM2")),
            ("gender", st("not_set")),
            ("trait", st("trait_resilient")),
        ]),
    );
    assert_file("color = rgb { 1 2 3 }", dict(vec![("color", color("rgb", 1.0, 2.0, 3.0))]));
}

#[test]
fn whitespace_only_document_fails() {
    assert_eq!(parse_file(" \t\r\n  "), Err("Parsing failed".to_string()));
    assert_eq!(parse_file(""), Err("Parsing failed".to_string()));
}

#[test]
fn trailing_input_is_reported() {
    assert_eq!(parse_file("a=1 }x"), Err("}x".to_string()));
    assert_eq!(parse_file("a=1 \n\t "), Ok(dict(vec![("a", Value::Int(1))])));
}

#[test]
fn parsed_document_is_a_map_with_unique_keys() {
    let v = parse_file("a=1 b={ c=2 c=3 } a=4").expect("parses");
    match &v {
        Value::Dict(entries) => {
            assert_eq!(entries.len(), 2);
            assert_eq!(entries[0], ("a".to_string(), list(vec![Value::Int(1), Value::Int(4)])));
            assert_eq!(
                entries[1],
                ("b".to_string(), dict(vec![("c", list(vec![Value::Int(2), Value::Int(3)]))]))
            );
        }
        other => panic!("not a map: {:?}", other),
    }
}

#[test]
fn integer_is_never_a_float() {
    assert_eq!(parse_value("123"), Ok(("".to_string(), Value::Int(123))));
    assert_eq!(parse_value("+42 x"), Ok((" x".to_string(), Value::Int(42))));
    assert_eq!(parse_value("5."), Ok(("".to_string(), Value::Float("5.".to_string()))));
    assert_eq!(parse_value("1e5"), Ok(("".to_string(), Value::Float("1e5".to_string()))));
}

#[test]
fn integer_out_of_range_is_a_float() {
    assert_eq!(
        parse_value("9223372036854775807"),
        Ok(("".to_string(), Value::Int(9223372036854775807)))
    );
    assert_eq!(
        parse_value("-9223372036854775808"),
        Ok(("".to_string(), Value::Int(-9223372036854775808)))
    );
    assert_eq!(
        parse_value("9223372036854775808"),
        Ok(("".to_string(), Value::Float("9223372036854775808".to_string())))
    );
}

#[test]
fn date_is_kept_verbatim() {
    assert_eq!(parse_value("2200.04.03 x"), Ok((" x".to_string(), st("2200.04.03"))));
    assert_eq!(parse_value("..."), Ok((".".to_string(), st(".."))));
}

#[test]
fn nan_prefix_is_an_identifier() {
    assert_file("1=nano_shipyard", dict(vec![("1", st("nano_shipyard"))]));
    assert_eq!(parse_value("nan"), Ok(("".to_string(), st("nan"))));
}

#[test]
fn infinity_word_is_a_float() {
    assert_eq!(parse_value("inf"), Ok(("".to_string(), Value::Float("inf".to_string()))));
}

#[test]
fn escaped_backslash_string_is_one_value() {
    assert_file("prefix=\"GATE \\\\\"", dict(vec![("prefix", st("GATE \\\\"))]));
}

#[test]
fn exponent_without_digits_aborts() {
    assert_eq!(parse_value("1ex"), Err(Failure::Abort));
    assert_eq!(parse_file("a=1ex"), Err("Parsing failed".to_string()));
}

#[test]
fn unterminated_string_aborts() {
    assert_eq!(parse_value("\"abc"), Err(Failure::Abort));
    assert_eq!(parse_file("a=\"abc"), Err("Parsing failed".to_string()));
}

#[test]
fn bad_escape_backtracks() {
    assert_eq!(parse_value("\"a\\n\""), Err(Failure::Backtrack));
}

#[test]
fn no_value_backtracks() {
    assert_eq!(parse_value("}"), Err(Failure::Backtrack));
    assert_eq!(parse_map_key_value_pair("a b"), Err(Failure::Backtrack));
    assert_eq!(parse_map_kv_list("=x"), Err(Failure::Backtrack));
}

#[test]
fn hsv_color_and_identifier_prefix() {
    assert_eq!(
        parse_value("hsv { 0.5 1 -2 }"),
        Ok((
            "".to_string(),
            Value::Color("hsv".to_string(), "0.5".to_string(), "1".to_string(), "-2".to_string())
        ))
    );
    assert_eq!(parse_value("rgba"), Ok(("".to_string(), st("rgba"))));
}

#[test]
fn nested_flag_is_local_to_each_map() {
    assert_file(
        "a={ x={1} x={2} } b={ x={3} x={4} }",
        dict(vec![
            ("a", dict(vec![("x", list(vec![list(vec![Value::Int(1)]), list(vec![Value::Int(2)])]))])),
            ("b", dict(vec![("x", list(vec![list(vec![Value::Int(3)]), list(vec![Value::Int(4)])]))])),
        ]),
    );
}

#[test]
fn first_incoming_list_wraps_then_values_append() {
    assert_file(
        "x=1 x=2 x={3}",
        dict(vec![(
            "x",
            list(vec![list(vec![Value::Int(1), Value::Int(2)]), list(vec![Value::Int(3)])]),
        )]),
    );
    assert_file(
        "x={1} x={2} x={3} x=4",
        dict(vec![(
            "x",
            list(vec![
                list(vec![Value::Int(1)]),
                list(vec![Value::Int(2)]),
                list(vec![Value::Int(3)]),
                Value::Int(4),
            ]),
        )]),
    );
}

#[test]
fn keys_compare_by_text() {
    assert_file(
        "\"1\"=a 1=b",
        dict(vec![("1", list(vec![st("a"), st("b")]))]),
    );
}

#[test]
fn wide_map_folds_each_key() {
    let n = 20000;
    let mut text = String::new();
    for i in 0..n {
        text.push_str(&format!("{}={{ id={} }}\n", i, i));
    }
    for i in 0..n {
        text.push_str(&format!("{}=x\n", i));
    }
    match parse_file(&text).expect("parses") {
        Value::Dict(entries) => {
            assert_eq!(entries.len(), n);
            for (i, (k, v)) in entries.iter().enumerate() {
                assert_eq!(k, &i.to_string());
                assert_eq!(
                    v,
                    &list(vec![dict(vec![("id", Value::Int(i as i64))]), st("x")])
                );
            }
        }
        other => panic!("not a map: {:?}", other),
    }
}

#[test]
fn simple_assignment() {
    assert_eq!(parse_file("key=value"), Ok(dict(vec![("key", st("value"))])));
}

#[test]
fn nesting_deeper_than_256_levels() {
    let depth = 300;
    let maps = format!("k={}a=1{}", "{ x=".repeat(depth), " }".repeat(depth));
    parse_file(&maps).expect("nested maps parse");
    let lists = format!("k={}1{}", "{".repeat(depth), "}".repeat(depth));
    let mut v = match parse_file(&lists).expect("nested lists parse") {
        Value::Dict(mut entries) => entries.pop().expect("one entry").1,
        other => panic!("not a map: {:?}", other),
    };
    let mut levels = 0;
    while let Value::List(mut items) = v {
        assert_eq!(items.len(), 1);
        v = items.pop().expect("one item");
        levels += 1;
    }
    assert_eq!(levels, depth);
    assert_eq!(v, Value::Int(1));
}

#[test]
fn date_after_whitespace_is_a_date() {
    assert_eq!(parse_value(" 1.1.1"), Ok(("".to_string(), st("1.1.1"))));
    assert_eq!(parse_value("\t 2200.04.03 x"), Ok((" x".to_string(), st("2200.04.03"))));
}

#[test]
fn nan_in_any_case_is_never_a_float() {
    assert_eq!(parse_value("NaN"), Ok(("".to_string(), st("NaN"))));
    assert_eq!(parse_value(" NAN"), Ok(("".to_string(), st("NAN"))));
    assert_eq!(parse_value("nAn"), Ok(("".to_string(), st("nAn"))));
    assert_eq!(parse_value("rgb { NaN 1 2 }"), Ok((" { NaN 1 2 }".to_string(), st("rgb"))));
    assert_eq!(parse_file("a=NaN"), Ok(dict(vec![("a", st("NaN"))])));
}
