use grafton_config::{
    convert_value_to_string, expand_array, expand_object, expand_string, expand_token,
    expand_tokens, expand_tokens_helper, finalize_expansion, format_new_array_path,
    format_new_path, get_value_from_path, process_backslashes, Error, Value,
    TOKEN_RESOLVE_DEPTH_LIMIT,
};

fn s(t: &str) -> Value {
    Value::String(t.to_string())
}

fn num(t: &str) -> Value {
    Value::Number(t.to_string())
}

fn arr(items: Vec<Value>) -> Value {
    Value::Array(items)
}

fn obj(entries: Vec<(&str, Value)>) -> Value {
    Value::Object(entries.into_iter().map(|(k, v)| (k.to_string(), v)).collect())
}

fn entries(v: &Value) -> &Vec<(String, Value)> {
    match v {
        Value::Object(o) => o,
        _ => panic!("not an object"),
    }
}

fn items(v: &Value) -> &Vec<Value> {
    match v {
        Value::Array(a) => a,
        _ => panic!("not an array"),
    }
}

fn run(input: Value, expected: Value) {
    let result = expand_tokens(&input).expect("expand_tokens failed unexpectedly");
    assert_eq!(result, expected, "Failed on input: {:?}", input);
}

/// `{level0: {next: "${level0}", level1: {next: "${level1}", ...}}}` with
/// `levels` levels.
fn nested_self_references(levels: usize) -> Value {
    let mut inner: Option<(String, Value)> = None;
    for i in (0..levels).rev() {
        let key = format!("level{i}");
        let mut next = vec![("next".to_string(), Value::String(format!("${{{key}}}")))];
        if let Some(child) = inner.take() {
            next.push(child);
        }
        inner = Some((key, Value::Object(next)));
    }
    Value::Object(inner.into_iter().collect())
}

#[test]
fn test_format_new_array_path() {
    let test_cases = vec![
        ("", 0, "0"),
        ("", 5, "5"),
        ("parent", 0, "parent[0]"),
        ("parent", 5, "parent[5]"),
        ("parent.child", 0, "parent.child[0]"),
        ("parent.child", 5, "parent.child[5]"),
        ("parent.child[2]", 0, "parent.child[2][0]"),
        ("parent.child[2]", 5, "parent.child[2][5]"),
    ];

    for (current_path, index, expected) in test_cases {
        let result = format_new_array_path(current_path, index);
        assert_eq!(result, expected);
    }
}

#[test]
fn test_format_new_array_path_multi_digit() {
    assert_eq!(format_new_array_path("", 1234), "1234");
    assert_eq!(format_new_array_path("a", 10), "a[10]");
    assert_eq!(format_new_array_path("a", 18446744073709551615), "a[18446744073709551615]");
}

#[test]
fn test_format_new_path() {
    assert_eq!(format_new_path("", "key"), "key");
    assert_eq!(format_new_path("parent", "key"), "parent.key");
    assert_eq!(format_new_path("a[1]", "b"), "a[1].b");
}

#[test]
fn test_get_value_from_path_basic() {
    let level3 = obj(vec![("target", s("found me"))]);
    let level2 = obj(vec![("level3", level3)]);
    let level1 = obj(vec![("level2", level2)]);
    let json_data = obj(vec![("level1", level1)]);

    let level1_ref = &entries(&json_data)[0].1;
    let level2_ref = &entries(level1_ref)[0].1;
    let binding = s("found me");
    let test_cases: Vec<(Vec<&str>, Option<&Value>)> = vec![
        (vec!["level1", "level2", "level3", "target"], Some(&binding)),
        (vec!["level1", "level2"], Some(level2_ref)),
        (vec!["level1"], Some(level1_ref)),
        (vec!["level1", "level2", "nonexistent"], None),
        (vec!["nonexistent"], None),
        (vec![], Some(&json_data)),
    ];

    for (path, expected) in test_cases {
        let result = get_value_from_path(&path, &json_data);
        assert_eq!(result, expected);
    }
}

#[test]
fn test_get_value_from_path_edge_cases() {
    let json_data_edge = obj(vec![
        (
            "level1",
            obj(vec![("", obj(vec![("target", s("found me"))])), ("null_value", Value::Null)]),
        ),
        ("empty_string", s("")),
        ("null_key", Value::Null),
    ]);

    let empty_key_ref = &entries(&entries(&json_data_edge)[0].1)[0].1;
    let binding = s("");
    let null = Value::Null;
    let test_cases_edge: Vec<(Vec<&str>, Option<&Value>)> = vec![
        (vec!["level1", ""], Some(empty_key_ref)),
        (vec!["level1", "null_value"], Some(&null)),
        (vec!["empty_string"], Some(&binding)),
        (vec!["null_key"], Some(&null)),
    ];

    for (path, expected) in test_cases_edge {
        let result = get_value_from_path(&path, &json_data_edge);
        assert_eq!(result, expected);
    }
}

#[test]
fn test_get_value_from_path_arrays() {
    let json_data_array = obj(vec![(
        "level1",
        obj(vec![(
            "array",
            arr(vec![obj(vec![("level2", s("value0"))]), obj(vec![("level2", s("value1"))])]),
        )]),
    )]);

    let array_ref = items(&entries(&entries(&json_data_array)[0].1)[0].1);
    let test_cases_array: Vec<(Vec<&str>, Option<&Value>)> = vec![
        (vec!["level1", "array", "0", "level2"], Some(&entries(&array_ref[0])[0].1)),
        (vec!["level1", "array", "1", "level2"], Some(&entries(&array_ref[1])[0].1)),
    ];

    for (path, expected) in test_cases_array {
        let result = get_value_from_path(&path, &json_data_array);
        assert_eq!(result, expected);
    }
    assert_eq!(
        get_value_from_path(&["level1", "array", "0", "level2"], &json_data_array),
        Some(&s("value0"))
    );
    assert_eq!(get_value_from_path(&["level1", "array", "2"], &json_data_array), None);
}

#[test]
fn test_get_value_from_path_mixed_types() {
    let json_data_mixed = obj(vec![
        (
            "array",
            arr(vec![num("1"), s("two"), Value::Bool(true), Value::Null, obj(vec![("five", num("5"))])]),
        ),
        ("object", obj(vec![("nested_array", arr(vec![num("10"), obj(vec![("key", s("value"))])]))])),
    ]);

    let binding_a = num("1");
    let binding_b = s("two");
    let binding_c = num("5");
    let binding_d = num("10");
    let binding_e = s("value");
    let t = Value::Bool(true);
    let null = Value::Null;
    let test_cases_mixed: Vec<(Vec<&str>, Option<&Value>)> = vec![
        (vec!["array", "0"], Some(&binding_a)),
        (vec!["array", "1"], Some(&binding_b)),
        (vec!["array", "2"], Some(&t)),
        (vec!["array", "3"], Some(&null)),
        (vec!["array", "4", "five"], Some(&binding_c)),
        (vec!["object", "nested_array", "0"], Some(&binding_d)),
        (vec!["object", "nested_array", "1", "key"], Some(&binding_e)),
    ];

    for (path, expected) in test_cases_mixed {
        let result = get_value_from_path(&path, &json_data_mixed);
        assert_eq!(result, expected);
    }
}

#[test]
fn test_get_value_from_path_index_forms() {
    let data = obj(vec![
        ("list", arr(vec![s("a"), s("b")])),
        ("map", obj(vec![("0", s("zero"))])),
    ]);
    assert_eq!(get_value_from_path(&["list", "+1"], &data), Some(&s("b")));
    assert_eq!(get_value_from_path(&["list", "x"], &data), None);
    assert_eq!(get_value_from_path(&["list", "-1"], &data), None);
    assert_eq!(get_value_from_path(&["list", "99999999999999999999999"], &data), None);
    assert_eq!(get_value_from_path(&["map", "0"], &data), Some(&s("zero")));
    assert_eq!(get_value_from_path(&["list", "0", "deeper"], &data), None);
}

#[test]
fn test_expand_functions() {
    let root = obj(vec![
        ("name", s("John")),
        ("greeting", s("Hello, ${name}!")),
        ("info", obj(vec![("greeting", s("Hello, ${name}!"))])),
        ("array", arr(vec![s("Hello, ${name}!"), s("${name} is here.")])),
    ]);

    assert_eq!(expand_string("Hello, ${name}!", &root, 0, "").unwrap(), s("Hello, John!"));

    let info = entries(&root)[2].1.deep_copy();
    assert_eq!(
        expand_object(entries(&info), &root, 0, "").unwrap(),
        obj(vec![("greeting", s("Hello, John!"))])
    );

    let array = entries(&root)[3].1.deep_copy();
    assert_eq!(
        expand_array(items(&array), &root, 0, "").unwrap(),
        arr(vec![s("Hello, John!"), s("John is here.")])
    );

    assert_eq!(expand_token("name", &root, "name", 0).unwrap(), "John");
    assert_eq!(expand_token("non_existent", &root, "non_existent", 0).unwrap(), "${non_existent}");
    assert_eq!(
        finalize_expansion("Hello, John!".to_string(), false, 0, "").unwrap(),
        s("Hello, John!")
    );
    assert!(finalize_expansion("Hello, ${name}".to_string(), true, 1, "name").is_err());

    let convert_cases = vec![
        (s("string"), Some("string")),
        (num("123"), Some("123")),
        (Value::Bool(true), Some("true")),
        (Value::Null, Some("null")),
        (obj(vec![("key", s("value"))]), None),
    ];

    for (input, expected) in convert_cases {
        assert_eq!(convert_value_to_string(input).as_deref(), expected);
    }
}

#[test]
fn test_expand_token_compound_value_stays_literal() {
    let root = obj(vec![("info", obj(vec![("a", s("b"))])), ("list", arr(vec![num("1")]))]);
    assert_eq!(expand_token("info", &root, "x.info", 1).unwrap(), "${info}");
    assert_eq!(expand_token("list", &root, "x.list", 1).unwrap(), "${list}");
    run(
        obj(vec![("info", obj(vec![("a", s("b"))])), ("msg", s("see ${info}"))]),
        obj(vec![("info", obj(vec![("a", s("b"))])), ("msg", s("see ${info}"))]),
    );
}

#[test]
fn test_process_backslashes() {
    let test_cases = vec![
        ("", (String::new(), true)),
        ("\\\\", ("\\".to_string(), true)),
        ("\\\\\\\\", ("\\\\".to_string(), true)),
        ("\\\\\\\\\\", ("\\\\\\".to_string(), false)),
        ("\\\\\\\\\\\\", ("\\\\\\".to_string(), true)),
    ];

    for (input, expected) in test_cases {
        let result = process_backslashes(input);
        assert_eq!(result, expected, "Failed on input: {input:?}");
    }
}

#[test]
fn test_process_backslashes_single() {
    assert_eq!(process_backslashes("\\"), ("\\".to_string(), false));
}

#[test]
fn test_single_backslash_escaping() {
    run(
        obj(vec![("escaped_token", s("This is a \\${token}"))]),
        obj(vec![("escaped_token", s("This is a ${token}"))]),
    );
}

#[test]
fn test_single_backslash_escaping_of_resolvable_token() {
    run(
        obj(vec![("token", s("T")), ("escaped", s("\\${token}")), ("live", s("\\\\${token}"))]),
        obj(vec![("token", s("T")), ("escaped", s("${token}")), ("live", s("\\T"))]),
    );
}

#[test]
fn test_three_backslashes_escape() {
    run(
        obj(vec![("token", s("T")), ("v", s("\\\\\\${token}"))]),
        obj(vec![("token", s("T")), ("v", s("\\${token}"))]),
    );
}

#[test]
fn test_multiple_backslashes_before_tokens() {
    run(
        obj(vec![
            ("double_backslash_token", s("This is a \\\\${token}")),
            ("quad_backslash_token", s("This is a \\\\\\\\${token}")),
        ]),
        obj(vec![
            ("double_backslash_token", s("This is a \\${token}")),
            ("quad_backslash_token", s("This is a \\\\${token}")),
        ]),
    );
}

#[test]
fn test_backslashes_in_arrays() {
    run(
        obj(vec![(
            "array_escapes",
            arr(vec![s("\\${token1}"), s("\\\\${token2}"), s("\\\\\\\\${token3}")]),
        )]),
        obj(vec![(
            "array_escapes",
            arr(vec![s("${token1}"), s("\\${token2}"), s("\\\\${token3}")]),
        )]),
    );
}

#[test]
fn test_complex_escapes_with_mixed_backslashes() {
    run(
        obj(vec![("mixed_escapes", s("Mix of backslashes: \\\\${token1} and \\\\\\\\\\${token2}"))]),
        obj(vec![("mixed_escapes", s("Mix of backslashes: \\${token1} and \\\\${token2}"))]),
    );
}

#[test]
fn test_invalid_token_formatting() {
    let test_cases = vec![
        (
            obj(vec![("name", s("John Doe")), ("alias", s("${ name}"))]),
            obj(vec![("name", s("John Doe")), ("alias", s("${ name}"))]),
        ),
        (
            obj(vec![("name", s("John Doe")), ("alias", s("${name"))]),
            obj(vec![("name", s("John Doe")), ("alias", s("${name"))]),
        ),
    ];

    for (input, expected) in test_cases {
        run(input, expected);
    }
}

#[test]
fn test_line_break_inside_braces_is_not_a_placeholder() {
    run(
        obj(vec![("name", s("N")), ("v", s("${na\nme} ${name}"))]),
        obj(vec![("name", s("N")), ("v", s("${na\nme} N"))]),
    );
}

#[test]
fn test_nested_tokens() {
    run(
        obj(vec![
            ("firstName", s("John")),
            ("lastName", s("Doe")),
            ("fullName", s("${firstName} ${lastName}")),
            ("greeting", s("Hello, ${fullName}!")),
        ]),
        obj(vec![
            ("firstName", s("John")),
            ("lastName", s("Doe")),
            ("fullName", s("John Doe")),
            ("greeting", s("Hello, John Doe!")),
        ]),
    );
}

#[test]
fn test_non_existent_path() {
    run(
        obj(vec![("name", s("John")), ("message", s("Hello, ${nonExistentPath}!"))]),
        obj(vec![("name", s("John")), ("message", s("Hello, ${nonExistentPath}!"))]),
    );
}

#[test]
fn test_missing_path_is_inert() {
    run(obj(vec![("msg", s("Hi ${missing}"))]), obj(vec![("msg", s("Hi ${missing}"))]));
}

#[test]
fn test_special_characters_in_path() {
    run(
        obj(vec![
            ("data", obj(vec![("special key", s("value"))])),
            ("message", s("This is a ${data.special key}.")),
        ]),
        obj(vec![
            ("data", obj(vec![("special key", s("value"))])),
            ("message", s("This is a value.")),
        ]),
    );
}

#[test]
fn test_replacement_with_various_types() {
    let scenarios = vec![
        (
            obj(vec![("age", num("30")), ("message", s("I am ${age} years old."))]),
            obj(vec![("age", num("30")), ("message", s("I am 30 years old."))]),
        ),
        (
            obj(vec![("valid", Value::Bool(true)), ("message", s("The statement is ${valid}."))]),
            obj(vec![("valid", Value::Bool(true)), ("message", s("The statement is true."))]),
        ),
        (
            obj(vec![("nothing", Value::Null), ("message", s("There is ${nothing} here."))]),
            obj(vec![("nothing", Value::Null), ("message", s("There is null here."))]),
        ),
    ];

    for (input, expected) in scenarios {
        run(input, expected);
    }
}

#[test]
fn test_type_coercion_short_message_and_false() {
    run(
        obj(vec![("age", num("30")), ("msg", s("I am ${age}.")), ("off", Value::Bool(false)), ("o", s("${off}"))]),
        obj(vec![("age", num("30")), ("msg", s("I am 30.")), ("off", Value::Bool(false)), ("o", s("false"))]),
    );
}

#[test]
fn test_substitution_correctness() {
    run(obj(vec![("a", s("X")), ("b", s("${a}"))]), obj(vec![("a", s("X")), ("b", s("X"))]));
}

#[test]
fn test_token_value_has_unused_tokens() {
    run(
        obj(vec![("firstName", s("John")), ("unused", s("${lastName}")), ("name", s("${firstName}"))]),
        obj(vec![("firstName", s("John")), ("unused", s("${lastName}")), ("name", s("John"))]),
    );
}

#[test]
#[should_panic(expected = "TokenRecursionLimitExceeded")]
fn test_deeply_nested_recursion_should_panic() {
    let deep = nested_self_references(TOKEN_RESOLVE_DEPTH_LIMIT);
    expand_tokens_helper(&deep, &deep, 0, "").unwrap();
}

#[test]
#[should_panic(expected = "TokenRecursionLimitExceeded")]
fn test_deeply_nested_objects_with_mixed_types() {
    let mut inner: Vec<(String, Value)> = vec![("final".to_string(), Value::Bool(true))];
    for i in (0..TOKEN_RESOLVE_DEPTH_LIMIT).rev() {
        let key = format!("level{i}");
        let mut next = vec![(
            "next".to_string(),
            Value::Array(vec![Value::String(format!("${{{key}}}"))]),
        )];
        next.extend(inner);
        inner = vec![(key, Value::Object(next))];
    }
    let deep = Value::Object(inner);
    expand_tokens_helper(&deep, &deep, 0, "").unwrap();
}

#[test]
#[should_panic(expected = "TokenRecursionLimitExceeded")]
fn test_multiple_nested_tokens_at_limit() {
    let deep = nested_self_references(TOKEN_RESOLVE_DEPTH_LIMIT);
    expand_tokens_helper(&deep, &deep, 0, "").unwrap();
}

#[test]
fn test_recursive_tokens_across_different_paths() {
    run(
        obj(vec![("a", s("${b}")), ("b", s("${c}")), ("c", s("${d}")), ("d", s("${e}")), ("e", s("final_value"))]),
        obj(vec![
            ("a", s("final_value")),
            ("b", s("final_value")),
            ("c", s("final_value")),
            ("d", s("final_value")),
            ("e", s("final_value")),
        ]),
    );
}

#[test]
fn test_indirect_cycle_fails() {
    let input = obj(vec![("a", s("${b}")), ("b", s("${c}")), ("c", s("${a}"))]);
    match expand_tokens(&input) {
        Err(Error::TokenRecursionLimitExceeded { depth, path, value }) => {
            assert_eq!(depth, 1);
            assert_eq!(path, "a");
            assert_eq!(value, s("${b}"));
        }
        other => panic!("Expected TokenRecursionLimitExceeded error, but got: {other:?}"),
    }
}

#[test]
fn test_complex_structure_with_array_and_objects() {
    run(
        obj(vec![(
            "level1",
            obj(vec![
                ("array", arr(vec![obj(vec![("nested", s("${level1.value1}"))]), s("${level1.value2}")])),
                ("value1", s("nested_value1")),
                ("value2", s("nested_value2")),
            ]),
        )]),
        obj(vec![(
            "level1",
            obj(vec![
                ("array", arr(vec![obj(vec![("nested", s("nested_value1"))]), s("nested_value2")])),
                ("value1", s("nested_value1")),
                ("value2", s("nested_value2")),
            ]),
        )]),
    );
}

#[test]
fn test_array_elements_addressed_by_index() {
    run(
        obj(vec![
            ("list", arr(vec![obj(vec![("field", s("first"))]), s("second")])),
            ("a", s("${list.0.field} and ${list.1}")),
            ("b", arr(vec![s("${list.1}")])),
        ]),
        obj(vec![
            ("list", arr(vec![obj(vec![("field", s("first"))]), s("second")])),
            ("a", s("first and second")),
            ("b", arr(vec![s("second")])),
        ]),
    );
}

#[test]
fn test_token_recursion_limit() {
    let json_obj = obj(vec![("recursion", s("${recursion}"))]);

    let result = expand_tokens(&json_obj);
    assert!(result.is_err(), "Expected an error, but got: {result:?}");

    match result {
        Err(Error::TokenRecursionLimitExceeded { depth, path, value }) => {
            assert_eq!(depth, 1);
            assert_eq!(path, "recursion");
            assert_eq!(value, s("${recursion}"));
        }
        _ => panic!("Expected TokenRecursionLimitExceeded error, but got: {result:?}"),
    }
}

#[test]
fn test_placeholder_naming_its_own_root_location_fails() {
    match expand_tokens(&s("before ${} after")) {
        Err(Error::TokenRecursionLimitExceeded { depth, path, value }) => {
            assert_eq!(depth, 0);
            assert_eq!(path, "");
            assert_eq!(value, s("before ${}"));
        }
        other => panic!("Expected TokenRecursionLimitExceeded error, but got: {other:?}"),
    }
}

#[test]
fn test_deeply_nested_recursion() {
    let deep = nested_self_references(TOKEN_RESOLVE_DEPTH_LIMIT + 1);
    let result = expand_tokens(&deep);
    assert!(result.is_err());
    assert!(matches!(result.unwrap_err(), Error::TokenRecursionLimitExceeded { .. }));
}

#[test]
fn test_nesting_beyond_the_ceiling_fails_without_placeholders() {
    let mut v = s("leaf");
    for _ in 0..TOKEN_RESOLVE_DEPTH_LIMIT + 1 {
        v = obj(vec![("k", v)]);
    }
    match expand_tokens(&v) {
        Err(Error::TokenRecursionLimitExceeded { depth, value, .. }) => {
            assert_eq!(depth, TOKEN_RESOLVE_DEPTH_LIMIT + 1);
            assert_eq!(value, s("leaf"));
        }
        other => panic!("Expected TokenRecursionLimitExceeded error, but got: {other:?}"),
    }
    let mut w = s("leaf");
    for _ in 0..TOKEN_RESOLVE_DEPTH_LIMIT {
        w = obj(vec![("k", w)]);
    }
    let copy = w.deep_copy();
    assert_eq!(expand_tokens(&w).unwrap(), copy);
}

#[test]
fn test_mixed_type_array() {
    run(
        obj(vec![
            (
                "data",
                arr(vec![
                    s("${name}"),
                    num("1"),
                    Value::Bool(true),
                    Value::Null,
                    arr(vec![s("${name}"), s("${age}")]),
                    obj(vec![("alias", s("${name}"))]),
                ]),
            ),
            ("name", s("John")),
            ("age", num("30")),
        ]),
        obj(vec![
            (
                "data",
                arr(vec![
                    s("John"),
                    num("1"),
                    Value::Bool(true),
                    Value::Null,
                    arr(vec![s("John"), s("30")]),
                    obj(vec![("alias", s("John"))]),
                ]),
            ),
            ("name", s("John")),
            ("age", num("30")),
        ]),
    );
}

#[test]
fn test_multiple_nested_paths() {
    run(
        obj(vec![(
            "person",
            obj(vec![
                ("firstName", s("John")),
                ("lastName", s("Doe")),
                ("meta", obj(vec![("alias", s("${person.firstName}-${person.lastName}"))])),
            ]),
        )]),
        obj(vec![(
            "person",
            obj(vec![
                ("firstName", s("John")),
                ("lastName", s("Doe")),
                ("meta", obj(vec![("alias", s("John-Doe"))])),
            ]),
        )]),
    );
}

#[test]
fn test_empty_json() {
    run(obj(vec![]), obj(vec![]));
}

#[test]
fn test_no_placeholders_is_unchanged() {
    let input = obj(vec![
        ("a", s("plain $ text { with } braces")),
        ("b", arr(vec![num("1.5"), Value::Null, Value::Bool(false)])),
        ("c", obj(vec![("d", s("\\ back \\\\ slashes"))])),
    ]);
    let expected = input.deep_copy();
    run(input, expected);
}

#[test]
fn test_array_in_json() {
    run(
        obj(vec![("names", arr(vec![s("${name1}"), s("${name2}")])), ("name1", s("John")), ("name2", s("Doe"))]),
        obj(vec![("names", arr(vec![s("John"), s("Doe")])), ("name1", s("John")), ("name2", s("Doe"))]),
    );
}

#[test]
fn test_mega_case() {
    run(
        obj(vec![(
            "website",
            obj(vec![
                ("bind_address", s("127.0.0.1")),
                (
                    "plugin_info",
                    obj(vec![
                        ("api", obj(vec![("url", s("https://${website.public_hostname}/chatgpt-plugin/openapi.yaml"))])),
                        ("legal_info_url", s("https://${website.public_hostname}/legal")),
                        ("logo_url", s("https://${website.public_hostname}/images/website_logo_500x500.png")),
                    ]),
                ),
                ("public_hostname", s("localhost")),
            ]),
        )]),
        obj(vec![(
            "website",
            obj(vec![
                ("bind_address", s("127.0.0.1")),
                (
                    "plugin_info",
                    obj(vec![
                        ("api", obj(vec![("url", s("https://localhost/chatgpt-plugin/openapi.yaml"))])),
                        ("legal_info_url", s("https://localhost/legal")),
                        ("logo_url", s("https://localhost/images/website_logo_500x500.png")),
                    ]),
                ),
                ("public_hostname", s("localhost")),
            ]),
        )]),
    );
}

#[test]
fn test_deeply_nested_objects() {
    let build = |value: Value| {
        obj(vec![(
            "level1",
            obj(vec![(
                "level2",
                obj(vec![(
                    "level3",
                    obj(vec![(
                        "level4",
                        obj(vec![("level5", obj(vec![("value", value), ("deep", s("nested_value"))]))]),
                    )]),
                )]),
            )]),
        )])
    };
    run(build(s("${level1.level2.level3.level4.level5.deep}")), build(s("nested_value")));
}

#[test]
fn test_large_json_object() {
    let mut large: Vec<(String, Value)> = Vec::new();
    for i in 0..1000 {
        large.push((format!("key{i}"), s("value")));
    }
    let mut expected: Vec<(String, Value)> = Vec::new();
    for (k, v) in &large {
        expected.push((k.clone(), v.deep_copy()));
    }
    large.push(("replace_me".to_string(), s("${replace_with}")));
    large.push(("replace_with".to_string(), s("replaced_value")));
    expected.push(("replace_me".to_string(), s("replaced_value")));
    expected.push(("replace_with".to_string(), s("replaced_value")));
    run(Value::Object(large), Value::Object(expected));
}

#[test]
fn test_long_string_leaf_expands() {
    let filler = "x".repeat(200_000);
    let input = obj(vec![("name", s("N")), ("long", s(&format!("{filler}${{name}}{filler}")))]);
    let expected = obj(vec![("name", s("N")), ("long", s(&format!("{filler}N{filler}")))]);
    run(input, expected);
}
