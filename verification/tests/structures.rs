use hextatui::json::is_json_structure;

fn accepts(s: &str) -> bool {
    is_json_structure(&s.chars().collect::<Vec<char>>())
}

#[test]
fn objects_and_arrays_are_structures() {
    for s in [
        "{}",
        "[]",
        " [ ] ",
        "\t{ }\r\n",
        r#"{"a":1}"#,
        r#"{ "a" : [1, 2.5, -3e+10, 0, 0.0, 1E5], "b": {"c": null} }"#,
        r#"[true,false,null,"x",[],{}]"#,
        r#"["\"\\\/\b\f\n\r\t\u00e9"]"#,
        "[\"\u{e9}\"]",
        r#"[[[[[[]]]]]]"#,
        r#"{"":""}"#,
        r#"[-0]"#,
        r#"{"a":1,"a":2}"#,
    ] {
        assert!(accepts(s), "{s}");
    }
}

#[test]
fn other_texts_are_no_structures() {
    for s in [
        "",
        " ",
        "1",
        "\"a\"",
        "null",
        "true",
        "{",
        "[",
        "]",
        "[1,]",
        "[,1]",
        "[1 2]",
        "{\"a\"}",
        "{\"a\":}",
        "{a:1}",
        "{\"a\":1,}",
        "{'a':1}",
        "[01]",
        "[1.]",
        "[.5]",
        "[1e]",
        "[+1]",
        "[-]",
        "[tru]",
        "[nulll]",
        "[\"a]",
        "[\"\\x\"]",
        "[\"\\u12g4\"]",
        "[\"\t\"]",
        "[]x",
        "[][]",
        "{]",
        "[}",
        "[{]}",
        "x[]",
    ] {
        assert!(!accepts(s), "{s}");
    }
}

#[test]
fn deep_structures_are_followed_to_their_end() {
    let deep = "[".repeat(2000) + &"]".repeat(2000);
    assert!(accepts(&deep));
    assert!(!accepts(&deep[1..]));
    assert!(!accepts(&deep[..3999]));
}
