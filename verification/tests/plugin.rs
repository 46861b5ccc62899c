use qsharp_outline::parser::parse_qsharp;
use qsharp_outline::plugin::{
    detect_language_impl, json_or_error, language_info_for, LanguageInfo, ParserMode, PluginInfo,
    QSharpParser,
};

#[test]
fn the_language_goes_by_the_extension() {
    let cases = [
        ("Bell.qs", "", "qsharp"),
        ("Bell.QS", "", "qsharp"),
        ("main.rs", "", ""),
        ("main.cs", "", ""),
        ("qs", "", ""),
        (".qs", "", "qsharp"),
        ("a.qs.txt", "namespace A {", ""),
        ("Größe.Qs", "", "qsharp"),
    ];
    for (filename, content, language) in cases {
        assert_eq!(detect_language_impl(filename, content), language);
        let detected = QSharpParser::detect_language(filename.to_string(), content.to_string());
        assert_eq!(detected, language);
    }
}

#[test]
fn letters_beyond_ascii_make_no_extension() {
    for name in ["a.q\u{17f}", "a.\u{24e0}s", "a.qß", "a\u{2024}qs", "\u{130}qs", "a.qs\u{307}"] {
        assert_eq!(detect_language_impl(name, ""), "");
    }
    for name in ["\u{130}.qs", "\u{212a}.QS", "\u{3a3}.qS", "\u{3c2}.Qs"] {
        assert_eq!(detect_language_impl(name, ""), "qsharp");
    }
    for c in '\0'..=char::MAX {
        for name in [format!("{}qs", c), format!(".{}s", c), format!(".q{}", c)] {
            let expected = name.to_lowercase().ends_with(".qs");
            assert_eq!(detect_language_impl(&name, "") == "qsharp", expected);
        }
    }
}

#[test]
fn letter_case_of_file_names_is_ignored() {
    for name in ["ÄrgerBell.qs", "ÄrgerBell.Qs", "no.extension", "ı.İ.qS"] {
        let lower = name.to_ascii_lowercase();
        let upper = name.to_ascii_uppercase();
        assert_eq!(detect_language_impl(name, "a"), detect_language_impl(&lower, "b"));
        assert_eq!(detect_language_impl(name, "a"), detect_language_impl(&upper, "c"));
    }
}

#[test]
fn the_plugin_describes_itself() {
    assert_eq!(QSharpParser::get_parser_mode(), ParserMode::FullParse);
    assert_eq!(QSharpParser::grammar_id(), "qsharp");
    assert_eq!(QSharpParser::language_ids(), vec!["qsharp".to_string()]);
    assert_eq!(QSharpParser::trivia_node_types().len(), 0);
    assert_eq!(QSharpParser::priority(), 0);
    assert_eq!(QSharpParser::preprocess_source(" a\r\n".to_string()), " a\r\n");
}

#[test]
fn the_examples_are_the_same_for_every_language() {
    let old = "namespace Demo {\n    open Microsoft.Quantum.Intrinsic;\n\n    operation SayHello() : Unit {\n        Message(\"Hello, World!\");\n    }\n}\n";
    let new = "namespace Demo {\n    open Microsoft.Quantum.Intrinsic;\n    open Microsoft.Quantum.Canon;\n\n    operation SayHello(name : String) : Unit {\n        Message($\"Hello, {name}!\");\n    }\n\n    operation FlipBit() : Result {\n        use q = Qubit();\n        X(q);\n        let result = M(q);\n        Reset(q);\n        return result;\n    }\n}\n";
    for language in ["qsharp", "", "python"] {
        let pair = QSharpParser::example(language.to_string());
        assert_eq!(pair.old, old);
        assert_eq!(pair.new, new);
        for text in [pair.old, pair.new] {
            assert!(text.starts_with("namespace Demo {\n") && text.ends_with("}\n"));
            assert_eq!(text.matches('{').count(), text.matches('}').count());
        }
    }
}

#[test]
fn the_examples_show_an_added_operation() {
    let pair = QSharpParser::example("qsharp".to_string());
    let old = parse_qsharp(&pair.old);
    let new = parse_qsharp(&pair.new);
    let labels = |root: &qsharp_outline::node::SemanticNode| -> Vec<String> {
        root.children[0].children.iter().map(|n| n.label.clone()).collect()
    };
    assert_eq!(labels(&old), ["open Microsoft.Quantum.Intrinsic", "SayHello"]);
    assert_eq!(
        labels(&new),
        [
            "open Microsoft.Quantum.Intrinsic",
            "open Microsoft.Quantum.Canon",
            "SayHello",
            "FlipBit",
        ]
    );
    let hello = &old.children[0].children[1];
    assert_eq!(hello.children[0].label, "Message(\"Hello, World!\")");
}

#[test]
fn failed_serialisation_is_reported() {
    assert_eq!(json_or_error(Ok("{\"id\":\"0\"}".to_string())), "{\"id\":\"0\"}");
    assert_eq!(
        json_or_error(Err("too deep".to_string())),
        "{\"error\":\"Serialisation error: too deep\"}"
    );
}

#[test]
fn every_language_gets_its_record() {
    let info = |id: &str| LanguageInfo {
        language_id: id.to_string(),
        language_name: format!("{} name", id),
        language_short_name: format!("{} short", id),
        monaco_language: format!("{} monaco", id),
        default_filename: format!("{} file", id),
        language_file_extensions: vec![format!(".{}", id)],
    };
    let plugin = PluginInfo {
        author: "someone".to_string(),
        plugin_version: "1.2.3".to_string(),
        last_updated: "today".to_string(),
    };
    let records = language_info_for(vec![info("a"), info("b")], &plugin);
    assert_eq!(records.len(), 2);
    assert_eq!(records[0].language_id, "a");
    assert_eq!(records[1].language_id, "b");
    assert_eq!(records[1].language_name, "b name");
    assert_eq!(records[1].language_short_name, "b short");
    assert_eq!(records[1].monaco_language, "b monaco");
    assert_eq!(records[1].default_filename, "b file");
    assert_eq!(records[1].language_file_extensions, [".b"]);
    assert_eq!(records[1].author, "someone");
    assert_eq!(records[1].plugin_version, "1.2.3");
    assert_eq!(records[1].last_updated, "today");
    assert_eq!(language_info_for(vec![], &plugin).len(), 0);
}
