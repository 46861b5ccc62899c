use qsharp_outline::node::SemanticNode;
use qsharp_outline::parser::parse_qsharp;
use qsharp_outline::plugin::{json_or_error, QSharpParser};
use serde_json::Value;

const SAMPLE: &str = "namespace MyQuantum {\n\
    open Microsoft.Quantum.Intrinsic;\n\
    \n\
    operation Bell(q1 : Qubit, q2 : Qubit) : Unit {\n\
        H(q1);\n\
        CNOT(q1, q2);\n\
    }\n\
    \n\
    function Square(n : Int) : Int {\n\
        return n * n;\n\
    }\n\
    \n\
    newtype Complex = (Real : Double, Imag : Double);\n\
}";

fn to_value(node: &SemanticNode) -> Value {
    let mut map = serde_json::Map::new();
    map.insert("id".to_string(), Value::from(node.id.clone()));
    map.insert("node_type".to_string(), Value::from(node.node_type.clone()));
    map.insert("label".to_string(), Value::from(node.label.clone()));
    map.insert("start_line".to_string(), Value::from(node.start_line));
    map.insert("end_line".to_string(), Value::from(node.end_line));
    let children: Vec<Value> = node.children.iter().map(to_value).collect();
    map.insert("children".to_string(), Value::from(children));
    Value::Object(map)
}

fn to_json(source: &str) -> String {
    let tree = parse_qsharp(source);
    json_or_error(serde_json::to_string(&to_value(&tree)).map_err(|e| e.to_string()))
}

fn read_json(json: &str) -> Value {
    serde_json::from_str(json).unwrap()
}

fn nodes_of_type<'a>(node: &'a Value, node_type: &str, found: &mut Vec<&'a Value>) {
    if node["node_type"] == node_type {
        found.push(node);
    }
    for child in node["children"].as_array().unwrap() {
        nodes_of_type(child, node_type, found);
    }
}

fn assert_contains_node_type(json: &str, node_type: &str) {
    let value = read_json(json);
    let mut found = Vec::new();
    nodes_of_type(&value, node_type, &mut found);
    assert!(!found.is_empty());
}

fn assert_labels_nonempty(json: &str, node_type: &str) {
    let value = read_json(json);
    let mut found = Vec::new();
    nodes_of_type(&value, node_type, &mut found);
    for node in found {
        assert!(!node["label"].as_str().unwrap().is_empty());
    }
}

fn assert_node(
    node: &SemanticNode,
    id: &str,
    node_type: &str,
    label: &str,
    lines: (u32, u32),
    children: usize,
) {
    assert_eq!(node.id, id);
    assert_eq!(node.node_type, node_type);
    assert_eq!(node.label, label);
    assert_eq!((node.start_line, node.end_line), lines);
    assert_eq!((node.start_column, node.end_column), (0, 0));
    assert_eq!(node.text, "");
    assert_eq!(node.children.len(), children);
}

#[test]
fn test_valid_json_no_error() {
    let out = to_json(SAMPLE);
    let value = read_json(&out);
    assert!(value.is_object());
    assert!(value.get("error").is_none());
}

#[test]
fn test_root_is_compilation_unit() {
    let out = to_json(SAMPLE);
    assert_eq!(read_json(&out)["node_type"], "compilation_unit");
}

#[test]
fn test_namespace_found() {
    let out = to_json(SAMPLE);
    assert_contains_node_type(&out, "namespace");
}

#[test]
fn test_operation_found() {
    let out = to_json(SAMPLE);
    assert_contains_node_type(&out, "operation");
}

#[test]
fn test_function_found() {
    let out = to_json(SAMPLE);
    assert_contains_node_type(&out, "function");
}

#[test]
fn test_newtype_found() {
    let out = to_json(SAMPLE);
    assert_contains_node_type(&out, "newtype");
}

#[test]
fn test_internal_operation() {
    let src = "namespace Lib {\n    internal operation Private() : Unit {\n        let x = 1;\n    }\n}";
    let out = to_json(src);
    assert_contains_node_type(&out, "operation");
}

#[test]
fn test_labels_nonempty() {
    let out = to_json(SAMPLE);
    assert_labels_nonempty(&out, "namespace");
    assert_labels_nonempty(&out, "operation");
    assert_labels_nonempty(&out, "function");
}

#[test]
fn sample_outline_in_full() {
    let root = parse_qsharp(SAMPLE);
    assert_node(&root, "0", "compilation_unit", "compilation_unit", (0, 13), 1);
    let ns = &root.children[0];
    assert_node(ns, "0.0", "namespace", "MyQuantum", (0, 13), 4);
    let open = &ns.children[0];
    assert_node(open, "0.0.0", "qs_statement", "open Microsoft.Quantum.Intrinsic", (1, 1), 0);
    let bell = &ns.children[1];
    assert_node(bell, "0.0.1", "operation", "Bell", (3, 6), 2);
    assert_node(&bell.children[0], "0.0.1.0", "qs_statement", "H(q1)", (4, 4), 0);
    assert_node(&bell.children[1], "0.0.1.1", "qs_statement", "CNOT(q1, q2)", (5, 5), 0);
    let square = &ns.children[2];
    assert_node(square, "0.0.2", "function", "Square", (8, 10), 1);
    assert_node(&square.children[0], "0.0.2.0", "qs_statement", "return n * n", (9, 9), 0);
    assert_node(&ns.children[3], "0.0.3", "newtype", "Complex", (12, 12), 0);
}

#[test]
fn internal_operation_in_full() {
    let src = "namespace Lib {\n    internal operation Private() : Unit {\n        let x = 1;\n    }\n}";
    let root = parse_qsharp(src);
    let op = &root.children[0].children[0];
    assert_node(op, "0.0.0", "operation", "Private", (1, 3), 1);
    assert_node(&op.children[0], "0.0.0.0", "qs_statement", "let x = 1", (2, 2), 0);
}

#[test]
fn empty_source_has_an_empty_root() {
    let root = parse_qsharp("");
    assert_node(&root, "0", "compilation_unit", "compilation_unit", (0, 0), 0);
    assert_node(&parse_qsharp("\n\n\n"), "0", "compilation_unit", "compilation_unit", (0, 2), 0);
}

#[test]
fn unclosed_declarations_end_with_the_source_innermost_first() {
    let root = parse_qsharp("namespace A {\noperation B() {\nX();");
    assert_eq!(root.children.len(), 2);
    assert_node(&root.children[0], "0.0.0", "operation", "B", (1, 2), 1);
    assert_node(&root.children[0].children[0], "0.0.0.0", "qs_statement", "X()", (2, 2), 0);
    assert_node(&root.children[1], "0.0", "namespace", "A", (0, 2), 0);
}

#[test]
fn one_line_blocks_close_on_their_line() {
    let root = parse_qsharp("operation A() {}\nfunction B() : Int { return 1; }\nnamespace C {}");
    assert_eq!(root.children.len(), 3);
    assert_node(&root.children[0], "0.0", "operation", "A", (0, 0), 0);
    assert_node(&root.children[1], "0.0", "function", "B", (1, 1), 0);
    assert_node(&root.children[2], "0.0", "namespace", "C", (2, 2), 0);
}

#[test]
fn namespaces_are_numbered_through_the_source() {
    let root = parse_qsharp("namespace A {\n}\nnamespace B {\nnamespace C {\n}\n}");
    assert_node(&root.children[0], "0.0", "namespace", "A", (0, 1), 0);
    assert_node(&root.children[1], "0.1", "namespace", "B", (2, 5), 1);
    assert_node(&root.children[1].children[0], "0.2", "namespace", "C", (3, 4), 0);
}

#[test]
fn ids_have_several_digits() {
    let mut src = String::from("namespace A {\n");
    for i in 0..12 {
        src.push_str(&format!("newtype T{} = Int;\n", i));
    }
    src.push_str("}\n");
    let root = parse_qsharp(&src);
    let ns = &root.children[0];
    assert_node(ns, "0.0", "namespace", "A", (0, 13), 12);
    assert_node(&ns.children[9], "0.0.9", "newtype", "T9", (10, 10), 0);
    assert_node(&ns.children[10], "0.0.10", "newtype", "T10", (11, 11), 0);
    assert_node(&ns.children[11], "0.0.11", "newtype", "T11", (12, 12), 0);
}

#[test]
fn statements_outside_declarations_have_no_node() {
    let root = parse_qsharp("open Foo;\nnewtype T = Int;\n");
    assert_eq!(root.children.len(), 1);
    assert_node(&root.children[0], "0.0", "newtype", "T", (1, 1), 0);
}

#[test]
fn bare_braces_and_semicolons_are_no_statements() {
    let root = parse_qsharp("operation A() {\n{\n;;\n{ }\n}\n}\n}");
    let op = &root.children[0];
    assert_eq!(op.children.len(), 1);
    assert_node(&op.children[0], "0.0.0", "qs_statement", "{ }", (3, 3), 0);
}

#[test]
fn a_body_may_open_on_the_next_line() {
    let root = parse_qsharp("operation A() : Unit\n{\nX();\n}\n");
    assert_node(&root.children[0], "0.0", "operation", "A", (0, 3), 1);
    assert_node(&root.children[0].children[0], "0.0.0", "qs_statement", "X()", (2, 2), 0);
}

#[test]
fn a_header_without_a_body_closes_at_the_next_code_line() {
    let root = parse_qsharp("operation A() : Unit\n\nX();\n");
    assert_eq!(root.children.len(), 1);
    assert_node(&root.children[0], "0.0", "operation", "A", (0, 2), 0);
}

#[test]
fn surplus_closing_braces_take_the_depth_below_zero() {
    let root = parse_qsharp("}\n}\noperation A() {\nX();\n}\n");
    assert_eq!(root.children.len(), 1);
    assert_node(&root.children[0], "0.0", "operation", "A", (2, 4), 1);
}

#[test]
fn comments_and_indentation_do_not_matter() {
    let plain = parse_qsharp("namespace A {\nX(1);\n}");
    let noisy = parse_qsharp("\t namespace A { // }}}\n   X(1);   // note // more\r\n\u{3000}} // end");
    assert_eq!(format!("{:?}", plain), format!("{:?}", noisy));
    let commented = parse_qsharp("// namespace A {\n//}\n");
    assert_eq!(commented.children.len(), 0);
}

#[test]
fn a_slash_before_a_comment_starts_it() {
    let root = parse_qsharp("namespace A {\na /// b\n}");
    assert_node(&root.children[0].children[0], "0.0.0", "qs_statement", "a", (1, 1), 0);
}

#[test]
fn keywords_count_in_any_case() {
    let root = parse_qsharp("NameSpace A {\nINTERNAL\tFunction F() : Int {\n}\n}");
    assert_node(&root.children[0], "0.0", "namespace", "A", (0, 3), 1);
    assert_node(&root.children[0].children[0], "0.0.0", "function", "F", (1, 2), 0);
}

#[test]
fn keywords_must_be_whole_words() {
    let root = parse_qsharp("operation A() {\noperations B();\nmy operation C();\n}");
    let op = &root.children[0];
    assert_eq!(op.children.len(), 2);
    assert_eq!(op.children[0].node_type, "qs_statement");
    assert_eq!(op.children[0].label, "operations B()");
    assert_eq!(op.children[1].label, "my operation C()");
}

#[test]
fn declarations_without_a_name_are_anonymous() {
    let root = parse_qsharp("namespace {\n}\noperation (x : Int) {\n}");
    assert_eq!(root.children[0].label, "(anonymous)");
    assert_eq!(root.children[1].label, "(anonymous)");
}

#[test]
fn sources_beyond_ascii_are_parsed() {
    let root = parse_qsharp("operation Größe() : Unit {\n  Message(\"Grüße — ✓\");\n}");
    assert_node(&root.children[0], "0.0", "operation", "Größe", (0, 2), 1);
    assert_eq!(root.children[0].children[0].label, "Message(\"Grüße — ✓\")");
    let root = parse_qsharp("internal\u{a0}function ÄÖ<'T>() : Int {\n}");
    assert_node(&root.children[0], "0.0", "function", "ÄÖ", (0, 1), 0);
    let root = parse_qsharp("operation \u{130}\u{212a}() {\nİoperation x;\n}");
    assert_node(&root.children[0], "0.0", "operation", "\u{130}\u{212a}", (0, 2), 1);
    assert_eq!(root.children[0].children[0].label, "İoperation x");
}

#[test]
fn processing_ignores_language_and_file_name() {
    let a = QSharpParser::process(SAMPLE.to_string(), "x".to_string(), "y".to_string());
    assert_eq!(format!("{:?}", a), format!("{:?}", parse_qsharp(SAMPLE)));
}

#[test]
fn an_edited_message_shows() {
    let source = |x: &str| format!("operation F() : Unit {{\nMessage(\"{}\");\n}}", x);
    let messages = ["", "Hello", "hello", "Hello; ", "İK é\r", "operation"];
    let mut seen = Vec::new();
    for x in messages {
        let root = parse_qsharp(&source(x));
        assert_eq!(root.children.len(), 1);
        let op = &root.children[0];
        assert_node(op, "0.0", "operation", "F", (0, 2), 1);
        let label = format!("Message(\"{}\")", x);
        assert_node(&op.children[0], "0.0.0", "qs_statement", &label, (1, 1), 0);
        let shown = format!("{:?}", root);
        assert!(!seen.contains(&shown));
        seen.push(shown);
    }
}

fn check_tree(node: &SemanticNode, nodes: &mut Vec<(String, String, u32, String)>) {
    assert!(!node.label.is_empty());
    assert!(node.start_line <= node.end_line);
    if node.node_type != "compilation_unit" {
        nodes.push((
            node.node_type.clone(),
            node.id.clone(),
            node.start_line,
            node.label.clone(),
        ));
    }
    for (i, child) in node.children.iter().enumerate() {
        assert!(node.start_line <= child.start_line && child.end_line <= node.end_line);
        if i > 0 && node.node_type != "compilation_unit" {
            assert!(node.children[i - 1].end_line <= child.start_line);
            assert!(node.children[i - 1].start_line < child.start_line);
        }
        if node.node_type != "compilation_unit" {
            assert!(node.start_line < child.start_line);
        }
        if node.node_type != "compilation_unit" && child.node_type != "namespace" {
            assert_eq!(child.id, format!("{}.{}", node.id, i));
        }
        if child.node_type == "newtype" || child.node_type == "qs_statement" {
            assert!(child.children.is_empty());
        }
        check_tree(child, nodes);
    }
}

#[test]
fn every_declaration_line_has_one_node() {
    let src = "operation A } {{\nnamespace B { namespace C\nnewtype D }\nfunction E\nnamespace F\n}}\noperation G {}\nx;\n";
    let root = parse_qsharp(src);
    let mut nodes = Vec::new();
    check_tree(&root, &mut nodes);
    let count = |t: &str| nodes.iter().filter(|n| n.0 == t).count();
    assert_eq!(count("operation"), 2);
    assert_eq!(count("namespace"), 2);
    assert_eq!(count("newtype"), 1);
    assert_eq!(count("function"), 1);
    for id in ["0.0", "0.1"] {
        let n = nodes.iter().filter(|n| n.0 == "namespace" && n.1 == id).count();
        assert_eq!(n, 1);
    }
}

#[test]
fn each_line_has_its_own_node() {
    let src = "x;\nnamespace A {\nopen B;\n// note\noperation C() {}\n{\ny(); }\nnewtype D = Int;\n}\n}\nz;\nfunction E() : Int\n";
    let root = parse_qsharp(src);
    let mut nodes = Vec::new();
    check_tree(&root, &mut nodes);
    nodes.sort_by_key(|n| n.2);
    let shown: Vec<(u32, &str, &str)> =
        nodes.iter().map(|n| (n.2, n.0.as_str(), n.3.as_str())).collect();
    assert_eq!(
        shown,
        [
            (1, "namespace", "A"),
            (2, "qs_statement", "open B"),
            (4, "operation", "C"),
            (6, "qs_statement", "y(); }"),
            (7, "newtype", "D"),
            (11, "function", "E"),
        ]
    );
}
