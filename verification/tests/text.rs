use qsharp_outline::lowercase::fold;
use qsharp_outline::name::{cut_name_at, extract_qs_name};
use qsharp_outline::node::{block_node, leaf};
use qsharp_outline::outline::{push_to, Declaration, QsFrame};
use qsharp_outline::plugin::detect_language_impl;
use qsharp_outline::text::{
    chars_of, count_char, ends_with, find, is_whitespace, make_child_id, push_decimal,
    split_first_word, split_lines, string_of, trim, trim_end, trim_end_matches, trim_start,
};

const SAMPLES: [&str; 12] = [
    "",
    " ",
    "a",
    " \t a b \u{2003}",
    "\u{a0}\u{1680}x;;\u{3000}",
    "a\nb\r\nc\r\r\n\nd\r",
    "\n",
    "\r\n\r\n",
    "no end",
    "end\n",
    ";; ;",
    "\u{85}\u{2028}\u{2029}\u{202f}\u{205f}",
];

#[test]
fn whitespace_is_the_unicode_property() {
    for c in '\0'..=char::MAX {
        assert_eq!(is_whitespace(c), c.is_whitespace());
    }
}

#[test]
fn strings_and_characters_convert_both_ways() {
    for s in SAMPLES {
        assert_eq!(chars_of(s), s.chars().collect::<Vec<char>>());
        assert_eq!(string_of(&chars_of(s)), s);
    }
    assert_eq!(string_of(&['ä', '✓', 'x']), "ä✓x");
}

#[test]
fn trimming_agrees_with_the_standard_library() {
    for s in SAMPLES {
        let chars = chars_of(s);
        assert_eq!(string_of(trim(&chars)), s.trim());
        assert_eq!(string_of(trim_start(&chars)), s.trim_start());
        assert_eq!(string_of(trim_end(&chars)), s.trim_end());
        assert_eq!(string_of(trim_end_matches(&chars, ';')), s.trim_end_matches(';'));
    }
}

#[test]
fn lines_agree_with_the_standard_library() {
    for s in SAMPLES {
        let lines: Vec<String> = split_lines(&chars_of(s)).iter().map(|l| string_of(l)).collect();
        assert_eq!(lines, s.lines().collect::<Vec<&str>>());
    }
}

#[test]
fn words_are_split_at_whitespace() {
    let chars = chars_of(" internal\u{2003} operation F");
    let (first, rest) = split_first_word(&chars);
    assert_eq!(string_of(first), "internal");
    assert_eq!(string_of(rest), "\u{2003} operation F");
    let (second, rest) = split_first_word(rest);
    assert_eq!(string_of(second), "operation");
    assert_eq!(string_of(rest), " F");
    let (none, rest) = split_first_word(&[' ', '\t']);
    assert_eq!(none.len(), 0);
    assert_eq!(rest.len(), 0);
}

#[test]
fn the_first_place_is_found() {
    let s = chars_of("a // b // c");
    assert_eq!(find(&s, &['/', '/']), Some(2));
    assert_eq!(find(&s, &['c']), Some(10));
    assert_eq!(find(&s, &['/', '/', '/']), None);
    assert_eq!(find(&s, &[]), Some(0));
    assert_eq!(find(&[], &['x']), None);
    assert_eq!(find(&[], &[]), Some(0));
}

#[test]
fn suffixes_and_counts() {
    assert!(ends_with(&chars_of("a.qs"), &chars_of(".qs")));
    assert!(!ends_with(&chars_of("qs"), &chars_of(".qs")));
    assert!(!ends_with(&chars_of("a.qs "), &chars_of(".qs")));
    assert_eq!(count_char(&chars_of("{{}{"), '{'), 3);
    assert_eq!(count_char(&chars_of("{{}{"), '}'), 1);
}

#[test]
fn decimal_digits() {
    for n in [0usize, 7, 9, 10, 99, 100, 1234567890, usize::MAX] {
        let mut s = String::from("x");
        push_decimal(&mut s, n);
        assert_eq!(s, format!("x{}", n));
    }
    assert_eq!(make_child_id("0.3", 12), "0.3.12");
}

#[test]
fn names_are_the_tokens_behind_the_keyword() {
    assert_eq!(extract_qs_name("operation Bell(q : Qubit)", "operation"), "Bell");
    assert_eq!(extract_qs_name("function Map<'T>(x : 'T)", "function"), "Map");
    assert_eq!(extract_qs_name("namespace Foo.Bar{", "namespace"), "Foo.Bar");
    assert_eq!(extract_qs_name("newtype   Complex = (", "newtype"), "Complex");
    assert_eq!(extract_qs_name("operation X: Unit", "operation"), "X");
    assert_eq!(extract_qs_name("OPERATION Loud(", "operation"), "Loud");
    assert_eq!(extract_qs_name("operation Quiet(", "OPERATION"), "Quiet");
    assert_eq!(extract_qs_name("internal operation Hidden(", "operation"), "Hidden");
    assert_eq!(extract_qs_name("myoperation A", "operation"), "A");
}

#[test]
fn missing_names_are_anonymous() {
    assert_eq!(extract_qs_name("operation", "operation"), "(anonymous)");
    assert_eq!(extract_qs_name("operation (x)", "operation"), "(anonymous)");
    assert_eq!(extract_qs_name("something else", "operation"), "(anonymous)");
    assert_eq!(extract_qs_name("", "operation"), "(anonymous)");
}

#[test]
fn names_are_found_in_lines_beyond_ascii() {
    assert_eq!(extract_qs_name("\u{130}\u{130} operation Foo() : Unit {", "operation"), "Foo");
    assert_eq!(extract_qs_name("\u{130}\u{130}operation \u{e9}", "operation"), "\u{e9}");
    assert_eq!(extract_qs_name("operation é(", "operation"), "é");
    // The lower case of the first letter is one byte longer.
    assert_eq!(extract_qs_name("\u{23a}kéy", "k"), "éy");
    assert_eq!(extract_qs_name("\u{23a}kab", "k"), "ab");
    assert_eq!(extract_qs_name("\u{23a}k", "k"), "(anonymous)");
    // The lower case of the Kelvin sign is `k`, two bytes shorter.
    assert_eq!(extract_qs_name("\u{212a}x(", "k"), "x");
    assert_eq!(extract_qs_name("to\u{212a}en A", "TOKEN"), "A");
}

#[test]
fn keywords_beyond_ascii_count_in_any_case() {
    assert_eq!(extract_qs_name("x ÉTÉ nom(", "été"), "nom");
    assert_eq!(extract_qs_name("x été nom(", "ÉTÉ"), "nom");
    assert_eq!(extract_qs_name("étéÉTÉ nom", "été"), "ÉTÉ");
    assert_eq!(extract_qs_name("été", "été"), "(anonymous)");
    assert_eq!(extract_qs_name("ete nom", "été"), "(anonymous)");
    assert_eq!(extract_qs_name("", "é"), "(anonymous)");
    // The lower case of one letter is two characters.
    assert_eq!(extract_qs_name("\u{130} nom", "i\u{307}"), "nom");
    assert_eq!(extract_qs_name("i\u{307} nom", "\u{130}"), "nom");
    assert_eq!(extract_qs_name("k nom", "\u{212a}"), "nom");
}

#[test]
fn keywords_are_found_in_the_lower_case_of_the_text() {
    // A capital sigma is a final sigma in lower case only where a word ends.
    assert_eq!(extract_qs_name("ΑΣΑ x", "ασ"), "Α");
    assert_eq!(extract_qs_name("ΑΣ x", "ας"), "x");
    assert_eq!(extract_qs_name("ΑΣ ασ x", "ασ"), "x");
    // The keyword takes up a part of the lower case of one letter.
    assert_eq!(extract_qs_name("\u{130} x", "\u{307}"), "x");
    assert_eq!(extract_qs_name("\u{23a}\u{130}X", "i"), "X");
    assert_eq!(extract_qs_name("\u{130}X", "I"), "X");
    assert_eq!(extract_qs_name("a\u{130} X", "ai"), "X");
    assert_eq!(extract_qs_name("É\u{130} X", "éi"), "X");
    // What follows in the lower case of that letter is no part of the keyword.
    assert_eq!(extract_qs_name("\u{130}a X", "ia"), "(anonymous)");
    assert_eq!(extract_qs_name("\u{130}a ia X", "ia"), "X");
}

#[test]
fn keywords_that_stand_in_the_text_itself_are_found() {
    // In lower case the keyword ends in a final sigma, the text holds another.
    assert_eq!(extract_qs_name("ΑΣΑ x", "ΑΣ"), "Α");
    assert_eq!(extract_qs_name("ΑΣ x", "σ"), "x");
    assert_eq!(extract_qs_name("ΑΒ x", "σ"), "(anonymous)");
}

#[test]
fn byte_offsets_in_the_lower_case_lead_to_the_same_names() {
    let letters = ['a', 'I', 'k', ' ', '(', 'É', 'é', 'Σ', 'σ', 'ς', '\u{130}', '\u{307}'];
    let mut words = vec![String::new()];
    let mut longest = words.clone();
    for _ in 0..3 {
        longest = longest
            .iter()
            .flat_map(|w| letters.iter().map(move |c| format!("{}{}", w, c)))
            .collect();
        words.extend(longest.iter().cloned());
    }
    let mut compared = 0;
    for text in &words {
        let lower = text.to_lowercase();
        for keyword in words.iter().filter(|k| k.chars().count() <= 2) {
            let lower_keyword = keyword.to_lowercase();
            let end = match lower.find(&lower_keyword) {
                Some(start) => start + lower_keyword.len(),
                None => continue,
            };
            // The offset fits where the text before it is as long in lower case.
            if !text.is_char_boundary(end) || text[..end].to_lowercase().len() != end {
                continue;
            }
            let rest = text[end..].trim_start();
            let stop = rest.find(|c: char| c == '(' || c.is_whitespace()).unwrap_or(rest.len());
            let expected = if stop == 0 { "(anonymous)" } else { &rest[..stop] };
            assert_eq!(extract_qs_name(text, keyword), expected);
            compared += 1;
        }
    }
    assert!(compared > 1000);
}

#[test]
fn an_empty_keyword_stands_at_the_start() {
    assert_eq!(extract_qs_name("  nom(", ""), "nom");
}

#[test]
fn names_are_cut_from_a_place_on() {
    let text = chars_of("ab  cdé(f");
    assert_eq!(cut_name_at(&text, 2), "cdé");
    assert_eq!(cut_name_at(&text, 5), "dé");
    assert_eq!(cut_name_at(&text, 7), "(anonymous)");
    assert_eq!(cut_name_at(&text, 9), "(anonymous)");
}

#[test]
fn folding_gives_the_ascii_lower_case() {
    for c in '\0'..=char::MAX {
        let mut lower = c.to_lowercase();
        let expected = match (lower.next(), lower.next()) {
            (Some(l), None) if l.is_ascii() => l,
            _ => c,
        };
        assert_eq!(fold(&[c]), [expected]);
    }
    assert_eq!(string_of(&fold(&chars_of("ÄB\u{212a}z Ω"))), "Äbkz Ω");
}

#[test]
fn only_k_and_i_come_from_beyond_ascii() {
    for c in '\u{80}'..=char::MAX {
        let ascii: String = c.to_lowercase().filter(|l| l.is_ascii()).collect();
        let expected = match c {
            '\u{212a}' => "k",
            '\u{130}' => "i",
            _ => "",
        };
        assert_eq!(ascii, expected);
    }
}

#[test]
fn lower_case_keeps_whitespace_apart() {
    for c in '\0'..=char::MAX {
        assert!(c.to_lowercase().all(|l| l.is_whitespace() == c.is_whitespace()));
    }
}

#[test]
fn ascii_lower_case_changes_letters_only() {
    for c in '\0'..='\u{7f}' {
        let name = format!("{}.QS", c);
        assert_eq!(detect_language_impl(&name, ""), "qsharp");
        let other = format!("a.q{}", c);
        let expected = if c == 's' || c == 'S' { "qsharp" } else { "" };
        assert_eq!(detect_language_impl(&other, ""), expected);
    }
}

#[test]
fn nodes_are_made_field_by_field() {
    let child = leaf("0.1.0", "qs_statement", "X()", 4);
    assert_eq!((child.start_line, child.end_line), (4, 4));
    let node = block_node("0.1", "operation", "A", 3, 5, vec![child]);
    assert_eq!(node.id, "0.1");
    assert_eq!(node.node_type, "operation");
    assert_eq!(node.label, "A");
    assert_eq!((node.start_line, node.end_line), (3, 5));
    assert_eq!(node.children[0].label, "X()");
    assert_eq!(node.text, "");
}

#[test]
fn nodes_go_to_the_innermost_frame() {
    let mut root = Vec::new();
    let mut stack = Vec::new();
    push_to(&mut stack, &mut root, leaf("0.0", "newtype", "T", 0));
    assert_eq!(root.len(), 1);
    for label in ["A", "B"] {
        stack.push(QsFrame {
            id: "0".to_string(),
            node_type: Declaration::Operation.as_str(),
            label: label.to_string(),
            start_line: 1,
            close_depth: 0,
            children: Vec::new(),
        });
    }
    push_to(&mut stack, &mut root, leaf("0.1", "newtype", "U", 2));
    assert_eq!(root.len(), 1);
    assert_eq!(stack[0].children.len(), 0);
    assert_eq!(stack[1].children[0].label, "U");
    let closed = stack.pop().unwrap().close(7);
    assert_eq!(closed.node_type, "operation");
    assert_eq!(closed.label, "B");
    assert_eq!((closed.start_line, closed.end_line), (1, 7));
    assert_eq!(closed.children.len(), 1);
}
