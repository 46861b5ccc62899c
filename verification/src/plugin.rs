//! What the Q# plugin tells its host.

use crate::lowercase::{fold, folded};
use crate::node::SemanticNode;
use crate::outline::outline;
use crate::parser::{code_lines, parse_qsharp};
use crate::text::{chars_of, ends_with, has_suffix};
use vstd::prelude::*;
use vstd::string::StringExecFns;

verus! {

/// The language of a file: `qsharp` where its name ends in `.qs`, in upper or
/// lower case, and nothing otherwise.
pub open spec fn language_for(filename: Seq<char>) -> Seq<char> {
    if has_suffix(folded(filename), ".qs"@) {
        "qsharp"@
    } else {
        seq![]
    }
}

/// The language of a file. Only its name counts, in any case.
pub fn detect_language_impl(filename: &str, _content: &str) -> (language: String)
    ensures
        language@ == language_for(filename@),
{
    let lower = fold(&chars_of(filename));
    if ends_with(&lower, &chars_of(".qs")) {
        "qsharp".to_owned()
    } else {
        String::new()
    }
}

/// The report of a failed serialisation.
pub open spec fn error_report(message: Seq<char>) -> Seq<char> {
    "{\"error\":\"Serialisation error: "@ + message + "\"}"@
}

/// The answer of a parse: the serialised tree, or a report with the message of
/// the serialiser.
pub fn json_or_error(serialised: Result<String, String>) -> (answer: String)
    ensures
        answer@ == match serialised {
            Ok(json) => json@,
            Err(message) => error_report(message@),
        },
        serialised matches Err(message) ==> answer@ == "{\"error\":\"Serialisation error: "@
            + message@ + "\"}"@,
{
    match serialised {
        Ok(json) => json,
        Err(message) => {
            let mut report: String = "{\"error\":\"Serialisation error: ".to_owned();
            report.append(message.as_str());
            report.append("\"}");
            report
        },
    }
}

/// How a plugin takes part in parsing.
#[derive(Clone, Copy, Debug, PartialEq, Eq, Structural)]
pub enum ParserMode {
    /// The plugin parses the source by itself.
    FullParse,
}

/// Two versions of a source, to show what a comparison looks like.
#[derive(Debug)]
pub struct ExamplePair {
    pub old: String,
    pub new: String,
}

/// What the plugin metadata says of one language.
#[derive(Debug)]
pub struct LanguageInfo {
    pub language_id: String,
    pub language_name: String,
    pub language_short_name: String,
    pub monaco_language: String,
    pub default_filename: String,
    pub language_file_extensions: Vec<String>,
}

/// What the plugin metadata says of the plugin.
#[derive(Debug)]
pub struct PluginInfo {
    pub author: String,
    pub plugin_version: String,
    pub last_updated: String,
}

/// What the host is told of one language.
#[derive(Debug)]
pub struct LanguageInfoRecord {
    pub language_id: String,
    pub language_name: String,
    pub language_short_name: String,
    pub monaco_language: String,
    pub default_filename: String,
    pub language_file_extensions: Vec<String>,
    pub author: String,
    pub plugin_version: String,
    pub last_updated: String,
}

/// The record of a language: what the metadata says of it and of the plugin.
pub open spec fn record_of(info: LanguageInfo, plugin: PluginInfo) -> LanguageInfoRecord {
    LanguageInfoRecord {
        language_id: info.language_id,
        language_name: info.language_name,
        language_short_name: info.language_short_name,
        monaco_language: info.monaco_language,
        default_filename: info.default_filename,
        language_file_extensions: info.language_file_extensions,
        author: plugin.author,
        plugin_version: plugin.plugin_version,
        last_updated: plugin.last_updated,
    }
}

/// One record per language, in the order of the languages.
pub fn language_info_for(languages: Vec<LanguageInfo>, plugin: &PluginInfo) -> (records: Vec<
    LanguageInfoRecord,
>)
    ensures
        records@ == languages@.map_values(|info: LanguageInfo| record_of(info, *plugin)),
        records@.len() == languages@.len(),
        forall|i: int|
            0 <= i < languages@.len() ==> {
                let record = #[trigger] records@[i];
                &&& record.language_id == languages@[i].language_id
                &&& record.language_name == languages@[i].language_name
                &&& record.language_short_name == languages@[i].language_short_name
                &&& record.monaco_language == languages@[i].monaco_language
                &&& record.default_filename == languages@[i].default_filename
                &&& record.language_file_extensions == languages@[i].language_file_extensions
                &&& record.author == plugin.author
                &&& record.plugin_version == plugin.plugin_version
                &&& record.last_updated == plugin.last_updated
            },
{
    let mut records: Vec<LanguageInfoRecord> = Vec::new();
    let ghost expected = languages@.map_values(|info: LanguageInfo| record_of(info, *plugin));
    for info in it: languages
        invariant
            it.seq() == languages@,
            expected == languages@.map_values(|info: LanguageInfo| record_of(info, *plugin)),
            records@ == expected.take(it.index() as int),
    {
        let record = LanguageInfoRecord {
            language_id: info.language_id,
            language_name: info.language_name,
            language_short_name: info.language_short_name,
            monaco_language: info.monaco_language,
            default_filename: info.default_filename,
            language_file_extensions: info.language_file_extensions,
            author: plugin.author.clone(),
            plugin_version: plugin.plugin_version.clone(),
            last_updated: plugin.last_updated.clone(),
        };
        assert(record == record_of(info, *plugin));
        assert(expected.take(it.index() + 1) == expected.take(it.index() as int).push(record));
        records.push(record);
    }
    assert(expected.take(languages@.len() as int) == expected);
    records
}

/// How many braces are open behind the first `n` characters of `s`; `None` once
/// one was closed that had not been opened.
pub open spec fn depth_after(s: Seq<char>, n: int) -> Option<nat>
    decreases n,
{
    if n <= 0 {
        Some(0)
    } else {
        match depth_after(s, n - 1) {
            Some(depth) => if s[n - 1] == '{' {
                Some(depth + 1)
            } else if s[n - 1] != '}' {
                Some(depth)
            } else if depth > 0 {
                Some((depth - 1) as nat)
            } else {
                None
            },
            None => None,
        }
    }
}

/// Every brace of `s` is closed, and none that was not opened.
pub open spec fn balanced(s: Seq<char>) -> bool {
    depth_after(s, s.len() as int) == Some(0nat)
}

/// The older version of the example.
pub open spec fn example_old() -> Seq<char> {
    "namespace Demo {\n    open Microsoft.Quantum.Intrinsic;\n\n    operation SayHello() : Unit {\n        Message(\"Hello, World!\");\n    }\n}\n"@
}

/// The newer version of the example.
pub open spec fn example_new() -> Seq<char> {
    "namespace Demo {\n    open Microsoft.Quantum.Intrinsic;\n    open Microsoft.Quantum.Canon;\n\n    operation SayHello(name : String) : Unit {\n        Message($\"Hello, {name}!\");\n    }\n\n    operation FlipBit() : Result {\n        use q = Qubit();\n        X(q);\n        let result = M(q);\n        Reset(q);\n        return result;\n    }\n}\n"@
}

proof fn lemma_old_example()
    ensures
        example_old().len() == 132,
        "namespace Demo {\n"@.is_prefix_of(example_old()),
        has_suffix(example_old(), "}\n"@),
        balanced(example_old()),
{
    let s = example_old();
    reveal_strlit("namespace Demo {\n    open Microsoft.Quantum.Intrinsic;\n\n    operation SayHello() : Unit {\n        Message(\"Hello, World!\");\n    }\n}\n");
    reveal_strlit("namespace Demo {\n");
    reveal_strlit("}\n");
    assert(s.skip(s.len() - 2) == "}\n"@);
    reveal_with_fuel(depth_after, 51);
    assert(depth_after(s, 50) == Some(1nat));
    assert(depth_after(s, 100) == Some(2nat));
    assert(depth_after(s, 132) == Some(0nat));
}

proof fn lemma_new_example()
    ensures
        example_new().len() == 330,
        "namespace Demo {\n"@.is_prefix_of(example_new()),
        has_suffix(example_new(), "}\n"@),
        balanced(example_new()),
{
    let s = example_new();
    reveal_strlit("namespace Demo {\n    open Microsoft.Quantum.Intrinsic;\n    open Microsoft.Quantum.Canon;\n\n    operation SayHello(name : String) : Unit {\n        Message($\"Hello, {name}!\");\n    }\n\n    operation FlipBit() : Result {\n        use q = Qubit();\n        X(q);\n        let result = M(q);\n        Reset(q);\n        return result;\n    }\n}\n");
    reveal_strlit("namespace Demo {\n");
    reveal_strlit("}\n");
    assert(s.skip(s.len() - 2) == "}\n"@);
    reveal_with_fuel(depth_after, 51);
    assert(depth_after(s, 50) == Some(1nat));
    assert(depth_after(s, 100) == Some(1nat));
    assert(depth_after(s, 150) == Some(2nat));
    assert(depth_after(s, 200) == Some(1nat));
    assert(depth_after(s, 250) == Some(2nat));
    assert(depth_after(s, 300) == Some(2nat));
    assert(depth_after(s, 330) == Some(0nat));
}

/// The Q# plugin.
pub struct QSharpParser;

impl QSharpParser {
    pub fn get_parser_mode() -> (mode: ParserMode)
        ensures
            mode == ParserMode::FullParse,
    {
        ParserMode::FullParse
    }

    pub fn grammar_id() -> (id: String)
        ensures
            id@ == "qsharp"@,
    {
        "qsharp".to_owned()
    }

    pub fn detect_language(filename: String, content: String) -> (language: String)
        ensures
            language@ == language_for(filename@),
    {
        detect_language_impl(filename.as_str(), content.as_str())
    }

    /// Sources are parsed as they are.
    pub fn preprocess_source(source: String) -> (preprocessed: String)
        ensures
            preprocessed == source,
    {
        source
    }

    /// Two versions of a small source, the same for every language. Both are one
    /// namespace whose braces balance.
    pub fn example(_language: String) -> (pair: ExamplePair)
        ensures
            pair.old@ == example_old(),
            pair.new@ == example_new(),
            pair.old@ != pair.new@,
            "namespace Demo {\n"@.is_prefix_of(pair.old@),
            "namespace Demo {\n"@.is_prefix_of(pair.new@),
            has_suffix(pair.old@, "}\n"@),
            has_suffix(pair.new@, "}\n"@),
            balanced(pair.old@),
            balanced(pair.new@),
    {
        proof {
            lemma_old_example();
            lemma_new_example();
        }
        ExamplePair {
            old: "namespace Demo {\n    open Microsoft.Quantum.Intrinsic;\n\n    operation SayHello() : Unit {\n        Message(\"Hello, World!\");\n    }\n}\n".to_owned(),
            new: "namespace Demo {\n    open Microsoft.Quantum.Intrinsic;\n    open Microsoft.Quantum.Canon;\n\n    operation SayHello(name : String) : Unit {\n        Message($\"Hello, {name}!\");\n    }\n\n    operation FlipBit() : Result {\n        use q = Qubit();\n        X(q);\n        let result = M(q);\n        Reset(q);\n        return result;\n    }\n}\n".to_owned(),
        }
    }

    /// Parses a source, whatever its language and name are said to be.
    pub fn process(input: String, _language: String, _filename: String) -> (tree: SemanticNode)
        ensures
            tree@ == outline(code_lines(input@)),
    {
        parse_qsharp(input.as_str())
    }

    /// No node is trivia.
    pub fn trivia_node_types() -> (types: Vec<String>)
        ensures
            types@.len() == 0,
    {
        Vec::new()
    }

    pub fn language_ids() -> (ids: Vec<String>)
        ensures
            ids@.len() == 1,
            ids@[0]@ == "qsharp"@,
    {
        let mut ids: Vec<String> = Vec::new();
        ids.push("qsharp".to_owned());
        ids
    }

    pub fn priority() -> (priority: i32)
        ensures
            priority == 0,
    {
        0
    }
}

} // verus!
