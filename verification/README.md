# qsharp_outline

Outline parser for Q# (`.qs`) sources, verified with Verus.

A source is read line by line. Comments and indentation are cut off, braces are
counted, and lines that start with `namespace`, `operation`, `function` or
`newtype` (also behind `internal`) become nodes; other lines inside a declaration
become statements. A declaration is closed by the line that takes the brace depth
back to where it was before the declaration; what the source leaves open is
closed at its end and placed at the top level.

## Layout

- `src/text.rs`: whitespace, trimming, searching, lines, words, decimal numbers
- `src/lowercase.rs`: lower case, of ASCII letters and by `str::to_lowercase`
- `src/name.rs`: the name on a declaration line
- `src/node.rs`: the nodes of an outline
- `src/outline.rs`: the outline as a state that each line moves on
- `src/parser.rs`: from a source to its outline
- `src/plugin.rs`: what the plugin tells its host
- `src/laws/`: what holds of every outline, line and file name
- `app/`: the component that the host loads; it builds with the plugin SDK and the
  host's interface definition
- `tests/`: tests

## Line numbers and depth

Lines are numbered from zero, modulo 2^32. The brace depth is counted without a
limit that a source could reach.

## Letter case

Keywords and the file extension count in upper and lower case. They are found in
the text itself, character by character: a character counts as the ASCII letter
that is its lower case, where there is one. Besides the ASCII letters that is the
Kelvin sign, whose lower case is `k`. `extract_qs_name` takes any keyword: one that
ends in `i` may end in U+0130, whose lower case starts with `i`, and one beyond
ASCII is looked for by `str::to_lowercase`.
