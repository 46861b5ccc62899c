//! Character-level text operations: whitespace, trimming, searching, line
//! splitting and decimal numbers. Text is a sequence of characters throughout.

use vstd::prelude::*;
use vstd::slice::slice_subrange;

verus! {

/// `String::push` puts the character behind what the string holds.
pub assume_specification[ String::push ](s: &mut String, c: char)
    ensures
        final(s)@ == old(s)@.push(c),
;

/// The characters with the Unicode property `White_Space`.
pub open spec fn whitespace(c: char) -> bool {
    let u = c as u32;
    ||| 0x09 <= u <= 0x0d
    ||| u == 0x20
    ||| u == 0x85
    ||| u == 0xa0
    ||| u == 0x1680
    ||| 0x2000 <= u <= 0x200a
    ||| u == 0x2028
    ||| u == 0x2029
    ||| u == 0x202f
    ||| u == 0x205f
    ||| u == 0x3000
}

/// `s` without its leading whitespace.
pub open spec fn trimmed_start(s: Seq<char>) -> Seq<char>
    decreases s.len(),
{
    if s.len() > 0 && whitespace(s[0]) {
        trimmed_start(s.skip(1))
    } else {
        s
    }
}

/// `s` without its trailing whitespace.
pub open spec fn trimmed_end(s: Seq<char>) -> Seq<char>
    decreases s.len(),
{
    if s.len() > 0 && whitespace(s.last()) {
        trimmed_end(s.drop_last())
    } else {
        s
    }
}

/// `s` without the whitespace on either side.
pub open spec fn trimmed(s: Seq<char>) -> Seq<char> {
    trimmed_end(trimmed_start(s))
}

/// `s` without the characters `c` that it ends with.
pub open spec fn trimmed_end_of(s: Seq<char>, c: char) -> Seq<char>
    decreases s.len(),
{
    if s.len() > 0 && s.last() == c {
        trimmed_end_of(s.drop_last(), c)
    } else {
        s
    }
}

/// `pattern` stands in `s` at index `i`.
pub open spec fn occurs_at(s: Seq<char>, pattern: Seq<char>, i: int) -> bool {
    &&& 0 <= i
    &&& i + pattern.len() <= s.len()
    &&& s.subrange(i, i + pattern.len()) == pattern
}

/// The least index from `from` on at which `pattern` stands in `s`.
pub open spec fn found_from(s: Seq<char>, pattern: Seq<char>, from: int) -> Option<int>
    decreases s.len() + 1 - from,
{
    if from < 0 || from > s.len() {
        None
    } else if occurs_at(s, pattern, from) {
        Some(from)
    } else {
        found_from(s, pattern, from + 1)
    }
}

/// The least index at which `pattern` stands in `s`.
pub open spec fn found(s: Seq<char>, pattern: Seq<char>) -> Option<int> {
    found_from(s, pattern, 0)
}

/// `s` ends with `suffix`.
pub open spec fn has_suffix(s: Seq<char>, suffix: Seq<char>) -> bool {
    &&& suffix.len() <= s.len()
    &&& s.skip(s.len() - suffix.len()) == suffix
}

/// How many characters stand at the start of `s` before the first whitespace.
pub open spec fn word_len(s: Seq<char>) -> nat
    decreases s.len(),
{
    if s.len() > 0 && !whitespace(s[0]) {
        1 + word_len(s.skip(1))
    } else {
        0
    }
}

/// The first whitespace-separated word of `s`; empty where there is none.
pub open spec fn first_word(s: Seq<char>) -> Seq<char> {
    let t = trimmed_start(s);
    t.take(word_len(t) as int)
}

/// What stands behind the first word of `s`.
pub open spec fn after_first_word(s: Seq<char>) -> Seq<char> {
    let t = trimmed_start(s);
    t.skip(word_len(t) as int)
}

/// How often `c` stands in `s`.
pub open spec fn occurrences(s: Seq<char>, c: char) -> nat
    decreases s.len(),
{
    if s.len() == 0 {
        0
    } else {
        occurrences(s.drop_last(), c) + if s.last() == c {
            1nat
        } else {
            0nat
        }
    }
}

/// How many characters stand at the start of `s` before the first line feed.
pub open spec fn line_len(s: Seq<char>) -> nat
    decreases s.len(),
{
    if s.len() > 0 && s[0] != '\n' {
        1 + line_len(s.skip(1))
    } else {
        0
    }
}

/// `s` without one carriage return at its end.
pub open spec fn without_carriage_return(s: Seq<char>) -> Seq<char> {
    if s.len() > 0 && s.last() == '\r' {
        s.drop_last()
    } else {
        s
    }
}

/// The lines of `s`. A line ends in a line feed, with or without a carriage
/// return before it; the last line may lack its ending.
pub open spec fn lines_of(s: Seq<char>) -> Seq<Seq<char>>
    decreases s.len(),
{
    if s.len() == 0 {
        seq![]
    } else {
        let n = line_len(s) as int;
        if 0 <= n < s.len() {
            seq![without_carriage_return(s.take(n))] + lines_of(s.skip(n + 1))
        } else {
            seq![s]
        }
    }
}

/// The decimal digits of `n`, most significant first.
pub open spec fn decimal(n: nat) -> Seq<char>
    decreases n,
{
    if n < 10 {
        seq![(48 + n) as char]
    } else {
        decimal(n / 10).push((48 + n % 10) as char)
    }
}

/// A line is no longer than the text.
pub proof fn lemma_line_len_bound(s: Seq<char>)
    ensures
        line_len(s) <= s.len(),
    decreases s.len(),
{
    if s.len() > 0 && s[0] != '\n' {
        lemma_line_len_bound(s.skip(1));
    }
}

/// What is found is the first place of the pattern.
pub proof fn lemma_found_is_first(s: Seq<char>, pattern: Seq<char>)
    ensures
        match found(s, pattern) {
            Some(i) => occurs_at(s, pattern, i) && forall|j: int|
                0 <= j < i ==> !occurs_at(s, pattern, j),
            None => forall|j: int| !occurs_at(s, pattern, j),
        },
{
    lemma_found_from_is_first(s, pattern, 0);
}

proof fn lemma_found_from_is_first(s: Seq<char>, pattern: Seq<char>, from: int)
    requires
        0 <= from,
    ensures
        match found_from(s, pattern, from) {
            Some(i) => from <= i && occurs_at(s, pattern, i) && forall|j: int|
                from <= j < i ==> !occurs_at(s, pattern, j),
            None => forall|j: int| from <= j ==> !occurs_at(s, pattern, j),
        },
    decreases s.len() + 1 - from,
{
    if from <= s.len() && !occurs_at(s, pattern, from) {
        lemma_found_from_is_first(s, pattern, from + 1);
    }
}

/// The first place of the pattern is found.
pub proof fn lemma_first_is_found(s: Seq<char>, pattern: Seq<char>, i: int)
    requires
        occurs_at(s, pattern, i),
        forall|j: int| 0 <= j < i ==> !occurs_at(s, pattern, j),
    ensures
        found(s, pattern) == Some(i),
{
    lemma_found_is_first(s, pattern);
}

/// Trimming the start cuts whitespace off, up to the first other character.
pub proof fn lemma_trimmed_start_cuts(s: Seq<char>)
    ensures
        trimmed_start(s).len() <= s.len(),
        trimmed_start(s) == s.skip(s.len() - trimmed_start(s).len()),
        forall|i: int| 0 <= i < s.len() - trimmed_start(s).len() ==> whitespace(#[trigger] s[i]),
        trimmed_start(s).len() > 0 ==> !whitespace(trimmed_start(s)[0]),
    decreases s.len(),
{
    if s.len() > 0 && whitespace(s[0]) {
        let rest = s.skip(1);
        lemma_trimmed_start_cuts(rest);
        let k = rest.len() - trimmed_start(rest).len();
        assert(rest.skip(k) == s.skip(k + 1));
        assert forall|i: int| 0 <= i < k + 1 implies whitespace(#[trigger] s[i]) by {
            if i > 0 {
                assert(whitespace(rest[i - 1]));
            }
        }
    } else {
        assert(s.skip(0) == s);
    }
}

/// Trimming the end cuts whitespace off, down to the last other character.
pub proof fn lemma_trimmed_end_cuts(s: Seq<char>)
    ensures
        trimmed_end(s).len() <= s.len(),
        trimmed_end(s) == s.take(trimmed_end(s).len() as int),
        forall|i: int| trimmed_end(s).len() <= i < s.len() ==> whitespace(#[trigger] s[i]),
        trimmed_end(s).len() > 0 ==> !whitespace(trimmed_end(s).last()),
    decreases s.len(),
{
    if s.len() > 0 && whitespace(s.last()) {
        let rest = s.drop_last();
        lemma_trimmed_end_cuts(rest);
        let n = trimmed_end(rest).len() as int;
        assert(rest.take(n) == s.take(n));
        assert forall|i: int| n <= i < s.len() implies whitespace(#[trigger] s[i]) by {
            if i < s.len() - 1 {
                assert(whitespace(rest[i]));
            }
        }
    } else {
        assert(s.take(s.len() as int) == s);
    }
}

/// `part` stands in `s` as one piece.
pub open spec fn piece_of(part: Seq<char>, s: Seq<char>) -> bool {
    exists|i: int, j: int| 0 <= i <= j <= s.len() && part == #[trigger] s.subrange(i, j)
}

/// A piece of a piece is a piece.
pub proof fn lemma_piece_of_piece(a: Seq<char>, b: Seq<char>, c: Seq<char>)
    requires
        piece_of(a, b),
        piece_of(b, c),
    ensures
        piece_of(a, c),
{
    let (i, j) = choose|i: int, j: int| 0 <= i <= j <= b.len() && a == #[trigger] b.subrange(i, j);
    let (k, l) = choose|k: int, l: int| 0 <= k <= l <= c.len() && b == #[trigger] c.subrange(k, l);
    assert(a == c.subrange(k + i, k + j));
}

/// What stands between two places is a piece.
pub proof fn lemma_piece_by_index(s: Seq<char>, i: int, j: int)
    requires
        0 <= i <= j <= s.len(),
    ensures
        piece_of(s.subrange(i, j), s),
{
}

/// Trimming leaves a piece of the text.
pub proof fn lemma_trimmed_is_piece(s: Seq<char>)
    ensures
        piece_of(trimmed_start(s), s),
        piece_of(trimmed_end(s), s),
        piece_of(trimmed(s), s),
{
    lemma_trimmed_start_is_piece(s);
    lemma_trimmed_end_is_piece(s);
    lemma_trimmed_end_is_piece(trimmed_start(s));
    lemma_piece_of_piece(trimmed(s), trimmed_start(s), s);
}

proof fn lemma_trimmed_start_is_piece(s: Seq<char>)
    ensures
        piece_of(trimmed_start(s), s),
    decreases s.len(),
{
    if s.len() > 0 && whitespace(s[0]) {
        assert(s.skip(1) == s.subrange(1, s.len() as int));
        lemma_piece_by_index(s, 1, s.len() as int);
        lemma_trimmed_start_is_piece(s.skip(1));
        lemma_piece_of_piece(trimmed_start(s), s.skip(1), s);
    } else {
        assert(s == s.subrange(0, s.len() as int));
    }
}

proof fn lemma_trimmed_end_is_piece(s: Seq<char>)
    ensures
        piece_of(trimmed_end(s), s),
    decreases s.len(),
{
    if s.len() > 0 && whitespace(s.last()) {
        assert(s.drop_last() == s.subrange(0, s.len() - 1));
        lemma_piece_by_index(s, 0, s.len() - 1);
        lemma_trimmed_end_is_piece(s.drop_last());
        lemma_piece_of_piece(trimmed_end(s), s.drop_last(), s);
    } else {
        assert(s == s.subrange(0, s.len() as int));
    }
}

/// The characters of a string.
pub fn chars_of(s: &str) -> (chars: Vec<char>)
    ensures
        chars@ == s@,
{
    let mut chars: Vec<char> = Vec::new();
    for c in it: s.chars()
        invariant
            it.seq() == s@,
            chars@ == s@.take(it.index() as int),
    {
        proof {
            assert(s@.take(it.index() + 1) == s@.take(it.index() as int).push(c));
        }
        chars.push(c);
    }
    assert(s@.take(s@.len() as int) == s@);
    chars
}

/// The string of a sequence of characters.
pub fn string_of(chars: &[char]) -> (s: String)
    ensures
        s@ == chars@,
{
    let mut s: String = String::new();
    for i in 0..chars.len()
        invariant
            s@ == chars@.take(i as int),
    {
        proof {
            assert(chars@.take(i + 1) == chars@.take(i as int).push(chars@[i as int]));
        }
        s.push(chars[i]);
    }
    assert(chars@.take(chars@.len() as int) == chars@);
    s
}

/// Decides [`whitespace`].
pub fn is_whitespace(c: char) -> (b: bool)
    ensures
        b == whitespace(c),
{
    let u: u32 = c as u32;
    (0x09 <= u && u <= 0x0d) || u == 0x20 || u == 0x85 || u == 0xa0 || u == 0x1680 || (0x2000 <= u
        && u <= 0x200a) || u == 0x2028 || u == 0x2029 || u == 0x202f || u == 0x205f || u == 0x3000
}

/// Cuts the leading whitespace off.
pub fn trim_start(s: &[char]) -> (r: &[char])
    ensures
        r@ == trimmed_start(s@),
{
    let mut i: usize = 0;
    assert(s@.skip(0) == s@);
    while i < s.len() && is_whitespace(s[i])
        invariant
            i <= s@.len(),
            trimmed_start(s@) == trimmed_start(s@.skip(i as int)),
        decreases s@.len() - i,
    {
        assert(s@.skip(i as int).skip(1) == s@.skip(i + 1));
        i += 1;
    }
    assert(s@.subrange(i as int, s@.len() as int) == s@.skip(i as int));
    slice_subrange(s, i, s.len())
}

/// Cuts the trailing whitespace off.
pub fn trim_end(s: &[char]) -> (r: &[char])
    ensures
        r@ == trimmed_end(s@),
{
    let mut n: usize = s.len();
    assert(s@.take(n as int) == s@);
    while n > 0 && is_whitespace(s[n - 1])
        invariant
            n <= s@.len(),
            trimmed_end(s@) == trimmed_end(s@.take(n as int)),
        decreases n,
    {
        assert(s@.take(n as int).drop_last() == s@.take(n - 1));
        n -= 1;
    }
    slice_subrange(s, 0, n)
}

/// Cuts the whitespace on both sides off.
pub fn trim(s: &[char]) -> (r: &[char])
    ensures
        r@ == trimmed(s@),
{
    trim_end(trim_start(s))
}

/// Cuts the characters `c` at the end off.
pub fn trim_end_matches(s: &[char], c: char) -> (r: &[char])
    ensures
        r@ == trimmed_end_of(s@, c),
{
    let mut n: usize = s.len();
    assert(s@.take(n as int) == s@);
    while n > 0 && s[n - 1] == c
        invariant
            n <= s@.len(),
            trimmed_end_of(s@, c) == trimmed_end_of(s@.take(n as int), c),
        decreases n,
    {
        assert(s@.take(n as int).drop_last() == s@.take(n - 1));
        n -= 1;
    }
    slice_subrange(s, 0, n)
}

/// Whether two texts are the same.
pub fn same_text(a: &[char], b: &[char]) -> (same: bool)
    ensures
        same == (a@ == b@),
{
    if a.len() != b.len() {
        return false;
    }
    for i in 0..a.len()
        invariant
            a@.len() == b@.len(),
            a@.take(i as int) == b@.take(i as int),
    {
        if a[i] != b[i] {
            assert(a@[i as int] != b@[i as int]);
            return false;
        }
        proof {
            assert(a@.take(i + 1) == a@.take(i as int).push(a@[i as int]));
            assert(b@.take(i + 1) == b@.take(i as int).push(b@[i as int]));
        }
    }
    assert(a@.take(a@.len() as int) == a@);
    assert(b@.take(b@.len() as int) == b@);
    true
}

/// Finds the first place at which `pattern` stands in `s`.
pub fn find(s: &[char], pattern: &[char]) -> (at: Option<usize>)
    ensures
        match at {
            Some(i) => found(s@, pattern@) == Some(i as int),
            None => found(s@, pattern@) is None,
        },
{
    if pattern.len() > s.len() {
        proof {
            lemma_too_long_is_not_found(s@, pattern@, 0);
        }
        return None;
    }
    let width: usize = pattern.len();
    let len: usize = s.len();
    let mut i: usize = 0;
    while i < len - width
        invariant
            len == s@.len(),
            width == pattern@.len(),
            i <= len - width,
            width <= len,
            found(s@, pattern@) == found_from(s@, pattern@, i as int),
        decreases len - i,
    {
        if same_text(slice_subrange(s, i, i + width), pattern) {
            return Some(i);
        }
        i += 1;
    }
    if same_text(slice_subrange(s, i, len), pattern) {
        Some(i)
    } else {
        proof {
            lemma_too_long_is_not_found(s@, pattern@, i + 1);
        }
        None
    }
}

proof fn lemma_too_long_is_not_found(s: Seq<char>, pattern: Seq<char>, from: int)
    requires
        0 <= from,
        from + pattern.len() > s.len(),
    ensures
        found_from(s, pattern, from) is None,
    decreases s.len() + 1 - from,
{
    if from <= s.len() {
        lemma_too_long_is_not_found(s, pattern, from + 1);
    }
}

/// Whether `s` ends with `suffix`.
pub fn ends_with(s: &[char], suffix: &[char]) -> (b: bool)
    ensures
        b == has_suffix(s@, suffix@),
{
    if suffix.len() > s.len() {
        return false;
    }
    let from: usize = s.len() - suffix.len();
    assert(s@.subrange(from as int, s@.len() as int) == s@.skip(from as int));
    same_text(slice_subrange(s, from, s.len()), suffix)
}

/// Splits the first word of `s` from what stands behind it.
pub fn split_first_word(s: &[char]) -> (r: (&[char], &[char]))
    ensures
        r.0@ == first_word(s@),
        r.1@ == after_first_word(s@),
{
    let t = trim_start(s);
    let mut n: usize = 0;
    assert(t@.skip(0) == t@);
    while n < t.len() && !is_whitespace(t[n])
        invariant
            n <= t@.len(),
            word_len(t@) == n + word_len(t@.skip(n as int)),
        decreases t@.len() - n,
    {
        assert(t@.skip(n as int).skip(1) == t@.skip(n + 1));
        n += 1;
    }
    assert(t@.subrange(n as int, t@.len() as int) == t@.skip(n as int));
    (slice_subrange(t, 0, n), slice_subrange(t, n, t.len()))
}

/// Counts the characters `c` in `s`.
pub fn count_char(s: &[char], c: char) -> (n: usize)
    ensures
        n == occurrences(s@, c),
        n <= s@.len(),
{
    let mut n: usize = 0;
    for i in 0..s.len()
        invariant
            n <= i,
            n == occurrences(s@.take(i as int), c),
    {
        assert(s@.take(i + 1).drop_last() == s@.take(i as int));
        if s[i] == c {
            n += 1;
        }
    }
    assert(s@.take(s@.len() as int) == s@);
    n
}

/// The views of a list of lines.
pub open spec fn texts(lines: Seq<Vec<char>>) -> Seq<Seq<char>> {
    lines.map_values(|l: Vec<char>| l@)
}

/// Copies a text.
pub fn copy_text(s: &[char]) -> (v: Vec<char>)
    ensures
        v@ == s@,
{
    let mut v: Vec<char> = Vec::new();
    for i in 0..s.len()
        invariant
            v@ == s@.take(i as int),
    {
        proof {
            assert(s@.take(i + 1) == s@.take(i as int).push(s@[i as int]));
        }
        v.push(s[i]);
    }
    assert(s@.take(s@.len() as int) == s@);
    v
}

/// Splits a text into its lines.
pub fn split_lines(s: &[char]) -> (lines: Vec<Vec<char>>)
    ensures
        texts(lines@) == lines_of(s@),
{
    let mut lines: Vec<Vec<char>> = Vec::new();
    let mut at: usize = 0;
    assert(s@.skip(0) == s@);
    assert(texts(lines@) == Seq::<Seq<char>>::empty());
    while at < s.len()
        invariant
            at <= s@.len(),
            lines_of(s@) == texts(lines@) + lines_of(s@.skip(at as int)),
        decreases s@.len() - at,
    {
        let ghost rest = s@.skip(at as int);
        let mut n: usize = at;
        assert(rest.skip(0) == rest);
        while n < s.len() && s[n] != '\n'
            invariant
                at <= n <= s@.len(),
                rest == s@.skip(at as int),
                line_len(rest) == (n - at) + line_len(rest.skip(n - at)),
            decreases s@.len() - n,
        {
            assert(rest.skip(n - at).skip(1) == rest.skip(n + 1 - at));
            n += 1;
        }
        let ghost before = texts(lines@);
        let ghost old_lines = lines@;
        if n < s.len() {
            let mut end: usize = n;
            if end > at && s[end - 1] == '\r' {
                end -= 1;
            }
            let line = copy_text(slice_subrange(s, at, end));
            proof {
                assert(rest.take(n - at) == s@.subrange(at as int, n as int));
                assert(line@ == without_carriage_return(rest.take(n - at)));
                assert(rest.skip(n - at + 1) == s@.skip(n + 1));
            }
            lines.push(line);
            proof {
                assert(texts(lines@) == before.push(line@));
                assert(before.push(line@) + lines_of(s@.skip(n + 1)) == before + (seq![line@]
                    + lines_of(s@.skip(n + 1))));
            }
            at = n + 1;
        } else {
            let line = copy_text(slice_subrange(s, at, n));
            proof {
                assert(line@ == rest);
            }
            lines.push(line);
            proof {
                assert(texts(lines@) == before.push(line@));
                assert(s@.skip(n as int) == Seq::<char>::empty());
                assert(before.push(line@) + lines_of(s@.skip(n as int)) == before + seq![line@]);
            }
            at = n;
        }
    }
    assert(s@.skip(at as int) == Seq::<char>::empty());
    assert(texts(lines@) + lines_of(s@.skip(at as int)) == texts(lines@));
    lines
}

/// Appends the decimal digits of `n` to `s`.
pub fn push_decimal(s: &mut String, n: usize)
    ensures
        final(s)@ == old(s)@ + decimal(n as nat),
    decreases n,
{
    if n >= 10 {
        push_decimal(s, n / 10);
    }
    let digit: u8 = 48 + (n % 10) as u8;
    s.push(digit as char);
}

/// The name of the `index`-th child of the node `parent`: both joined by a dot.
pub open spec fn child_id(parent: Seq<char>, index: nat) -> Seq<char> {
    parent.push('.') + decimal(index)
}

/// Makes a [`child_id`].
pub fn make_child_id(parent: &str, index: usize) -> (id: String)
    ensures
        id@ == child_id(parent@, index as nat),
{
    let mut id: String = parent.to_owned();
    id.push('.');
    push_decimal(&mut id, index);
    id
}

} // verus!
