//! What the operations on text do, said of pieces that are put together.

use crate::laws::lines::{
    blank, lemma_first_word_of, lemma_trimmed_end_skips, lemma_trimmed_start_concat,
    lemma_trimmed_start_skips,
};
use crate::text::{
    after_first_word, child_id, decimal, first_word, found, has_suffix, lemma_found_is_first,
    line_len, lines_of, occurrences, occurs_at, trimmed, trimmed_end, trimmed_end_of,
    trimmed_start, whitespace, word_len,
};
use vstd::prelude::*;

verus! {

/// A character is counted once for each of its places.
pub proof fn every_place_is_counted(s: Seq<char>, c: char)
    ensures
        occurrences(s, c) == s.filter(|d: char| d == c).len(),
    decreases s.len(),
{
    reveal(Seq::filter);
    if s.len() > 0 {
        every_place_is_counted(s.drop_last(), c);
    }
}

/// The places in two texts add up, and a single character counts for itself alone.
pub proof fn counts_add_up(a: Seq<char>, b: Seq<char>, c: char, d: char)
    ensures
        occurrences(a + b, c) == occurrences(a, c) + occurrences(b, c),
        occurrences(seq![d], c) == (if d == c {
            1nat
        } else {
            0nat
        }),
        occurrences(seq![], c) == 0,
    decreases b.len(),
{
    if b.len() > 0 {
        counts_add_up(a, b.drop_last(), c, d);
        assert((a + b).drop_last() == a + b.drop_last());
        assert((a + b).last() == b.last());
    } else {
        assert(a + b == a);
    }
    assert(seq![d].drop_last() == Seq::<char>::empty());
    assert(occurrences(seq![d].drop_last(), c) == 0);
}

/// Trimming cuts the whitespace on each side off and leaves what stands between.
pub proof fn trimming_leaves_the_core(before: Seq<char>, core: Seq<char>, after: Seq<char>)
    requires
        forall|i: int| 0 <= i < before.len() ==> whitespace(#[trigger] before[i]),
        forall|i: int| 0 <= i < after.len() ==> whitespace(#[trigger] after[i]),
        core.len() > 0 ==> !whitespace(core[0]) && !whitespace(core.last()),
    ensures
        trimmed(before + core + after) == core,
        trimmed_start(before + core) == core,
        trimmed_end(core + after) == core,
{
    assert(blank(before) && blank(after));
    lemma_trimmed_start_skips(before, core);
    lemma_trimmed_end_skips(core, after);
    assert(trimmed_start(core) == core);
    assert(trimmed_end(core) == core);
    assert(before + core + after == before + (core + after));
    lemma_trimmed_start_skips(before, core + after);
    if core.len() == 0 {
        assert(core + after == after);
        lemma_trimmed_start_concat(after, seq![]);
    } else {
        assert((core + after)[0] == core[0]);
        assert(trimmed_start(core + after) == core + after);
    }
}

/// Trimming the end of a character takes it away as often as it stands there, and
/// nothing else.
pub proof fn only_that_character_is_trimmed(s: Seq<char>, tail: Seq<char>, c: char)
    requires
        s.len() > 0 ==> s.last() != c,
        forall|i: int| 0 <= i < tail.len() ==> (#[trigger] tail[i]) == c,
    ensures
        trimmed_end_of(s + tail, c) == s,
    decreases tail.len(),
{
    let all = s + tail;
    if tail.len() > 0 {
        let short = tail.drop_last();
        assert forall|i: int| 0 <= i < short.len() implies (#[trigger] short[i]) == c by {
            assert(tail[i] == c);
        }
        only_that_character_is_trimmed(s, short, c);
        assert(all.drop_last() == s + short);
        assert(all.last() == tail.last());
    } else {
        assert(all == s);
    }
}

/// What is found is the first place of the pattern; what is not found stands
/// nowhere.
pub proof fn the_first_place_is_found(s: Seq<char>, pattern: Seq<char>)
    ensures
        match found(s, pattern) {
            Some(i) => {
                &&& 0 <= i
                &&& i + pattern.len() <= s.len()
                &&& s.subrange(i, i + pattern.len()) == pattern
                &&& forall|j: int|
                    0 <= j < i ==> #[trigger] s.subrange(j, j + pattern.len()) != pattern
            },
            None => forall|j: int|
                0 <= j && j + pattern.len() <= s.len() ==> #[trigger] s.subrange(
                    j,
                    j + pattern.len(),
                ) != pattern,
        },
{
    lemma_found_is_first(s, pattern);
    match found(s, pattern) {
        Some(i) => {
            assert forall|j: int| 0 <= j < i implies #[trigger] s.subrange(j, j + pattern.len())
                != pattern by {
                assert(!occurs_at(s, pattern, j));
            }
        },
        None => {
            assert forall|j: int| 0 <= j && j + pattern.len() <= s.len() implies
                #[trigger] s.subrange(j, j + pattern.len()) != pattern by {
                assert(!occurs_at(s, pattern, j));
            }
        },
    }
}

/// A text ends with what was put at its end, and with nothing else.
pub proof fn suffixes_stand_at_the_end(s: Seq<char>, suffix: Seq<char>)
    ensures
        has_suffix(s, suffix) <==> exists|front: Seq<char>| s == #[trigger] (front + suffix),
{
    if has_suffix(s, suffix) {
        let front = s.take(s.len() - suffix.len());
        assert(s == front + suffix);
    }
    if exists|front: Seq<char>| s == #[trigger] (front + suffix) {
        let front = choose|front: Seq<char>| s == #[trigger] (front + suffix);
        assert(s.skip(s.len() - suffix.len()) == suffix);
    }
}

/// The first word is what stands between whitespace; the rest is what stands behind
/// it.
pub proof fn words_stand_between_whitespace(before: Seq<char>, word: Seq<char>, rest: Seq<char>)
    requires
        forall|i: int| 0 <= i < before.len() ==> whitespace(#[trigger] before[i]),
        word.len() > 0,
        forall|i: int| 0 <= i < word.len() ==> !whitespace(#[trigger] word[i]),
        rest.len() > 0 ==> whitespace(rest[0]),
    ensures
        first_word(before + word + rest) == word,
        after_first_word(before + word + rest) == rest,
{
    assert(blank(before));
    assert(before + word + rest == before + (word + rest));
    lemma_trimmed_start_skips(before, word + rest);
    lemma_first_word_of(word, rest);
    assert(!whitespace(word[0]));
    assert(trimmed_start(word + rest) == word + rest);
}

/// Whitespace alone holds no word.
pub proof fn whitespace_holds_no_word(s: Seq<char>)
    requires
        forall|i: int| 0 <= i < s.len() ==> whitespace(#[trigger] s[i]),
    ensures
        first_word(s).len() == 0,
        after_first_word(s).len() == 0,
{
    assert(blank(s));
    lemma_trimmed_start_concat(s, seq![]);
    assert(trimmed_start(s) == Seq::<char>::empty());
    assert(word_len(trimmed_start(s)) == 0);
}

proof fn lemma_line_len_of(line: Seq<char>, rest: Seq<char>)
    requires
        forall|i: int| 0 <= i < line.len() ==> (#[trigger] line[i]) != '\n',
    ensures
        line_len(line + seq!['\n'] + rest) == line.len(),
        line_len(line) == line.len(),
    decreases line.len(),
{
    let all = line + seq!['\n'] + rest;
    if line.len() > 0 {
        let short = line.skip(1);
        assert forall|i: int| 0 <= i < short.len() implies (#[trigger] short[i]) != '\n' by {
            assert(line[i + 1] != '\n');
        }
        lemma_line_len_of(short, rest);
        assert(all.skip(1) == short + seq!['\n'] + rest);
        assert(all[0] == line[0]);
    } else {
        assert(all[0] == '\n');
    }
}

/// A line ends at a line feed, and a carriage return before it belongs to the
/// ending. What follows is split by itself.
pub proof fn lines_end_at_line_feeds(line: Seq<char>, rest: Seq<char>)
    requires
        forall|i: int| 0 <= i < line.len() ==> (#[trigger] line[i]) != '\n',
    ensures
        line.len() == 0 || line.last() != '\r' ==> lines_of(line + seq!['\n'] + rest) == seq![line]
            + lines_of(rest),
        lines_of(line + seq!['\r', '\n'] + rest) == seq![line] + lines_of(rest),
{
    lemma_one_line(line, rest);
    let long = line.push('\r');
    assert(long + seq!['\n'] + rest == line + seq!['\r', '\n'] + rest);
    assert(long.drop_last() == line);
    lemma_one_line(long, rest);
}

proof fn lemma_one_line(line: Seq<char>, rest: Seq<char>)
    requires
        forall|i: int| 0 <= i < line.len() ==> (#[trigger] line[i]) != '\n',
    ensures
        lines_of(line + seq!['\n'] + rest) == seq![
            if line.len() > 0 && line.last() == '\r' {
                line.drop_last()
            } else {
                line
            },
        ] + lines_of(rest),
{
    let all = line + seq!['\n'] + rest;
    let n = line.len() as int;
    lemma_line_len_of(line, rest);
    assert(all.take(n) == line);
    assert(all.skip(n + 1) == rest);
}

/// What stands behind the last line feed is a line, whatever it ends with; nothing
/// is none.
pub proof fn the_last_line_needs_no_ending(line: Seq<char>)
    requires
        forall|i: int| 0 <= i < line.len() ==> (#[trigger] line[i]) != '\n',
    ensures
        line.len() > 0 ==> lines_of(line) == seq![line],
        line.len() == 0 ==> lines_of(line) == Seq::<Seq<char>>::empty(),
{
    lemma_line_len_of(line, seq![]);
}

/// A number below ten is one digit; any other is the digits of its tens, followed
/// by its last digit.
pub proof fn digits_count_in_tens(tens: nat, ones: nat)
    requires
        ones < 10,
    ensures
        decimal(ones) == seq!["0123456789"@[ones as int]],
        tens > 0 ==> decimal(10 * tens + ones) == decimal(tens) + seq!["0123456789"@[ones as int]],
{
    reveal_strlit("0123456789");
    let n = 10 * tens + ones;
    assert(n / 10 == tens && n % 10 == ones);
    assert((48 + ones) as char == "0123456789"@[ones as int]);
}

/// The id of a child is the id of its parent, a dot and its number.
pub proof fn child_ids_name_their_parents(parent: Seq<char>, index: nat)
    ensures
        child_id(parent, index) == parent + "."@ + decimal(index),
{
    reveal_strlit(".");
    assert(parent.push('.') == parent + "."@);
}

} // verus!
