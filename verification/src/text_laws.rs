//! What holds of the operations on strings, in terms of how strings are put together.

use vstd::prelude::*;

use crate::text::{after_prefix, has_run, is_white_space, lines_of, run_at, split_at_first};
use crate::text::{trimmed, trimmed_end, trimmed_start, without_cr};

verus! {

/// The white space characters are those with these code points.
pub proof fn law_white_space(c: char)
    ensures
        is_white_space(c) == {
            let point = c as int;
            ||| 9 <= point <= 13
            ||| point == 32
            ||| point == 133
            ||| point == 160
            ||| point == 5760
            ||| 8192 <= point <= 8202
            ||| point == 8232
            ||| point == 8233
            ||| point == 8239
            ||| point == 8287
            ||| point == 12288
        },
{
}

/// Every character of `s` is white space.
pub open spec fn is_blank(s: Seq<char>) -> bool {
    forall|i: int| 0 <= i < s.len() ==> is_white_space(#[trigger] s[i])
}

proof fn lemma_start_is_trimmed(before: Seq<char>, rest: Seq<char>)
    requires
        is_blank(before),
        rest.len() == 0 || !is_white_space(rest.first()),
    ensures
        trimmed_start(before + rest) == rest,
    decreases before.len(),
{
    let s = before + rest;
    if before.len() > 0 {
        let less = before.drop_first();
        assert(is_white_space(before[0]));
        assert(s.first() == before[0]);
        assert forall|i: int| 0 <= i < less.len() implies is_white_space(#[trigger] less[i]) by {
            assert(is_white_space(before[i + 1]));
        }
        lemma_start_is_trimmed(less, rest);
        assert(s.drop_first() =~= less + rest);
    } else {
        assert(s =~= rest);
    }
}

proof fn lemma_end_is_trimmed(rest: Seq<char>, after: Seq<char>)
    requires
        is_blank(after),
        rest.len() == 0 || !is_white_space(rest.last()),
    ensures
        trimmed_end(rest + after) == rest,
    decreases after.len(),
{
    let s = rest + after;
    if after.len() > 0 {
        let less = after.drop_last();
        assert(is_white_space(after[after.len() - 1]));
        assert(s.last() == after[after.len() - 1]);
        assert forall|i: int| 0 <= i < less.len() implies is_white_space(#[trigger] less[i]) by {
            assert(is_white_space(after[i]));
        }
        lemma_end_is_trimmed(rest, less);
        assert(s.drop_last() =~= rest + less);
    } else {
        assert(s =~= rest);
    }
}

/// White space on both sides of a text is trimmed off, and nothing else is.
pub proof fn law_trimmed(before: Seq<char>, core: Seq<char>, after: Seq<char>)
    requires
        is_blank(before),
        is_blank(after),
        core.len() == 0 || (!is_white_space(core.first()) && !is_white_space(core.last())),
    ensures
        trimmed(before + core + after) == core,
{
    if core.len() == 0 {
        let s = before + after;
        assert forall|i: int| 0 <= i < s.len() implies is_white_space(#[trigger] s[i]) by {
            if i < before.len() {
                assert(is_white_space(before[i]));
            } else {
                assert(is_white_space(after[i - before.len()]));
            }
        }
        lemma_start_is_trimmed(s, core);
        assert(s + core =~= before + core + after);
        assert(trimmed_end(core) =~= core);
    } else {
        assert((core + after).first() == core.first());
        lemma_start_is_trimmed(before, core + after);
        assert(before + (core + after) =~= before + core + after);
        lemma_end_is_trimmed(core, after);
    }
}

/// What follows a prefix is found, whatever the prefix is and whatever follows it.
pub proof fn law_after_prefix(prefix: Seq<char>, rest: Seq<char>)
    ensures
        after_prefix(prefix + rest, prefix) == Some(rest),
{
    let s = prefix + rest;
    assert(prefix =~= s.subrange(0, prefix.len() as int));
    assert(s.skip(prefix.len() as int) =~= rest);
}

/// A text in which a prefix is found is that prefix, with what was found after it.
pub proof fn law_prefix_was_there(s: Seq<char>, prefix: Seq<char>)
    ensures
        after_prefix(s, prefix) matches Some(rest) ==> s == prefix + rest,
{
    if after_prefix(s, prefix) is Some {
        assert(prefix =~= s.subrange(0, prefix.len() as int));
        assert(s =~= prefix + s.skip(prefix.len() as int));
    }
}

/// A text is split at the first of a character, whatever stands after it.
pub proof fn law_split_at_first(head: Seq<char>, c: char, tail: Seq<char>)
    requires
        !head.contains(c),
    ensures
        split_at_first(head + seq![c] + tail, c) == Some((head, tail)),
{
    crate::text::lemma_split_at_first(head + seq![c] + tail, c, head, tail);
}

/// A text without a character is not split at it.
pub proof fn law_no_split(s: Seq<char>, c: char)
    requires
        !s.contains(c),
    ensures
        split_at_first(s, c) is None,
{
}

/// A run occurs wherever it stands.
pub proof fn law_run_occurs<T>(before: Seq<T>, run: Seq<T>, after: Seq<T>)
    ensures
        has_run(before + run + after, run),
{
    let s = before + run + after;
    let at = before.len() as int;
    assert(s.subrange(at, at + run.len()) =~= run);
    assert(run_at(s, run, at));
}

/// A run that occurs stands somewhere.
pub proof fn law_run_stands_somewhere<T>(s: Seq<T>, run: Seq<T>)
    requires
        has_run(s, run),
    ensures
        exists|before: Seq<T>, after: Seq<T>| s == #[trigger] (before + run + after),
{
    let i = choose|i: int| #[trigger] run_at(s, run, i);
    let before = s.take(i);
    let after = s.skip(i + run.len());
    assert(s =~= before + run + after);
}

/// A line ends at the first line feed, and the lines after it follow.
pub proof fn law_first_line(line: Seq<char>, rest: Seq<char>)
    requires
        !line.contains('\n'),
    ensures
        lines_of(line + seq!['\n'] + rest) == seq![without_cr(line)] + lines_of(rest),
{
    crate::text::lemma_split_at_first(line + seq!['\n'] + rest, '\n', line, rest);
}

/// A text without a line feed is one line, or none if it is empty.
pub proof fn law_last_line(line: Seq<char>)
    requires
        !line.contains('\n'),
    ensures
        lines_of(line) == if line.len() == 0 {
            Seq::empty()
        } else {
            seq![line]
        },
{
}

/// One carriage return at the end of a line is taken off, and nothing else is.
pub proof fn law_without_cr(line: Seq<char>)
    ensures
        without_cr(line.push('\r')) == line,
        line.len() == 0 || line.last() != '\r' ==> without_cr(line) == line,
{
    assert(line.push('\r').drop_last() =~= line);
}

} // verus!
