//! Operations on strings and byte sequences, stated over the characters that they hold.

use vstd::prelude::*;

verus! {

/// The characters with the Unicode property `White_Space`.
pub open spec fn is_white_space(c: char) -> bool {
    ||| '\u{9}' <= c <= '\u{d}'
    ||| c == ' '
    ||| c == '\u{85}'
    ||| c == '\u{a0}'
    ||| c == '\u{1680}'
    ||| '\u{2000}' <= c <= '\u{200a}'
    ||| c == '\u{2028}'
    ||| c == '\u{2029}'
    ||| c == '\u{202f}'
    ||| c == '\u{205f}'
    ||| c == '\u{3000}'
}

/// `s` without the white space that it starts with.
pub open spec fn trimmed_start(s: Seq<char>) -> Seq<char>
    decreases s.len(),
{
    if s.len() > 0 && is_white_space(s.first()) {
        trimmed_start(s.drop_first())
    } else {
        s
    }
}

/// `s` without the white space that it ends with.
pub open spec fn trimmed_end(s: Seq<char>) -> Seq<char>
    decreases s.len(),
{
    if s.len() > 0 && is_white_space(s.last()) {
        trimmed_end(s.drop_last())
    } else {
        s
    }
}

/// `s` without the white space at either end.
pub open spec fn trimmed(s: Seq<char>) -> Seq<char> {
    trimmed_end(trimmed_start(s))
}

/// What follows `prefix` in `s`, if `s` starts with `prefix`.
pub open spec fn after_prefix(s: Seq<char>, prefix: Seq<char>) -> Option<Seq<char>> {
    if prefix.is_prefix_of(s) {
        Some(s.skip(prefix.len() as int))
    } else {
        None
    }
}

/// What precedes and what follows the first `c` in `s`, if there is one.
pub open spec fn split_at_first(s: Seq<char>, c: char) -> Option<(Seq<char>, Seq<char>)> {
    if s.contains(c) {
        let at = s.index_of_first(c)->0;
        Some((s.take(at), s.skip(at + 1)))
    } else {
        None
    }
}

/// `run` occurs in `s` as a contiguous run.
pub open spec fn has_run<T>(s: Seq<T>, run: Seq<T>) -> bool {
    exists|i: int| #[trigger] run_at(s, run, i)
}

/// `run` occurs in `s` at index `i`.
pub open spec fn run_at<T>(s: Seq<T>, run: Seq<T>, i: int) -> bool {
    &&& 0 <= i
    &&& i + run.len() <= s.len()
    &&& s.subrange(i, i + run.len()) == run
}

/// `line` without the carriage return that it ends with, if it ends with one.
pub open spec fn without_cr(line: Seq<char>) -> Seq<char> {
    if line.len() > 0 && line.last() == '\r' {
        line.drop_last()
    } else {
        line
    }
}

/// The lines of `s`. A line ends at a line feed, or at a carriage return followed by a line feed,
/// and is listed without that ending; what follows the last line feed is a line if it is not empty.
pub open spec fn lines_of(s: Seq<char>) -> Seq<Seq<char>>
    decreases s.len(),
{
    if s.len() == 0 {
        Seq::empty()
    } else {
        match split_at_first(s, '\n') {
            Some((line, rest)) => if rest.len() < s.len() {
                seq![without_cr(line)] + lines_of(rest)
            } else {
                Seq::empty()
            },
            None => seq![s],
        }
    }
}

/// `s` can be cut at a `c` in only one way that leaves no `c` in the first part.
pub proof fn lemma_split_at_first(s: Seq<char>, c: char, head: Seq<char>, tail: Seq<char>)
    requires
        s == head + seq![c] + tail,
        !head.contains(c),
    ensures
        split_at_first(s, c) == Some((head, tail)),
{
    assert(s[head.len() as int] == c);
    let at = s.index_of_first(c)->0;
    s.index_of_first_ensures(c);
    if at < head.len() {
        assert(head[at] == c);
    }
    assert(at == head.len());
    assert(s.take(at) =~= head);
    assert(s.skip(at + 1) =~= tail);
}

/// Trimming takes away white space only.
pub proof fn lemma_trimmed_keeps(s: Seq<char>, c: char)
    requires
        s.contains(c),
        !is_white_space(c),
    ensures
        trimmed(s).contains(c),
{
    lemma_trimmed_start_keeps(s, c);
    lemma_trimmed_end_keeps(trimmed_start(s), c);
}

proof fn lemma_trimmed_start_keeps(s: Seq<char>, c: char)
    requires
        s.contains(c),
        !is_white_space(c),
    ensures
        trimmed_start(s).contains(c),
    decreases s.len(),
{
    if s.len() > 0 && is_white_space(s.first()) {
        let i = choose|i: int| 0 <= i < s.len() && s[i] == c;
        assert(s.drop_first()[i - 1] == c);
        lemma_trimmed_start_keeps(s.drop_first(), c);
    }
}

proof fn lemma_trimmed_end_keeps(s: Seq<char>, c: char)
    requires
        s.contains(c),
        !is_white_space(c),
    ensures
        trimmed_end(s).contains(c),
    decreases s.len(),
{
    if s.len() > 0 && is_white_space(s.last()) {
        let i = choose|i: int| 0 <= i < s.len() && s[i] == c;
        assert(s.drop_last()[i] == c);
        lemma_trimmed_end_keeps(s.drop_last(), c);
    }
}

proof fn lemma_trimmed_start_without_last(s: Seq<char>)
    requires
        s.len() > 0,
        is_white_space(s.last()),
    ensures
        ({
            let start = trimmed_start(s);
            let other = trimmed_start(s.drop_last());
            ||| start.len() == 0 && other.len() == 0
            ||| start.len() > 0 && start.last() == s.last() && other == start.drop_last()
        }),
    decreases s.len(),
{
    if s.len() > 1 && is_white_space(s.first()) {
        lemma_trimmed_start_without_last(s.drop_first());
        assert(s.drop_last().drop_first() =~= s.drop_first().drop_last());
    } else if s.len() == 1 {
        assert(s.first() == s.last());
        assert(trimmed_start(s) =~= trimmed_start(s.drop_first()));
    }
}

/// A carriage return at the end does not count for a trimmed text.
pub proof fn lemma_trimmed_without_cr(s: Seq<char>)
    ensures
        trimmed(without_cr(s)) == trimmed(s),
{
    if s.len() > 0 && s.last() == '\r' {
        lemma_trimmed_start_without_last(s);
        assert(trimmed_start(s).len() == 0 ==> trimmed_start(s) =~= trimmed_start(s.drop_last()));
    }
}

/// `str::trim`: the string without leading and trailing white space.
#[verifier::external_body]
pub(crate) fn trim(s: &str) -> (res: &str)
    ensures
        res@ == trimmed(s@),
{
    s.trim()
}

/// `str::strip_prefix` with a string: the rest of a string that starts with the prefix.
#[verifier::external_body]
pub(crate) fn strip_prefix<'a>(s: &'a str, prefix: &str) -> (res: Option<&'a str>)
    ensures
        match res {
            Some(rest) => after_prefix(s@, prefix@) == Some(rest@),
            None => after_prefix(s@, prefix@) is None,
        },
{
    s.strip_prefix(prefix)
}

/// `str::strip_suffix` with a character: what precedes it in a string that ends with it.
#[verifier::external_body]
pub(crate) fn strip_suffix(s: &str, suffix: char) -> (res: Option<&str>)
    ensures
        match res {
            Some(rest) => s@ == rest@.push(suffix),
            None => s@.len() == 0 || s@.last() != suffix,
        },
{
    s.strip_suffix(suffix)
}

/// `str::split_once` with a character: the parts before and after its first occurrence.
#[verifier::external_body]
pub(crate) fn split_once(s: &str, c: char) -> (res: Option<(&str, &str)>)
    ensures
        match res {
            Some((head, tail)) => s@ == head@ + seq![c] + tail@ && !head@.contains(c),
            None => !s@.contains(c),
        },
{
    s.split_once(c)
}

/// `str::contains` with a string: whether it occurs as a substring.
#[verifier::external_body]
pub(crate) fn contains(s: &str, part: &str) -> (res: bool)
    ensures
        res == has_run(s@, part@),
{
    s.contains(part)
}

/// Whether two strings hold the same characters.
pub(crate) fn equal(a: &str, b: &str) -> (res: bool)
    ensures
        res == (a@ == b@),
{
    proof {
        vstd::utf8::encode_utf8_decode_utf8(a@);
        vstd::utf8::encode_utf8_decode_utf8(b@);
    }
    let left: &[u8] = a.as_bytes();
    let right: &[u8] = b.as_bytes();
    if left.len() != right.len() {
        return false;
    }
    let mut i: usize = 0;
    while i < left.len()
        invariant
            i <= left@.len(),
            left@.len() == right@.len(),
            left@ == vstd::utf8::encode_utf8(a@),
            right@ == vstd::utf8::encode_utf8(b@),
            forall|j: int| 0 <= j < i ==> left@[j] == right@[j],
        decreases left@.len() - i,
    {
        if left[i] != right[i] {
            return false;
        }
        i += 1;
    }
    assert(left@ =~= right@);
    true
}

/// `std::str::from_utf8`: the text that UTF-8 bytes encode, and nothing for any other bytes.
#[verifier::external_body]
pub(crate) fn from_utf8(bytes: &[u8]) -> (res: Option<&str>)
    ensures
        match res {
            Some(text) => vstd::utf8::valid_utf8(bytes@) && text@ == vstd::utf8::decode_utf8(
                bytes@,
            ),
            None => !vstd::utf8::valid_utf8(bytes@),
        },
{
    std::str::from_utf8(bytes).ok()
}

/// The lines of a text.
pub fn lines(text: &str) -> (res: Vec<&str>)
    ensures
        res@.map_values(|line: &str| line@) == lines_of(text@),
{
    let mut found: Vec<&str> = Vec::new();
    let mut rest: &str = text;
    let ghost view = |line: &str| line@;
    assert(found@.map_values(view) + lines_of(rest@) =~= lines_of(text@));
    while !rest.is_empty()
        invariant
            found@.map_values(view) + lines_of(rest@) == lines_of(text@),
            view == (|line: &str| line@),
        decreases rest@.len(),
    {
        let ghost before = found@;
        match split_once(rest, '\n') {
            Some((ended, after)) => {
                proof {
                    lemma_split_at_first(rest@, '\n', ended@, after@);
                }
                let line = match strip_suffix(ended, '\r') {
                    Some(bare) => bare,
                    None => ended,
                };
                assert(line@ =~= without_cr(ended@));
                found.push(line);
                assert(found@.map_values(view) =~= before.map_values(view) + seq![line@]);
                assert(found@.map_values(view) + lines_of(after@) =~= before.map_values(view) + (
                seq![line@] + lines_of(after@)));
                rest = after;
            },
            None => {
                found.push(rest);
                assert(found@.map_values(view) =~= before.map_values(view) + seq![rest@]);
                rest = "";
                proof {
                    reveal_strlit("");
                }
                assert(found@.map_values(view) + lines_of(rest@) =~= found@.map_values(view));
            },
        }
    }
    assert(found@.map_values(view) + lines_of(rest@) =~= found@.map_values(view));
    found
}

/// Where `run` first occurs in `bytes`.
pub fn find_bytes(bytes: &[u8], run: &[u8]) -> (res: Option<usize>)
    ensures
        match res {
            Some(at) => run_at(bytes@, run@, at as int) && forall|i: int|
                0 <= i < at ==> !#[trigger] run_at(bytes@, run@, i),
            None => !has_run(bytes@, run@),
        },
        res matches Some(at) ==> at + run@.len() <= bytes@.len() && bytes@.subrange(
            at as int,
            at + run@.len(),
        ) == run@,
        forall|before: Seq<u8>, after: Seq<u8>|
            bytes@ == #[trigger] (before + run@ + after) ==> (res matches Some(at) && at
                <= before.len()),
{
    proof {
        assert forall|before: Seq<u8>, after: Seq<u8>|
            bytes@ == #[trigger] (before + run@ + after) implies run_at(
            bytes@,
            run@,
            before.len() as int,
        ) by {
            let at = before.len() as int;
            assert(bytes@.subrange(at, at + run@.len()) =~= run@);
        }
    }
    if bytes.len() < run.len() {
        return None;
    }
    let last: usize = bytes.len() - run.len();
    let mut at: usize = 0;
    loop
        invariant
            at <= last,
            last == bytes@.len() - run@.len(),
            bytes@.len() <= usize::MAX,
            forall|i: int| 0 <= i < at ==> !#[trigger] run_at(bytes@, run@, i),
            forall|before: Seq<u8>, after: Seq<u8>|
                bytes@ == #[trigger] (before + run@ + after) ==> run_at(
                    bytes@,
                    run@,
                    before.len() as int,
                ),
        decreases last - at,
    {
        let mut same: usize = 0;
        while same < run.len() && bytes[at + same] == run[same]
            invariant
                same <= run@.len(),
                at <= last,
                last == bytes@.len() - run@.len(),
                bytes@.len() <= usize::MAX,
                forall|i: int| 0 <= i < same ==> bytes@[at + i] == #[trigger] run@[i],
            decreases run@.len() - same,
        {
            same += 1;
        }
        if same == run.len() {
            assert(bytes@.subrange(at as int, at + run@.len()) =~= run@);
            return Some(at);
        }
        assert(!run_at(bytes@, run@, at as int)) by {
            assert(bytes@.subrange(at as int, at + run@.len())[same as int] == bytes@[at + same]);
        }
        if at == last {
            return None;
        }
        at += 1;
    }
}

} // verus!
