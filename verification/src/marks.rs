//! The marks of an image: a value without any of them in its strings and keys has nothing to sign.

use vstd::prelude::*;
use vstd::utf8::encode_utf8;

use crate::json::{key_index, lemma_key_index, strings_occur, JsonTree};
use crate::text::{has_run, lines_of, run_at, without_cr};
use crate::walk::{apply_rules_from, items_size, members_size, rule_text, stamp_items};
use crate::walk::{stamp_members, stamp_tree, tree_size, Rule, Tally};

verus! {

/// A run of a run is a run.
pub proof fn lemma_run_of_run<T>(s: Seq<T>, run: Seq<T>, part: Seq<T>)
    requires
        has_run(s, run),
        has_run(run, part),
    ensures
        has_run(s, part),
{
    let i = choose|i: int| #[trigger] run_at(s, run, i);
    let j = choose|j: int| #[trigger] run_at(run, part, j);
    assert(s.subrange(i + j, i + j + part.len()) =~= run.subrange(j, j + part.len()));
    assert(run_at(s, part, i + j));
}

/// A part of a sequence is a run of it.
pub proof fn lemma_part_is_run<T>(s: Seq<T>, from: int, to: int)
    requires
        0 <= from <= to <= s.len(),
    ensures
        has_run(s, s.subrange(from, to)),
{
    assert(run_at(s, s.subrange(from, to), from));
}

proof fn lemma_encoding_of_two(a: Seq<char>, b: Seq<char>)
    ensures
        encode_utf8(a + b) == encode_utf8(a) + encode_utf8(b),
    decreases a.len(),
{
    if a.len() == 0 {
        assert(a + b =~= b);
        assert(encode_utf8(a) + encode_utf8(b) =~= encode_utf8(b));
    } else {
        lemma_encoding_of_two(a.drop_first(), b);
        assert((a + b).drop_first() =~= a.drop_first() + b);
        assert(encode_utf8(a + b) =~= encode_utf8(a) + encode_utf8(b));
    }
}

/// The encoding of a run is a run of the encoding.
pub proof fn lemma_run_is_encoded(text: Seq<char>, run: Seq<char>)
    requires
        has_run(text, run),
    ensures
        has_run(encode_utf8(text), encode_utf8(run)),
{
    let i = choose|i: int| #[trigger] run_at(text, run, i);
    let before = text.take(i);
    let after = text.skip(i + run.len());
    assert(text =~= before + (run + after));
    lemma_encoding_of_two(before, run + after);
    lemma_encoding_of_two(run, after);
    let at = encode_utf8(before).len() as int;
    assert(encode_utf8(text).subrange(at, at + encode_utf8(run).len()) =~= encode_utf8(run));
    assert(run_at(encode_utf8(text), encode_utf8(run), at));
}

/// A backslash is encoded as itself.
pub proof fn lemma_backslash_is_encoded(text: Seq<char>)
    requires
        text.contains('\\'),
    ensures
        encode_utf8(text).contains(92u8),
{
    let i = choose|i: int| 0 <= i < text.len() && text[i] == '\\';
    let run = text.subrange(i, i + 1);
    lemma_part_is_run(text, i, i + 1);
    lemma_run_is_encoded(text, run);
    vstd::utf8::is_ascii_chars_encode_utf8(run);
    let bytes = encode_utf8(text);
    let j = choose|j: int| #[trigger] run_at(bytes, encode_utf8(run), j);
    assert(bytes.subrange(j, j + 1)[0] == bytes[j]);
    assert(run[0] as u8 == encode_utf8(run)[0]);
    assert(bytes[j] == 92u8);
}

/// The lines of a text are runs of it.
pub proof fn lemma_lines_are_runs(text: Seq<char>, i: int)
    requires
        0 <= i < lines_of(text).len(),
    ensures
        has_run(text, lines_of(text)[i]),
    decreases text.len(),
{
    if text.contains('\n') {
        let at = text.index_of_first('\n')->0;
        text.index_of_first_ensures('\n');
        let line = text.take(at);
        let rest = text.skip(at + 1);
        if i == 0 {
            assert(without_cr(line) =~= text.subrange(0, without_cr(line).len() as int));
            lemma_part_is_run(text, 0, without_cr(line).len() as int);
        } else {
            lemma_lines_are_runs(rest, i - 1);
            lemma_part_is_run(text, at + 1, text.len() as int);
            assert(rest =~= text.subrange(at + 1, text.len() as int));
            lemma_run_of_run(text, rest, lines_of(rest)[i - 1]);
        }
    } else {
        lemma_part_is_run(text, 0, text.len() as int);
        assert(text.subrange(0, text.len() as int) =~= text);
    }
}

/// The strings that occur in a run occur in the whole.
pub proof fn lemma_strings_occur_in_whole(tree: JsonTree, run: Seq<char>, text: Seq<char>)
    requires
        strings_occur(tree, run),
        has_run(text, run),
    ensures
        strings_occur(tree, text),
    decreases tree,
{
    match tree {
        JsonTree::String(s) => lemma_run_of_run(text, run, s),
        JsonTree::Array(items) => {
            assert forall|i: int| 0 <= i < items.len() implies strings_occur(
                #[trigger] items[i],
                text,
            ) by {
                lemma_strings_occur_in_whole(items[i], run, text);
            }
        },
        JsonTree::Object(members) => {
            assert forall|i: int| 0 <= i < members.len() implies has_run(
                text,
                (#[trigger] members[i]).0,
            ) && strings_occur(members[i].1, text) by {
                lemma_run_of_run(text, run, members[i].0);
                lemma_strings_occur_in_whole(members[i].1, run, text);
            }
        },
        _ => {},
    }
}

/// None of the marks occurs in a text.
pub open spec fn has_no_mark(text: Seq<char>) -> bool {
    &&& !has_run(text, "image_file"@)
    &&& !has_run(text, "image_url"@)
    &&& !has_run(text, "b64_json"@)
    &&& !has_run(text, "data:image"@)
}

proof fn lemma_no_rule_applies(rule: Rule, tree: JsonTree, text: Seq<char>)
    requires
        strings_occur(tree, text),
        has_no_mark(text),
        tree is Object,
    ensures
        rule_text(rule, tree) is None,
{
    let members = tree->Object_0;
    let key = match rule {
        Rule::B64Json => "b64_json"@,
        _ => "type"@,
    };
    lemma_key_index(members, key);
    if let Some(i) = key_index(members, key) {
        assert(has_run(text, members[i].0));
        assert(strings_occur(members[i].1, text));
    }
}

proof fn lemma_unmarked_rules(
    rule: Rule,
    tree: JsonTree,
    text: Seq<char>,
    replies: Seq<Option<Seq<u8>>>,
    tally: Tally,
)
    requires
        strings_occur(tree, text),
        has_no_mark(text),
        tree is Object,
    ensures
        apply_rules_from(rule, tree, replies, tally) == (tree, tally),
    decreases
            (match rule {
                Rule::ImageFile => 2nat,
                Rule::ImageUrl => 1nat,
                Rule::B64Json => 0nat,
            }),
{
    lemma_no_rule_applies(rule, tree, text);
    match rule {
        Rule::ImageFile => lemma_unmarked_rules(Rule::ImageUrl, tree, text, replies, tally),
        Rule::ImageUrl => lemma_unmarked_rules(Rule::B64Json, tree, text, replies, tally),
        Rule::B64Json => {},
    }
}

/// A walk through a value whose strings and keys have no mark in them asks for nothing.
pub proof fn lemma_unmarked_value(
    tree: JsonTree,
    text: Seq<char>,
    replies: Seq<Option<Seq<u8>>>,
    tally: Tally,
)
    requires
        strings_occur(tree, text),
        has_no_mark(text),
    ensures
        stamp_tree(tree, replies, tally) == (tree, tally),
    decreases tree_size(tree),
{
    match tree {
        JsonTree::Object(members) => {
            lemma_unmarked_rules(Rule::ImageFile, tree, text, replies, tally);
            lemma_unmarked_members(members, text, replies, tally);
        },
        JsonTree::Array(items) => lemma_unmarked_items(items, text, replies, tally),
        JsonTree::String(s) => {
            if "data:image/"@.is_prefix_of(s) {
                reveal_strlit("data:image/");
                reveal_strlit("data:image");
                assert forall|i: int| 0 <= i < 10 implies s[i] == "data:image"@[i] by {
                    assert("data:image/"@[i] == s[i]);
                }
                assert(s.subrange(0, 10) =~= "data:image"@);
                lemma_part_is_run(s, 0, 10);
                lemma_run_of_run(text, s, "data:image"@);
            }
        },
        _ => {},
    }
}

proof fn lemma_unmarked_items(
    items: Seq<JsonTree>,
    text: Seq<char>,
    replies: Seq<Option<Seq<u8>>>,
    tally: Tally,
)
    requires
        forall|i: int| 0 <= i < items.len() ==> strings_occur(#[trigger] items[i], text),
        has_no_mark(text),
    ensures
        stamp_items(items, replies, tally) == (items, tally),
    decreases items_size(items),
{
    if items.len() > 0 {
        let rest = items.drop_first();
        assert(strings_occur(items[0], text));
        assert forall|i: int| 0 <= i < rest.len() implies strings_occur(
            #[trigger] rest[i],
            text,
        ) by {
            assert(rest[i] == items[i + 1]);
        }
        lemma_unmarked_value(items[0], text, replies, tally);
        lemma_unmarked_items(rest, text, replies, tally);
        assert(seq![items[0]] + rest =~= items);
    }
}

proof fn lemma_unmarked_members(
    members: Seq<(Seq<char>, JsonTree)>,
    text: Seq<char>,
    replies: Seq<Option<Seq<u8>>>,
    tally: Tally,
)
    requires
        forall|i: int| 0 <= i < members.len() ==> strings_occur((#[trigger] members[i]).1, text),
        has_no_mark(text),
    ensures
        stamp_members(members, replies, tally) == (members, tally),
    decreases members_size(members),
{
    if members.len() > 0 {
        let rest = members.drop_first();
        assert(strings_occur(members[0].1, text));
        assert forall|i: int| 0 <= i < rest.len() implies strings_occur(
            (#[trigger] rest[i]).1,
            text,
        ) by {
            assert(rest[i] == members[i + 1]);
        }
        lemma_unmarked_value(members[0].1, text, replies, tally);
        lemma_unmarked_members(rest, text, replies, tally);
        assert(seq![(members[0].0, members[0].1)] + rest =~= members);
    }
}

} // verus!
