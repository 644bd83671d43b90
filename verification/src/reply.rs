//! The answers to a request for a signature.

use vstd::prelude::*;

verus! {

/// What came of the signing of an image.
#[derive(Debug, PartialEq, Eq)]
pub enum Reply {
    /// The signed image.
    Signed(Vec<u8>),
    /// The image was signed already, and is left as it is.
    NoChange,
    /// The image could not be signed.
    Failed,
}

/// What an answer holds.
pub enum ReplyView {
    Signed(Seq<u8>),
    NoChange,
    Failed,
}

impl View for Reply {
    type V = ReplyView;

    open spec fn view(&self) -> ReplyView {
        match self {
            Reply::Signed(signed) => ReplyView::Signed(signed@),
            Reply::NoChange => ReplyView::NoChange,
            Reply::Failed => ReplyView::Failed,
        }
    }
}

/// The signed image in an answer.
pub open spec fn signed_part(reply: ReplyView) -> Option<Seq<u8>> {
    match reply {
        ReplyView::Signed(signed) => Some(signed),
        _ => None,
    }
}

/// The signed images in some answers, each in its place.
pub open spec fn signed_parts(replies: Seq<ReplyView>) -> Seq<Option<Seq<u8>>> {
    replies.map_values(|reply: ReplyView| signed_part(reply))
}

/// One of the answers is that an image could not be signed.
pub open spec fn any_failed(replies: Seq<ReplyView>) -> bool {
    exists|i: int| 0 <= i < replies.len() && (#[trigger] replies[i]) is Failed
}

/// None of the answers is a signed image.
pub open spec fn none_signed(replies: Seq<ReplyView>) -> bool {
    forall|i: int| 0 <= i < replies.len() ==> !((#[trigger] replies[i]) is Signed)
}

/// One more answer.
pub proof fn lemma_one_more(replies: Seq<ReplyView>, reply: ReplyView)
    ensures
        any_failed(replies.push(reply)) == (any_failed(replies) || reply is Failed),
        signed_parts(replies.push(reply)) == signed_parts(replies).push(signed_part(reply)),
{
    let more = replies.push(reply);
    assert(signed_parts(more) =~= signed_parts(replies).push(signed_part(reply)));
    if any_failed(replies) {
        let i = choose|i: int| 0 <= i < replies.len() && (#[trigger] replies[i]) is Failed;
        assert(more[i] is Failed);
    }
    if reply is Failed {
        assert(more[replies.len() as int] is Failed);
    }
    if any_failed(more) {
        let i = choose|i: int| 0 <= i < more.len() && (#[trigger] more[i]) is Failed;
        if i < replies.len() {
            assert(replies[i] is Failed);
        }
    }
}

} // verus!
