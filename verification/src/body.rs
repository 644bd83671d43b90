//! Buffered responses: a body that is one JSON value.

use vstd::prelude::*;
use vstd::utf8::encode_utf8;

use crate::encoding::{encodable, is_json_refusal, json_of_bytes, json_text};
use crate::image::{reads_back, Image, ImageView};
use crate::json::{distinct_keys, is_read_back, nests_within, Json, JsonTree, SyntaxError};
use crate::reply::{any_failed, signed_parts, Reply, ReplyView};
use crate::walk::{fresh, stamp_tree};
use crate::walker::{stamp_images_in_value, Step, Walk};

verus! {

/// How far the signing of a response has come.
pub enum Outcome {
    /// An image is to be signed.
    Asks(ImageView),
    /// These are the bytes to be sent.
    Sends(Seq<u8>),
}

/// What becomes of a body: the JSON value that it denotes is walked, and written anew if an image
/// in it was replaced. Otherwise the body is left as it is, byte for byte. So it is if one of its
/// images could not be signed, whatever came of the others.
pub open spec fn body_outcome(body: Seq<u8>, replies: Seq<ReplyView>) -> Outcome {
    match json_of_bytes(body) {
        Some(tree) if !any_failed(replies) => {
            let (tree, tally) = stamp_tree(tree, signed_parts(replies), fresh());
            match tally.asks {
                Some(image) => Outcome::Asks(image),
                None => if tally.stamped == 0 {
                    Outcome::Sends(body)
                } else {
                    Outcome::Sends(encode_utf8(json_text(tree)))
                },
            }
        },
        _ => Outcome::Sends(body),
    }
}

/// The value that is sent for a body with the value `tree`.
pub open spec fn sent_value(tree: JsonTree, replies: Seq<ReplyView>) -> JsonTree {
    if any_failed(replies) {
        tree
    } else {
        stamp_tree(tree, signed_parts(replies), fresh()).0
    }
}

/// A body with an image that is to be signed.
pub struct BodyWalk {
    body: Vec<u8>,
    walk: Walk,
    replies: Ghost<Seq<ReplyView>>,
}

/// Why a body is sent as it was received, though it may have images.
#[derive(Debug)]
pub enum BodyError {
    /// It is not JSON.
    NotJson(SyntaxError),
    /// One of its images could not be signed.
    SigningFailed,
}

/// How far the signing of the images in a body has come.
pub enum BodyStep {
    /// An image is to be signed.
    Sign(BodyWalk),
    /// The body is ready to be sent, with the error that kept it from being signed.
    Done { bytes: Vec<u8>, error: Option<BodyError> },
}

/// `error` is what kept `body` from being signed.
pub open spec fn body_error_is(
    error: Option<BodyError>,
    body: Seq<u8>,
    replies: Seq<ReplyView>,
) -> bool {
    match error {
        Some(BodyError::NotJson(refusal)) => json_of_bytes(body) is None && is_json_refusal(
            refusal.cause,
            body,
        ),
        Some(BodyError::SigningFailed) => json_of_bytes(body) is Some && any_failed(replies),
        None => json_of_bytes(body) is Some && !any_failed(replies),
    }
}

/// The signing of the images in `body`, with the answers `replies`, has come as far as `step`.
pub open spec fn body_step_is(step: BodyStep, body: Seq<u8>, replies: Seq<ReplyView>) -> bool {
    match step {
        BodyStep::Sign(walk) => {
            &&& body_outcome(body, replies) == Outcome::Asks(walk.request())
            &&& walk.body() == body
            &&& walk.replies() == replies
        },
        BodyStep::Done { bytes, error } => {
            &&& body_outcome(body, replies) == Outcome::Sends(bytes@)
            &&& body_error_is(error, body, replies)
        },
    }
}

/// If `step` is the last one, the body that is ready to be sent is read back to its value, but for
/// the fractions in it.
pub open spec fn body_reads_back(step: BodyStep, body: Seq<u8>, replies: Seq<ReplyView>) -> bool {
    match (step, json_of_bytes(body)) {
        (BodyStep::Done { bytes, .. }, Some(tree)) => is_read_back(
            json_of_bytes(bytes@),
            sent_value(tree, replies),
        ),
        _ => true,
    }
}

/// Begins the signing of the images in a response body.
pub fn stamp_images_in_response_body(body: Vec<u8>) -> (res: BodyStep)
    ensures
        body_step_is(res, body@, Seq::empty()),
        body_reads_back(res, body@, Seq::empty()),
        match json_of_bytes(body@) {
            Some(tree) => match stamp_tree(tree, Seq::empty(), fresh()).1.asks {
                Some(image) => res matches BodyStep::Sign(walk) && walk.request() == image,
                None => res matches BodyStep::Done { bytes, error } && bytes@ == body@
                    && error is None,
            },
            None => res matches BodyStep::Done { bytes, error: Some(BodyError::NotJson(refusal)) }
                && bytes@ == body@ && is_json_refusal(refusal.cause, body@),
        },
{
    proof {
        if let Some(tree) = json_of_bytes(body@) {
            crate::laws::law_refused_walk_changes_nothing(tree, Seq::empty());
        }
    }
    assert(signed_parts(Seq::empty()) =~= Seq::empty());
    match Json::from_slice(body.as_slice()) {
        Ok(value) => body_step(body, stamp_images_in_value(value), Ghost(Seq::empty())),
        Err(error) => BodyStep::Done { bytes: body, error: Some(BodyError::NotJson(error)) },
    }
}

/// What a step of the walk means for the body.
fn body_step(body: Vec<u8>, step: Step, Ghost(replies): Ghost<Seq<ReplyView>>) -> (res: BodyStep)
    requires
        json_of_bytes(body@) matches Some(tree) && distinct_keys(tree) && nests_within(tree, 127)
            && crate::walker::step_is(step, tree, signed_parts(replies)),
        !any_failed(replies),
    ensures
        body_step_is(res, body@, replies),
        body_reads_back(res, body@, replies),
{
    let ghost tree = json_of_bytes(body@)->0;
    let ghost parts = signed_parts(replies);
    match step {
        Step::Sign(walk) => BodyStep::Sign(BodyWalk { body, walk, replies: Ghost(replies) }),
        Step::Done { value, stamped } => if stamped == 0 {
            proof {
                crate::replay::law_uncounted_walk_changes_nothing(tree, parts);
                crate::json::lemma_same_reflexive(tree);
            }
            BodyStep::Done { bytes: body, error: None }
        } else {
            proof {
                crate::laws::law_walk_keeps_keys(tree, parts);
                crate::laws::law_walk_keeps_form(tree, parts, 127);
            }
            BodyStep::Done { bytes: value.into_vec(), error: None }
        },
    }
}

impl BodyWalk {
    #[verifier::type_invariant]
    spec fn well_formed(&self) -> bool {
        &&& json_of_bytes(self.body@) == Some(self.walk.origin())
        &&& distinct_keys(self.walk.origin())
        &&& nests_within(self.walk.origin(), 127)
        &&& !any_failed(self.replies@)
        &&& self.walk.replies() == signed_parts(self.replies@)
    }

    /// The body as it was received.
    pub closed spec fn body(&self) -> Seq<u8> {
        self.body@
    }

    /// The answers so far.
    pub closed spec fn replies(&self) -> Seq<ReplyView> {
        self.replies@
    }

    /// The image that is to be signed.
    pub closed spec fn request(&self) -> ImageView {
        self.walk.request()
    }

    /// The image that is to be signed.
    pub fn image(&self) -> (res: &Image)
        ensures
            res@ == self.request(),
    {
        self.walk.image()
    }

    /// Goes on with what came of the signing.
    pub fn resume(self, reply: Reply) -> (res: BodyStep)
        requires
            reply matches Reply::Signed(signed) ==> encodable(signed@.len()),
        ensures
            body_step_is(res, self.body(), self.replies().push(reply@)),
            body_reads_back(res, self.body(), self.replies().push(reply@)),
            reply is Failed ==> (res matches BodyStep::Done {
                bytes,
                error: Some(BodyError::SigningFailed),
            } && bytes@ == self.body()),
            !(reply is Failed) && !any_failed(self.replies()) ==> (json_of_bytes(
                self.body(),
            ) matches Some(tree) ==> {
                let (walked, tally) = stamp_tree(
                    tree,
                    signed_parts(self.replies().push(reply@)),
                    fresh(),
                );
                match tally.asks {
                    Some(image) => res matches BodyStep::Sign(walk) && walk.request() == image,
                    None => res matches BodyStep::Done { bytes, error } && error is None && bytes@
                        == if tally.stamped > 0 {
                        encode_utf8(json_text(walked))
                    } else {
                        self.body()
                    },
                }
            }),
            reply matches Reply::Signed(signed) ==> reads_back(signed@),
    {
        proof {
            use_type_invariant(&self);
            crate::reply::lemma_one_more(self.replies@, reply@);
            crate::json::lemma_same_reflexive(self.walk.origin());
        }
        let BodyWalk { body, walk, replies } = self;
        let ghost more = replies@.push(reply@);
        match reply {
            Reply::Signed(signed) => body_step(body, walk.resume(Some(signed)), Ghost(more)),
            Reply::NoChange => body_step(body, walk.resume(None), Ghost(more)),
            Reply::Failed => BodyStep::Done { bytes: body, error: Some(BodyError::SigningFailed) },
        }
    }
}

} // verus!
