//! Signing of the images that a language model returns inside its JSON responses.
//!
//! A response body, or a chunk of a streamed response, is searched for base64 images. Each image
//! is handed out for signing with C2PA metadata, and the signed image is put back in its place.
//! Signing itself reads and writes files, so it is not done here: the functions of this crate say
//! what is to be signed next, and go on from the answer.
//!
//! What is handed out and what comes back:
//!
//! * [`body`]: a buffered response, which is one JSON value.
//! * [`sse`]: a chunk of a streamed response, with JSON values on its lines.
//! * [`walker`]: the walk through a JSON value that both of them rest on, one answer at a time.
//! * [`signing`]: one image file, from the first look at it to the outcome.
//! * [`reply`]: the answers to a request for a signature.
//!
//! What they are made of:
//!
//! * [`walk`]: the walk through a JSON value, as a whole.
//! * [`image`]: the images that a string can carry.
//! * [`manifest`]: the manifest that is signed into an image.
//! * [`json`]: JSON values.
//! * [`encoding`]: the calls into `serde_json` and `base64`.
//! * [`text`]: the operations on strings that the other modules share.
//!
//! What holds of all of it:
//!
//! * [`laws`]: a walk changes images alone, counts what it has changed, and changes nothing where
//!   nothing is signed.
//! * [`places`]: a walk changes strings at the places that it is meant to, and nowhere else.
//! * [`signer`]: what a signer makes of a value, and that it signs no image twice.
//! * [`replay`]: a walk with the answers of a signer gives what the signer makes of the value, and
//!   no body is stamped twice.
//! * [`marks`]: a value without the marks of an image has nothing to sign.
//! * [`framing`]: the lines of an event are read back, and no event is stamped twice.
//! * [`times`]: the times in a manifest are read back.
//! * [`response_laws`]: a body and an event go with the values in them, whatever those are.
//! * [`walk_laws`]: each member, item and string of a value is signed in its place.
//! * [`image_laws`]: the first bytes tell an image, and a signed image is carried as the image was
//!   that it took the place of.
//! * [`manifest_laws`]: the times of creation become readings of the clock, and the rest stays.
//! * [`json_laws`] and [`text_laws`]: members of objects and parts of texts, by where they stand.

pub mod body;
pub mod encoding;
pub mod framing;
pub mod image;
pub mod image_laws;
pub mod json;
pub mod json_laws;
pub mod laws;
pub mod manifest;
pub mod manifest_laws;
pub mod marks;
pub mod places;
pub mod replay;
pub mod reply;
pub mod response_laws;
pub mod signer;
pub mod signing;
pub mod sse;
pub mod text;
pub mod text_laws;
pub mod times;
pub mod walk;
pub mod walk_laws;
pub mod walker;
