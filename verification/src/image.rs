//! The images that a string can carry: how they are recognised, and how a signed image takes the
//! place of the image that was there.

use vstd::prelude::*;

use crate::encoding::{base64_decode, base64_decoded, base64_encode, base64_encoded};
use crate::encoding::{encodable, is_base64_text};
use crate::text::{after_prefix, has_run, split_at_first, trimmed};

verus! {

/// The file extension of an image format: JPEG starts with `FF D8`, PNG with `89 50 4E 47`.
pub open spec fn image_extension(bytes: Seq<u8>) -> Option<Seq<char>> {
    if seq![0xFFu8, 0xD8u8].is_prefix_of(bytes) {
        Some("jpg"@)
    } else if seq![0x89u8, 0x50u8, 0x4Eu8, 0x47u8].is_prefix_of(bytes) {
        Some("png"@)
    } else {
        None
    }
}

/// The file extension of the image format that `bytes` start like.
pub fn detect_image_format(bytes: &[u8]) -> (res: Option<&'static str>)
    ensures
        match res {
            Some(extension) => image_extension(bytes@) == Some(extension@),
            None => image_extension(bytes@) is None,
        },
        bytes@.len() >= 2 && bytes@[0] == 0xFF && bytes@[1] == 0xD8 ==> (res matches Some(extension)
            && extension@ == "jpg"@),
        bytes@.len() >= 4 && bytes@[0] == 0x89 && bytes@[1] == 0x50 && bytes@[2] == 0x4E
            && bytes@[3] == 0x47 ==> (res matches Some(extension) && extension@ == "png"@),
        !(bytes@.len() >= 2 && bytes@[0] == 0xFF && bytes@[1] == 0xD8) && !(bytes@.len() >= 4
            && bytes@[0] == 0x89 && bytes@[1] == 0x50 && bytes@[2] == 0x4E && bytes@[3] == 0x47)
            ==> res is None,
{
    let ghost jpeg = seq![0xFFu8, 0xD8u8];
    let ghost png = seq![0x89u8, 0x50u8, 0x4Eu8, 0x47u8];
    if bytes.len() >= 2 && bytes[0] == 0xFF && bytes[1] == 0xD8 {
        assert(jpeg =~= bytes@.subrange(0, 2));
        Some("jpg")
    } else {
        assert(jpeg.is_prefix_of(bytes@) ==> bytes@[0] == jpeg[0] && bytes@[1] == jpeg[1]);
        if bytes.len() >= 4 && bytes[0] == 0x89 && bytes[1] == 0x50 && bytes[2] == 0x4E && bytes[3]
            == 0x47 {
            assert(png =~= bytes@.subrange(0, 4));
            Some("png")
        } else {
            assert(png.is_prefix_of(bytes@) ==> bytes@[0] == png[0] && bytes@[1] == png[1]
                && bytes@[2] == png[2] && bytes@[3] == png[3]);
            None
        }
    }
}

/// The data of a data URI that is marked as base64: what follows its first comma.
pub open spec fn data_uri_payload(uri: Seq<char>) -> Option<Seq<char>> {
    match split_at_first(uri, ',') {
        Some((head, payload)) => if has_run(head, "base64"@) {
            Some(payload)
        } else {
            None
        },
        None => None,
    }
}

/// The data of a data URI that is marked as base64.
pub fn extract_data_uri_b64(data_uri: &str) -> (res: Option<&str>)
    ensures
        match res {
            Some(payload) => data_uri_payload(data_uri@) == Some(payload@),
            None => data_uri_payload(data_uri@) is None,
        },
{
    match crate::text::split_once(data_uri, ',') {
        Some((head, payload)) => {
            proof {
                crate::text::lemma_split_at_first(data_uri@, ',', head@, payload@);
            }
            if crate::text::contains(head, "base64") {
                Some(payload)
            } else {
                None
            }
        },
        None => None,
    }
}

/// The media type of a data URI: what stands between `data:` and the first semicolon.
pub open spec fn data_uri_mime(uri: Seq<char>) -> Option<Seq<char>> {
    match after_prefix(uri, "data:"@) {
        Some(rest) => match split_at_first(rest, ';') {
            Some((mime, _)) => Some(mime),
            None => None,
        },
        None => None,
    }
}

/// The media type of a data URI.
pub fn extract_data_uri_mime(data_uri: &str) -> (res: Option<&str>)
    ensures
        match res {
            Some(mime) => data_uri_mime(data_uri@) == Some(mime@),
            None => data_uri_mime(data_uri@) is None,
        },
{
    match crate::text::strip_prefix(data_uri, "data:") {
        Some(rest) => match crate::text::split_once(rest, ';') {
            Some((mime, parameters)) => {
                proof {
                    crate::text::lemma_split_at_first(rest@, ';', mime@, parameters@);
                }
                Some(mime)
            },
            None => None,
        },
        None => None,
    }
}

/// An image, with the file extension of its format.
#[derive(Debug)]
pub struct Image {
    pub bytes: Vec<u8>,
    pub extension: &'static str,
}

/// What an image holds.
pub struct ImageView {
    pub bytes: Seq<u8>,
    pub extension: Seq<char>,
}

impl View for Image {
    type V = ImageView;

    open spec fn view(&self) -> ImageView {
        ImageView { bytes: self.bytes@, extension: self.extension@ }
    }
}

/// What an optional image holds.
pub open spec fn image_view(image: Option<Image>) -> Option<ImageView> {
    match image {
        Some(image) => Some(image@),
        None => None,
    }
}

/// `bytes` as an image, if they are one.
pub open spec fn image_of(bytes: Seq<u8>) -> Option<ImageView> {
    match image_extension(bytes) {
        Some(extension) => Some(ImageView { bytes, extension }),
        None => None,
    }
}

/// The image that a base64 text encodes. White space around the text does not count, and a text
/// with a character that cannot occur in base64 encodes nothing.
pub open spec fn image_in_b64(b64: Seq<char>) -> Option<ImageView> {
    match base64_decoded(trimmed(b64)) {
        Some(bytes) if is_base64_text(trimmed(b64)) => image_of(bytes),
        _ => None,
    }
}

/// The base64 text of `bytes` is base64, and encodes `bytes`.
pub open spec fn reads_back(bytes: Seq<u8>) -> bool {
    &&& is_base64_text(base64_encoded(bytes))
    &&& base64_decoded(base64_encoded(bytes)) == Some(bytes)
}

/// The image that the data of a data URI encodes.
pub open spec fn image_in_data_uri(uri: Seq<char>) -> Option<ImageView> {
    match data_uri_payload(uri) {
        Some(payload) => image_in_b64(payload),
        None => None,
    }
}

/// The data URI that carries `signed` in place of the image that `uri` carries. It has the media
/// type of `uri`, or that of JPEG where `uri` names none.
pub open spec fn signed_uri(uri: Seq<char>, signed: Seq<u8>) -> Seq<char> {
    let mime = match data_uri_mime(uri) {
        Some(mime) => mime,
        None => "image/jpeg"@,
    };
    "data:"@ + mime + ";base64,"@ + base64_encoded(signed)
}

/// The image that a base64 text encodes.
pub fn find_b64_image(b64: &str) -> (res: Option<Image>)
    ensures
        image_view(res) == image_in_b64(b64@),
        res matches Some(image) ==> is_base64_text(trimmed(b64@)) && base64_decoded(trimmed(b64@))
            == Some(image.bytes@),
        res is None && is_base64_text(trimmed(b64@)) ==> (base64_decoded(
            trimmed(b64@),
        ) matches Some(bytes) ==> image_extension(bytes) is None),
{
    match base64_decode(crate::text::trim(b64)) {
        Some(bytes) => match detect_image_format(bytes.as_slice()) {
            Some(extension) => Some(Image { bytes, extension }),
            None => None,
        },
        None => None,
    }
}

/// The image that the data of a data URI encodes.
pub fn find_data_uri_image(data_uri: &str) -> (res: Option<Image>)
    ensures
        image_view(res) == image_in_data_uri(data_uri@),
{
    match extract_data_uri_b64(data_uri) {
        Some(payload) => find_b64_image(payload),
        None => None,
    }
}

/// The base64 text of a signed image. Read again, it is that image.
pub fn signed_b64(signed: &[u8]) -> (res: String)
    requires
        encodable(signed@.len()),
    ensures
        res@ == base64_encoded(signed@),
        reads_back(signed@),
        image_in_b64(res@) == image_of(signed@),
        is_base64_text(res@),
        base64_decoded(res@) == Some(signed@),
{
    let b64 = base64_encode(signed);
    proof {
        lemma_signed_b64(signed@);
    }
    b64
}

/// The data URI that carries a signed image in place of the image of `data_uri`. Read again, it
/// carries the signed image.
pub fn signed_data_uri(data_uri: &str, signed: &[u8]) -> (res: String)
    requires
        encodable(signed@.len()),
    ensures
        res@ == signed_uri(data_uri@, signed@),
        reads_back(signed@),
        image_in_data_uri(data_uri@) is Some ==> image_in_data_uri(res@) == image_of(signed@),
        data_uri_mime(data_uri@) matches Some(mime) ==> res@ == "data:"@ + mime + ";base64,"@
            + base64_encoded(signed@),
        data_uri_mime(data_uri@) is None ==> res@ == "data:"@ + "image/jpeg"@ + ";base64,"@
            + base64_encoded(signed@),
{
    let mime: &str = match extract_data_uri_mime(data_uri) {
        Some(mime) => mime,
        None => "image/jpeg",
    };
    let b64 = base64_encode(signed);
    proof {
        if image_in_data_uri(data_uri@) is Some {
            lemma_signed_uri(data_uri@, signed@);
        }
    }
    let mut uri = "data:".to_owned();
    uri.append(mime);
    uri.append(";base64,");
    uri.append(b64.as_str());
    uri
}

/// Base64 has no white space around it.
proof fn lemma_base64_is_trimmed(text: Seq<char>)
    requires
        is_base64_text(text),
    ensures
        trimmed(text) == text,
{
    if text.len() > 0 {
        assert(crate::encoding::is_base64_char(text.first()));
        assert(crate::encoding::is_base64_char(text.last()));
    }
}

/// The base64 text of a signed image carries that image.
pub proof fn lemma_signed_b64(signed: Seq<u8>)
    requires
        reads_back(signed),
    ensures
        image_in_b64(base64_encoded(signed)) == image_of(signed),
{
    lemma_base64_is_trimmed(base64_encoded(signed));
}

/// A data URI with a signed image in place of an image carries the signed image.
pub proof fn lemma_signed_uri(uri: Seq<char>, signed: Seq<u8>)
    requires
        image_in_data_uri(uri) is Some,
        reads_back(signed),
    ensures
        image_in_data_uri(signed_uri(uri, signed)) == image_of(signed),
{
    lemma_signed_uri_payload(uri, signed);
    lemma_signed_b64(signed);
}

/// The data of a data URI with a signed image in place of an image are the base64 text of the
/// signed image.
pub proof fn lemma_signed_uri_payload(uri: Seq<char>, signed: Seq<u8>)
    requires
        image_in_data_uri(uri) is Some,
    ensures
        data_uri_payload(signed_uri(uri, signed)) == Some(base64_encoded(signed)),
{
    let payload = data_uri_payload(uri)->0;
    let mime = match data_uri_mime(uri) {
        Some(mime) => mime,
        None => "image/jpeg"@,
    };
    reveal_strlit("data:");
    reveal_strlit(";base64,");
    reveal_strlit("base64");
    reveal_strlit("image/jpeg");
    assert(!mime.contains(',')) by {
        if data_uri_mime(uri) is Some && mime.contains(',') {
            let rest = uri.skip(5);
            uri.index_of_first_ensures(',');
            rest.index_of_first_ensures(';');
            let comma = uri.index_of_first(',')->0;
            let semicolon = rest.index_of_first(';')->0;
            let k = choose|k: int| 0 <= k < mime.len() && mime[k] == ',';
            assert(uri[k + 5] == ',');
            assert(payload[semicolon + 5 - comma - 1] == ';');
            crate::text::lemma_trimmed_keeps(payload, ';');
            let i = choose|i: int| 0 <= i < trimmed(payload).len() && trimmed(payload)[i] == ';';
            assert(crate::encoding::is_base64_char(trimmed(payload)[i]));
        }
    }
    let head = "data:"@ + mime + seq![';', 'b', 'a', 's', 'e', '6', '4'];
    let whole = signed_uri(uri, signed);
    assert(whole =~= head + seq![','] + base64_encoded(signed));
    assert(!head.contains(',')) by {
        if head.contains(',') {
            let i = choose|i: int| 0 <= i < head.len() && head[i] == ',';
            if 5 <= i < 5 + mime.len() {
                assert(mime[i - 5] == ',');
            }
        }
    }
    crate::text::lemma_split_at_first(whole, ',', head, base64_encoded(signed));
    let at: int = mime.len() as int + 6;
    assert(head.subrange(at, at + 6) =~= "base64"@);
    assert(crate::text::run_at(head, "base64"@, at));
}

/// A signed data URI has the media type of the URI that it took the place of, or that of JPEG where
/// that names none.
pub proof fn law_signed_uri_keeps_mime(uri: Seq<char>, signed: Seq<u8>)
    ensures
        data_uri_mime(signed_uri(uri, signed)) == match data_uri_mime(uri) {
            Some(mime) => Some(mime),
            None => Some("image/jpeg"@),
        },
{
    let mime = match data_uri_mime(uri) {
        Some(mime) => mime,
        None => "image/jpeg"@,
    };
    reveal_strlit("data:");
    reveal_strlit(";base64,");
    reveal_strlit("image/jpeg");
    let whole = signed_uri(uri, signed);
    let tail = seq!['b', 'a', 's', 'e', '6', '4', ','] + base64_encoded(signed);
    assert("data:"@ =~= whole.subrange(0, 5));
    assert(whole.skip(5) =~= mime + seq![';'] + tail);
    assert(!mime.contains(';')) by {
        if data_uri_mime(uri) is Some {
            uri.skip(5).index_of_first_ensures(';');
        }
    }
    crate::text::lemma_split_at_first(whole.skip(5), ';', mime, tail);
}

} // verus!
