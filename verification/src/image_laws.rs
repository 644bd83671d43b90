//! What holds of the images that strings carry, in terms of the strings and the bytes.

use vstd::prelude::*;

use crate::encoding::{base64_decoded, base64_encoded, encodable, is_base64_char, is_base64_text};
use crate::image::{data_uri_mime, data_uri_payload, image_extension, image_in_b64};
use crate::image::{image_in_data_uri, image_of, reads_back, signed_uri, ImageView};
use crate::text::{after_prefix, has_run, is_white_space, trimmed};
use crate::text_laws::{is_blank, law_after_prefix, law_no_split, law_prefix_was_there};
use crate::text_laws::{law_run_occurs, law_split_at_first, law_trimmed};
use crate::walk::{image_in, rewritten, Carrier};

verus! {

/// Bytes that start with `FF D8` are a JPEG, bytes that start with `89 50 4E 47` are a PNG, and no
/// other bytes are an image, whatever follows.
pub proof fn law_first_bytes_tell_the_format(bytes: Seq<u8>)
    ensures
        bytes.len() >= 2 && bytes[0] == 0xFF && bytes[1] == 0xD8 ==> image_extension(bytes) == Some(
            "jpg"@,
        ),
        bytes.len() >= 4 && bytes[0] == 0x89 && bytes[1] == 0x50 && bytes[2] == 0x4E && bytes[3]
            == 0x47 ==> image_extension(bytes) == Some("png"@),
        !(bytes.len() >= 2 && bytes[0] == 0xFF && bytes[1] == 0xD8) && !(bytes.len() >= 4
            && bytes[0] == 0x89 && bytes[1] == 0x50 && bytes[2] == 0x4E && bytes[3] == 0x47)
            ==> image_extension(bytes) is None,
{
    let jpeg = seq![0xFFu8, 0xD8u8];
    let png = seq![0x89u8, 0x50u8, 0x4Eu8, 0x47u8];
    if bytes.len() >= 2 && bytes[0] == 0xFF && bytes[1] == 0xD8 {
        assert(jpeg =~= bytes.subrange(0, 2));
    }
    if bytes.len() >= 4 && bytes[0] == 0x89 && bytes[1] == 0x50 && bytes[2] == 0x4E && bytes[3]
        == 0x47 {
        assert(png =~= bytes.subrange(0, 4));
    }
    assert(jpeg.is_prefix_of(bytes) ==> bytes[0] == jpeg[0] && bytes[1] == jpeg[1]);
    assert(png.is_prefix_of(bytes) ==> bytes[0] == png[0] && bytes[1] == png[1] && bytes[2]
        == png[2] && bytes[3] == png[3]);
}

/// What follows does not count for the format of an image.
pub proof fn law_format_is_in_the_head(head: Seq<u8>, tail: Seq<u8>)
    requires
        head.len() >= 4,
    ensures
        image_extension(head + tail) == image_extension(head),
{
    law_first_bytes_tell_the_format(head);
    law_first_bytes_tell_the_format(head + tail);
}

/// An image is all of its bytes, with the extension of their format.
pub proof fn law_image_is_its_bytes(bytes: Seq<u8>)
    ensures
        match image_of(bytes) {
            Some(image) => image.bytes == bytes && image_extension(bytes) == Some(image.extension),
            None => image_extension(bytes) is None,
        },
{
}

/// The characters of base64 are those with these code points.
pub proof fn law_base64_characters(c: char)
    ensures
        is_base64_char(c) == {
            let point = c as int;
            ||| 65 <= point <= 90
            ||| 97 <= point <= 122
            ||| 48 <= point <= 57
            ||| point == 43
            ||| point == 47
            ||| point == 61
        },
{
}

/// A text is base64 exactly if each of its characters can occur in base64.
pub proof fn law_base64_text(text: Seq<char>, c: char)
    ensures
        is_base64_text(text.push(c)) == (is_base64_text(text) && is_base64_char(c)),
        is_base64_text(Seq::empty()),
{
    let more = text.push(c);
    if is_base64_text(more) {
        assert(is_base64_char(more[text.len() as int]));
        assert forall|i: int| 0 <= i < text.len() implies is_base64_char(#[trigger] text[i]) by {
            assert(is_base64_char(more[i]));
        }
    }
}

/// The base64 text of some bytes has four characters for every three bytes or part of three, and
/// has to be no longer than a vector can be.
pub proof fn law_encodable(length: nat)
    ensures
        encodable(length) <==> 4 * ((length + 2) / 3) <= isize::MAX,
{
    let most: int = isize::MAX as int;
    let groups: int = (length as int + 2) / 3;
    assert(4 * groups <= most <==> groups <= most / 4);
}

/// The data of a data URI that is marked as base64 is all that follows the first comma.
pub proof fn law_payload_follows_the_comma(
    before: Seq<char>,
    after: Seq<char>,
    payload: Seq<char>,
)
    requires
        !before.contains(','),
        !after.contains(','),
    ensures
        data_uri_payload(before + "base64"@ + after + seq![','] + payload) == Some(payload),
{
    let head = before + "base64"@ + after;
    reveal_strlit("base64");
    assert(!head.contains(',')) by {
        if head.contains(',') {
            let i = choose|i: int| 0 <= i < head.len() && head[i] == ',';
            if i < before.len() {
                assert(before[i] == ',');
            } else if i >= before.len() + 6 {
                assert(after[i - before.len() - 6] == ',');
            }
        }
    }
    law_split_at_first(head, ',', payload);
    law_run_occurs(before, "base64"@, after);
}

/// A data URI without a mark before its first comma, or without a comma, has no base64 data.
pub proof fn law_no_payload(head: Seq<char>, payload: Seq<char>)
    requires
        !head.contains(','),
    ensures
        !has_run(head, "base64"@) ==> data_uri_payload(head + seq![','] + payload) is None,
        data_uri_payload(head) is None,
{
    law_split_at_first(head, ',', payload);
    law_no_split(head, ',');
}

/// The media type of a data URI is all that stands before the first semicolon.
pub proof fn law_mime_precedes_the_semicolon(mime: Seq<char>, rest: Seq<char>)
    requires
        !mime.contains(';'),
    ensures
        data_uri_mime("data:"@ + mime + seq![';'] + rest) == Some(mime),
        data_uri_mime("data:"@ + mime) is None,
{
    assert("data:"@ + mime + seq![';'] + rest =~= "data:"@ + (mime + seq![';'] + rest));
    law_after_prefix("data:"@, mime + seq![';'] + rest);
    law_split_at_first(mime, ';', rest);
    law_after_prefix("data:"@, mime);
    law_no_split(mime, ';');
}

/// A text that names a media type starts like a data URI.
pub proof fn law_mime_needs_a_data_uri(uri: Seq<char>)
    ensures
        data_uri_mime(uri) is Some ==> exists|rest: Seq<char>| uri == #[trigger] ("data:"@ + rest),
{
    law_prefix_was_there(uri, "data:"@);
    if let Some(rest) = after_prefix(uri, "data:"@) {
        assert(uri == "data:"@ + rest);
    }
}

proof fn lemma_base64_ends(text: Seq<char>)
    requires
        is_base64_text(text),
    ensures
        text.len() == 0 || (!is_white_space(text.first()) && !is_white_space(text.last())),
{
    if text.len() > 0 {
        assert(is_base64_char(text[0]));
        assert(is_base64_char(text[text.len() - 1]));
    }
}

/// The image that a text carries is what its base64 decodes to, if that starts like an image,
/// whatever white space stands round the base64.
pub proof fn law_image_in_b64(
    before: Seq<char>,
    text: Seq<char>,
    after: Seq<char>,
    bytes: Seq<u8>,
)
    requires
        is_blank(before),
        is_blank(after),
        is_base64_text(text),
        base64_decoded(text) == Some(bytes),
    ensures
        bytes.len() >= 2 && bytes[0] == 0xFF && bytes[1] == 0xD8 ==> image_in_b64(
            before + text + after,
        ) == Some(ImageView { bytes, extension: "jpg"@ }),
        bytes.len() >= 4 && bytes[0] == 0x89 && bytes[1] == 0x50 && bytes[2] == 0x4E && bytes[3]
            == 0x47 ==> image_in_b64(before + text + after) == Some(
            ImageView { bytes, extension: "png"@ },
        ),
        image_extension(bytes) is None ==> image_in_b64(before + text + after) is None,
{
    lemma_base64_ends(text);
    law_trimmed(before, text, after);
    law_first_bytes_tell_the_format(bytes);
}

/// A text that carries an image is, without the white space round it, the base64 of that image.
pub proof fn law_only_base64_carries_an_image(text: Seq<char>)
    ensures
        image_in_b64(text) matches Some(image) ==> is_base64_text(trimmed(text)) && base64_decoded(
            trimmed(text),
        ) == Some(image.bytes) && image_extension(image.bytes) == Some(image.extension),
{
}

/// A data URI that is marked as base64 carries the image that its data carries.
pub proof fn law_image_in_data_uri(before: Seq<char>, after: Seq<char>, payload: Seq<char>)
    requires
        !before.contains(','),
        !after.contains(','),
    ensures
        image_in_data_uri(before + "base64"@ + after + seq![','] + payload) == image_in_b64(
            payload,
        ),
{
    law_payload_follows_the_comma(before, after, payload);
}

/// A data URI without base64 data carries no image.
pub proof fn law_no_image_in_data_uri(uri: Seq<char>)
    ensures
        data_uri_payload(uri) is None ==> image_in_data_uri(uri) is None,
{
}

/// Bytes read back exactly if their base64 text is base64 that decodes to them.
pub proof fn law_reads_back(bytes: Seq<u8>)
    ensures
        reads_back(bytes) ==> is_base64_text(base64_encoded(bytes)) && base64_decoded(
            base64_encoded(bytes),
        ) == Some(bytes),
        is_base64_text(base64_encoded(bytes)) && base64_decoded(base64_encoded(bytes)) == Some(
            bytes,
        ) ==> reads_back(bytes),
{
}

/// A signed data URI is a data URI with the media type that was there, marked as base64, whose data
/// decode to exactly the signed bytes.
pub proof fn law_signed_uri_carries_the_bytes(
    mime: Seq<char>,
    rest: Seq<char>,
    uri: Seq<char>,
    signed: Seq<u8>,
)
    requires
        !mime.contains(';'),
    ensures
        signed_uri("data:"@ + mime + seq![';'] + rest, signed) == "data:"@ + mime + ";base64,"@
            + base64_encoded(signed),
        data_uri_mime(uri) is None ==> signed_uri(uri, signed) == "data:image/jpeg;base64,"@
            + base64_encoded(signed),
{
    law_mime_precedes_the_semicolon(mime, rest);
    reveal_strlit("data:");
    reveal_strlit("image/jpeg");
    reveal_strlit(";base64,");
    reveal_strlit("data:image/jpeg;base64,");
    assert("data:"@ + "image/jpeg"@ + ";base64,"@ =~= "data:image/jpeg;base64,"@);
}

/// The string that takes the place of an image carries the signed image in the same way. Where the
/// image was base64, the new string decodes to exactly the signed bytes; where it was in a data
/// URI, the data of the new URI do.
pub proof fn law_rewritten_string_carries_the_signed_image(
    carrier: Carrier,
    text: Seq<char>,
    signed: Seq<u8>,
)
    requires
        image_in(carrier, text) is Some,
        reads_back(signed),
    ensures
        image_in(carrier, rewritten(carrier, text, signed)) == image_of(signed),
        carrier is Base64 ==> {
            &&& is_base64_text(rewritten(carrier, text, signed))
            &&& base64_decoded(rewritten(carrier, text, signed)) == Some(signed)
            &&& rewritten(carrier, text, signed) == base64_encoded(signed)
        },
        carrier is DataUri ==> {
            &&& data_uri_payload(rewritten(carrier, text, signed)) matches Some(payload)
            &&& base64_decoded(payload) == Some(signed)
            &&& data_uri_mime(text) matches Some(mime) ==> data_uri_mime(
                rewritten(carrier, text, signed),
            ) == Some(mime)
            &&& rewritten(carrier, text, signed) == signed_uri(text, signed)
        },
{
    match carrier {
        Carrier::Base64 => crate::image::lemma_signed_b64(signed),
        Carrier::DataUri => {
            crate::image::lemma_signed_uri(text, signed);
            crate::image::lemma_signed_uri_payload(text, signed);
            crate::image::law_signed_uri_keeps_mime(text, signed);
        },
    }
}

/// Each carrier has its own way to carry an image.
pub proof fn law_carriers(text: Seq<char>)
    ensures
        image_in(Carrier::Base64, text) == image_in_b64(text),
        image_in(Carrier::DataUri, text) == image_in_data_uri(text),
{
}

} // verus!
