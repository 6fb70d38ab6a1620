use vstd::prelude::*;
use vstd::utf8::{decode_utf8, valid_utf8};

use crate::text::{from_utf8_lossy, utf8_lossy, utf8_to_string};

verus! {

#[verifier::external_type_specification]
#[verifier::external_body]
pub struct ExEncoding(encoding_rs::Encoding);

#[verifier::external_type_specification]
#[verifier::external_body]
pub struct ExEncodingDetector(chardetng::EncodingDetector);

/// An encoding of `encoding_rs`, with the number that stands for which encoding it is.
struct TextEncoding {
    encoding: &'static encoding_rs::Encoding,
    id: Ghost<int>,
}

impl View for TextEncoding {
    type V = int;

    closed spec fn view(&self) -> int {
        self.id@
    }
}

/// A `chardetng` detector, with the bytes it was fed once the stream was ended.
struct Detector {
    detector: chardetng::EncodingDetector,
    fed: Ghost<Option<Seq<u8>>>,
}

/// The encoding (by its number) that `encoding_rs::Encoding::for_label` finds for a
/// label, if any.
pub uninterp spec fn label_encoding(label: Seq<u8>) -> Option<int>;

/// The encoding (by its number) that a new `chardetng` detector guesses after it was fed
/// `bytes` in one call that ends the stream, given no top-level domain.
pub uninterp spec fn guessed_encoding(bytes: Seq<u8>, allow_utf8: bool) -> int;

/// What `encoding_rs::Encoding::decode` gives for `bytes` in the encoding numbered
/// `encoding`: the text, and whether malformed sequences were replaced.
pub uninterp spec fn decoded_in(encoding: int, bytes: Seq<u8>) -> (Seq<char>, bool);

/// `encoding_rs::Encoding::for_label`: the encoding that a WHATWG label names, if any;
/// the contract names the outcome.
#[verifier::external_body]
fn encoding_for_label(label: &[u8]) -> (r: Option<TextEncoding>)
    ensures
        match label_encoding(label@) {
            Some(e) => r matches Some(t) && t@ == e,
            None => r is None,
        },
{
    match encoding_rs::Encoding::for_label(label) {
        Some(encoding) => Some(TextEncoding { encoding, id: Ghost(label_encoding(label@)->0) }),
        None => None,
    }
}

/// `encoding_rs::Encoding::decode`, made owned: the text of the bytes in the encoding
/// (after BOM sniffing) and whether malformed sequences were replaced; the contract names
/// the outcome. Its buffer size calculation overflows only for inputs near
/// `usize::MAX / 3` bytes, which `requires` leaves out.
#[verifier::external_body]
fn encoding_decode(encoding: &TextEncoding, bytes: &[u8]) -> (r: (String, bool))
    requires
        bytes@.len() <= usize::MAX / 4,
    ensures
        (r.0@, r.1) == decoded_in(encoding@, bytes@),
{
    let (text, _, had_errors) = encoding.encoding.decode(bytes);
    (text.into_owned(), had_errors)
}

/// `chardetng::EncodingDetector::new`: a detector that has seen no bytes.
#[verifier::external_body]
fn detector_new() -> (r: Detector)
    ensures
        r.fed@ is None,
{
    Detector { detector: chardetng::EncodingDetector::new(), fed: Ghost(None) }
}

/// `chardetng::EncodingDetector::feed` with `last` set: the detector sees the bytes and
/// the stream ends. The call panics on a detector that was fed with `last` set before,
/// which `requires` leaves out; nothing is claimed of the result.
#[verifier::external_body]
fn detector_feed_last(detector: &mut Detector, bytes: &[u8]) -> (non_ascii_seen: bool)
    requires
        old(detector).fed@ is None,
    ensures
        final(detector).fed@ == Some(bytes@),
{
    detector.detector.feed(bytes, true)
}

/// `chardetng::EncodingDetector::guess` with no top-level domain (so it cannot panic):
/// the encoding that the bytes seen most likely use; the contract names the outcome.
#[verifier::external_body]
fn detector_guess(detector: &Detector, allow_utf8: bool) -> (r: TextEncoding)
    requires
        detector.fed@ is Some,
    ensures
        r@ == guessed_encoding(detector.fed@->0, allow_utf8),
{
    TextEncoding {
        encoding: detector.detector.guess(None, allow_utf8),
        id: Ghost(guessed_encoding(detector.fed@->0, allow_utf8)),
    }
}

/// The text for bytes of an unknown encoding: UTF-8 as it stands; otherwise the text in
/// the encoding that the hint names; otherwise the text in the encoding a detector
/// guesses, if it decodes without errors; otherwise lossy UTF-8.
pub open spec fn text_of(bytes: Seq<u8>, hint: Option<Seq<u8>>) -> Seq<char> {
    if valid_utf8(bytes) {
        decode_utf8(bytes)
    } else {
        let named = match hint {
            Some(h) => label_encoding(h),
            None => None,
        };
        match named {
            Some(e) => decoded_in(e, bytes).0,
            None => {
                let guessed = decoded_in(guessed_encoding(bytes, true), bytes);
                if !guessed.1 {
                    guessed.0
                } else {
                    utf8_lossy(bytes)
                }
            },
        }
    }
}

pub open spec fn opt_view(hint: Option<&[u8]>) -> Option<Seq<u8>> {
    match hint {
        Some(h) => Some(h@),
        None => None,
    }
}

/// Text from bytes of an unknown encoding: UTF-8 as it stands; otherwise the encoding that
/// the hint names, or else the one a detector guesses if it decodes without errors, or else
/// lossy UTF-8.
pub fn decode_text(bytes: &[u8], encoding_hint: Option<&[u8]>) -> (r: String)
    requires
        valid_utf8(bytes@) || bytes@.len() <= usize::MAX / 4,
    ensures
        r@ == text_of(bytes@, opt_view(encoding_hint)),
{
    if let Some(text) = utf8_to_string(bytes) {
        return text;
    }
    if let Some(hint) = encoding_hint {
        if let Some(encoding) = encoding_for_label(hint) {
            let (decoded, _) = encoding_decode(&encoding, bytes);
            return decoded;
        }
    }
    let mut detector = detector_new();
    detector_feed_last(&mut detector, bytes);
    let encoding = detector_guess(&detector, true);
    let (decoded, had_errors) = encoding_decode(&encoding, bytes);
    if !had_errors {
        return decoded;
    }
    from_utf8_lossy(bytes)
}

} // verus!
