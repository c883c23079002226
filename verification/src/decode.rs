//! Decoding file contents to text.
//!
//! Raw bytes are decoded through a fixed cascade: a byte-order mark wins
//! first; then strict UTF-8; then a fixed list of legacy encodings, each
//! accepted only when it decodes without error; and finally lossy UTF-8,
//! which always succeeds. The cascade never fails; at worst the text holds
//! substitution characters.

use vstd::prelude::*;
use vstd::utf8::decode_utf8;
use vstd::utf8::valid_utf8;

use crate::pattern::copy_range;

verus! {

/// The text that the encoding named by the label gives for the bytes, with
/// malformed sequences replaced by the substitution character. A function
/// of the label and the bytes alone.
pub uninterp spec fn decoded_text(label: Seq<char>, bytes: Seq<u8>) -> Seq<char>;

/// Whether decoding the bytes under the encoding named by the label met any
/// malformed sequence. A function of the label and the bytes alone.
pub uninterp spec fn decode_had_errors(label: Seq<char>, bytes: Seq<u8>) -> bool;

/// The text of a lossy UTF-8 decode of the bytes, with invalid sequences
/// replaced by the substitution character.
pub uninterp spec fn utf8_lossy(bytes: Seq<u8>) -> Seq<char>;

/// Relies on encoding_rs's `Encoding::for_label`, which maps a lowercase
/// WHATWG label to its encoding, and `Encoding::decode`, which decodes a
/// whole buffer with byte-order-mark sniffing and replacement of malformed
/// sequences, returning the text and whether any sequence was malformed.
/// Both results depend on the label and the bytes alone; `decoded_text` and
/// `decode_had_errors` name them. An unknown label falls back to UTF-8.
#[verifier::external_body]
fn decode_labeled(label: &str, bytes: &Vec<u8>) -> (r: (String, bool))
    requires
        bytes@.len() <= usize::MAX / 4,
    ensures
        r.0@ == decoded_text(label@, bytes@),
        r.1 == decode_had_errors(label@, bytes@),
{
    let enc = encoding_rs::Encoding::for_label(label.as_bytes()).unwrap_or(encoding_rs::UTF_8);
    let (text, _, had_errors) = enc.decode(bytes.as_slice());
    (text.into_owned(), had_errors)
}

/// Relies on str::from_utf8: it returns `Ok` exactly on well-formed UTF-8,
/// yielding the characters that the bytes encode.
#[verifier::external_body]
fn decode_utf8_strict(bytes: &Vec<u8>) -> (r: Option<String>)
    ensures
        r is Some <==> valid_utf8(bytes@),
        r matches Some(s) ==> s@ == decode_utf8(bytes@),
{
    match core::str::from_utf8(bytes.as_slice()) {
        Ok(s) => Some(s.to_string()),
        Err(_) => None,
    }
}

/// Relies on String::from_utf8_lossy: invalid sequences come out as the
/// substitution character, and well-formed UTF-8 comes out unchanged, so on
/// valid input the result is the decoded characters themselves.
#[verifier::external_body]
fn decode_lossy(bytes: &Vec<u8>) -> (r: String)
    requires
        bytes@.len() <= usize::MAX / 4,
    ensures
        r@ == utf8_lossy(bytes@),
        valid_utf8(bytes@) ==> r@ == decode_utf8(bytes@),
{
    String::from_utf8_lossy(bytes.as_slice()).into_owned()
}

/// The legacy encodings of the cascade, by label, in the order tried:
/// the two UTF-16 byte orders, Windows-1252, the ISO-8859 family, and the
/// other regional encodings.
pub open spec fn spec_cascade_labels() -> Seq<Seq<char>> {
    seq![
        "utf-16le"@,
        "utf-16be"@,
        "windows-1252"@,
        "iso-8859-2"@,
        "iso-8859-4"@,
        "iso-8859-5"@,
        "iso-8859-6"@,
        "iso-8859-7"@,
        "iso-8859-8"@,
        "iso-8859-10"@,
        "iso-8859-13"@,
        "iso-8859-14"@,
        "iso-8859-15"@,
        "iso-8859-16"@,
        "koi8-r"@,
        "koi8-u"@,
        "big5"@,
        "gbk"@,
        "shift_jis"@,
        "euc-jp"@,
        "euc-kr"@,
    ]
}

/// The first error-free decode among the labelled encodings, or the lossy
/// UTF-8 decode when every one of them reports an error.
pub open spec fn spec_try_legacy(labels: Seq<Seq<char>>, bytes: Seq<u8>) -> Seq<char>
    decreases labels.len(),
{
    if labels.len() == 0 {
        utf8_lossy(bytes)
    } else if !decode_had_errors(labels[0], bytes) {
        decoded_text(labels[0], bytes)
    } else {
        spec_try_legacy(labels.drop_first(), bytes)
    }
}

/// The decoded text of a file's bytes. A UTF-16 byte-order mark picks its
/// byte order and is stripped; a UTF-8 byte-order mark is stripped when the
/// rest is well-formed UTF-8; well-formed UTF-8 without a mark decodes as
/// such; otherwise the first legacy encoding that decodes without error
/// wins, and failing all, UTF-8 with substitution.
pub open spec fn spec_decode(bytes: Seq<u8>) -> Seq<char> {
    let n = bytes.len() as int;
    if bytes.len() >= 2 && bytes[0] == 0xff && bytes[1] == 0xfe {
        decoded_text("utf-16le"@, bytes.subrange(2, n))
    } else if bytes.len() >= 2 && bytes[0] == 0xfe && bytes[1] == 0xff {
        decoded_text("utf-16be"@, bytes.subrange(2, n))
    } else if bytes.len() >= 3 && bytes[0] == 0xef && bytes[1] == 0xbb && bytes[2] == 0xbf
        && valid_utf8(bytes.subrange(3, n)) {
        decode_utf8(bytes.subrange(3, n))
    } else if valid_utf8(bytes) {
        decode_utf8(bytes)
    } else {
        spec_try_legacy(spec_cascade_labels(), bytes)
    }
}

/// Decodes a file's bytes through the cascade: byte-order marks first, then
/// strict UTF-8, then the legacy encodings in their fixed order, then lossy
/// UTF-8. Never fails.
pub fn decode_with_encoding_detection(bytes: &Vec<u8>) -> (r: String)
    requires
        bytes@.len() <= usize::MAX / 4,
    ensures
        r@ == spec_decode(bytes@),
{
    let n = bytes.len();
    if n >= 2 && bytes[0] == 0xff && bytes[1] == 0xfe {
        let tail = copy_range(bytes, 2, n);
        let r = decode_labeled("utf-16le", &tail);
        return r.0;
    }
    if n >= 2 && bytes[0] == 0xfe && bytes[1] == 0xff {
        let tail = copy_range(bytes, 2, n);
        let r = decode_labeled("utf-16be", &tail);
        return r.0;
    }
    if n >= 3 && bytes[0] == 0xef && bytes[1] == 0xbb && bytes[2] == 0xbf {
        let tail = copy_range(bytes, 3, n);
        match decode_utf8_strict(&tail) {
            Some(s) => {
                return s;
            },
            None => {},
        }
    }
    match decode_utf8_strict(bytes) {
        Some(s) => {
            return s;
        },
        None => {},
    }
    let labels: Vec<&str> = vec![
        "utf-16le",
        "utf-16be",
        "windows-1252",
        "iso-8859-2",
        "iso-8859-4",
        "iso-8859-5",
        "iso-8859-6",
        "iso-8859-7",
        "iso-8859-8",
        "iso-8859-10",
        "iso-8859-13",
        "iso-8859-14",
        "iso-8859-15",
        "iso-8859-16",
        "koi8-r",
        "koi8-u",
        "big5",
        "gbk",
        "shift_jis",
        "euc-jp",
        "euc-kr",
    ];
    let ghost cascade = spec_cascade_labels();
    proof {
        assert(labels@.len() == cascade.len());
        assert(forall|k: int| 0 <= k < cascade.len() ==> labels@[k]@ == cascade[k]);
        assert(cascade.skip(0) =~= cascade);
    }
    let mut i: usize = 0;
    while i < labels.len()
        invariant
            i <= labels@.len(),
            labels@.len() == cascade.len(),
            cascade == spec_cascade_labels(),
            forall|k: int| 0 <= k < cascade.len() ==> labels@[k]@ == cascade[k],
            spec_try_legacy(cascade.skip(i as int), bytes@) == spec_try_legacy(cascade, bytes@),
            spec_decode(bytes@) == spec_try_legacy(cascade, bytes@),
            bytes@.len() <= usize::MAX / 4,
        decreases labels@.len() - i,
    {
        let r = decode_labeled(labels[i], bytes);
        proof {
            assert(cascade.skip(i as int)[0] == cascade[i as int]);
        }
        if !r.1 {
            proof {
                assert(cascade.skip(i as int).len() > 0);
                assert(spec_try_legacy(cascade.skip(i as int), bytes@) == decoded_text(
                    cascade[i as int],
                    bytes@,
                ));
            }
            return r.0;
        }
        proof {
            assert(cascade.skip(i as int).drop_first() =~= cascade.skip(i + 1));
        }
        i = i + 1;
    }
    proof {
        assert(cascade.skip(i as int) =~= Seq::<Seq<char>>::empty());
    }
    decode_lossy(bytes)
}

} // verus!
