//! The content coding used by the remote rule store.
//!
//! The remote service hands file contents back base64-encoded, broken into
//! lines; uploading sends base64 as well.  The transfer itself lives in
//! the surrounding program — here is only the content coding, so that what
//! is uploaded decodes back to the bytes that were saved.

use crate::text::push_char;
use vstd::prelude::*;

verus! {

/// The text that the standard base64 engine produces for the given bytes.
pub uninterp spec fn b64_encoding(data: Seq<u8>) -> Seq<char>;

/// Relies on base64's standard engine: the encoding is a function of the
/// bytes alone.
#[verifier::external_body]
fn b64_encode(data: &Vec<u8>) -> (r: String)
    ensures
        r@ == b64_encoding(data@),
{
    base64::Engine::encode(&base64::engine::general_purpose::STANDARD, data)
}

/// Relies on base64's standard engine: decoding inverts encoding, so a
/// text that is the encoding of some bytes decodes to exactly those bytes.
#[verifier::external_body]
fn b64_decode(text: &str) -> (r: Option<Vec<u8>>)
    ensures
        match r {
            Some(v) => forall|d: Seq<u8>| #[trigger] b64_encoding(d) == text@ ==> v@ == d,
            None => forall|d: Seq<u8>| #[trigger] b64_encoding(d) != text@,
        },
{
    match base64::Engine::decode(&base64::engine::general_purpose::STANDARD, text) {
        Ok(v) => Some(v),
        Err(_) => None,
    }
}

/// The text without its line breaks.
pub open spec fn spec_strip_newlines(s: Seq<char>) -> Seq<char>
    decreases s.len(),
{
    if s.len() == 0 {
        Seq::empty()
    } else {
        spec_strip_newlines(s.drop_last()) + (if s.last() == '\n' {
            Seq::<char>::empty()
        } else {
            seq![s.last()]
        })
    }
}

/// Removes the line breaks that the remote service inserts into encoded
/// content.
fn strip_newlines(s: &str) -> (r: String)
    ensures
        r@ == spec_strip_newlines(s@),
{
    let n = s.unicode_len();
    let mut r = String::new();
    let mut i: usize = 0;
    while i < n
        invariant
            0 <= i <= n,
            n == s@.len(),
            r@ == spec_strip_newlines(s@.take(i as int)),
        decreases n - i,
    {
        let c = s.get_char(i);
        proof {
            assert(s@.take(i + 1).drop_last() =~= s@.take(i as int));
            assert(s@.take(i + 1).last() == s@[i as int]);
        }
        if c != '\n' {
            push_char(&mut r, c);
        }
        i += 1;
    }
    proof {
        assert(s@.take(n as int) =~= s@);
    }
    r
}

/// Encodes saved bytes for upload to the remote store.
pub fn encode_github_content(data: &Vec<u8>) -> (r: String)
    ensures
        r@ == b64_encoding(data@),
{
    b64_encode(data)
}

/// Decodes a downloaded file's content: the service's line breaks are
/// stripped, then the base64 text is decoded.  Content that encodes some
/// bytes decodes to exactly those bytes.
pub fn decode_github_content(content: &str) -> (r: Option<Vec<u8>>)
    ensures
        forall|d: Seq<u8>|
            #[trigger] b64_encoding(d) == spec_strip_newlines(content@) ==> (r matches Some(v)
                && v@ == d),
{
    let cleaned = strip_newlines(content);
    b64_decode(cleaned.as_str())
}

/// Uploading what was saved and decoding it on the way back yields the
/// saved bytes: stripping line breaks from unbroken encoded content is the
/// identity, and decoding inverts encoding.
pub proof fn lemma_content_round_trip(data: Seq<u8>)
    requires
        forall|j: int| 0 <= j < b64_encoding(data).len() ==> b64_encoding(data)[j] != '\n',
    ensures
        spec_strip_newlines(b64_encoding(data)) == b64_encoding(data),
{
    lemma_strip_newlines_clean(b64_encoding(data));
}

/// Stripping line breaks from text without any is the identity.
proof fn lemma_strip_newlines_clean(s: Seq<char>)
    requires
        forall|j: int| 0 <= j < s.len() ==> s[j] != '\n',
    ensures
        spec_strip_newlines(s) == s,
    decreases s.len(),
{
    if s.len() > 0 {
        lemma_strip_newlines_clean(s.drop_last());
        assert(spec_strip_newlines(s) =~= s);
    } else {
        assert(spec_strip_newlines(s) =~= s);
    }
}

} // verus!
