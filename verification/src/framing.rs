//! How messages are framed on a connection: one message per line.
use vstd::prelude::*;
use vstd::string::StringSliceAdditionalSpecFns;
use vstd::utf8::{encode_utf8, decode_utf8, encode_utf8_decode_utf8};

verus! {

/// The bytes of `text` followed by a newline.
pub open spec fn framed(text: Seq<char>) -> Seq<u8> {
    encode_utf8(text).push(10u8)
}

/// The bytes that put `text` on a connection as one line: its UTF-8 bytes
/// and a newline.
pub fn encode_line(text: &str) -> (line: Vec<u8>)
    ensures
        line@ == framed(text@),
{
    let bytes = text.as_bytes();
    let n = bytes.len();
    let mut line: Vec<u8> = Vec::new();
    let mut i: usize = 0;
    while i < n
        invariant
            n == bytes@.len(),
            bytes@ == text.spec_bytes(),
            i <= n,
            line@ == bytes@.take(i as int),
        decreases n - i,
    {
        line.push(bytes[i]);
        assert(bytes@.take(i + 1) =~= bytes@.take(i as int).push(bytes@[i as int]));
        i += 1;
    }
    assert(bytes@.take(n as int) =~= bytes@);
    line.push(10u8);
    line
}

/// The line that carries a serialised message, or a blank line where the
/// message could not be serialised.
pub fn line_or_blank<E>(serialized: Result<String, E>) -> (line: Vec<u8>)
    ensures
        match serialized {
            Ok(text) => line@ == framed(text@),
            Err(_) => line@ == seq![10u8],
        },
{
    match serialized {
        Ok(text) => encode_line(text.as_str()),
        Err(_) => {
            let mut line: Vec<u8> = Vec::new();
            line.push(10u8);
            assert(line@ =~= seq![10u8]);
            line
        },
    }
}

/// A framed line ends with its newline, and what comes before the newline
/// decodes back to the text.
pub proof fn lemma_framed_line_decodes(text: Seq<char>)
    ensures
        framed(text).len() > 0,
        framed(text).last() == 10u8,
        decode_utf8(framed(text).drop_last()) == text,
{
    encode_utf8_decode_utf8(text);
    assert(framed(text).drop_last() =~= encode_utf8(text));
}

} // verus!
