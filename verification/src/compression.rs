use vstd::prelude::*;
use vstd::string::StrSliceExecFns;
use vstd::utf8::{decode_utf8, encode_utf8, valid_utf8};

verus! {

/// The level at which texts are compressed.
pub const COMPRESSION_LEVEL: i32 = 1;

/// What the zstd encoder gives for the data at a level of compression:
/// their frame, or nothing where it fails.
pub uninterp spec fn compressed(data: Seq<u8>, level: i32) -> Option<Seq<u8>>;

/// What the zstd decoder gives for the data: what their frames hold, or
/// nothing where it fails, as on data that are no frames.
pub uninterp spec fn decompressed(data: Seq<u8>) -> Option<Seq<u8>>;

/// `zstd::stream::encode_all` on a slice: it reads the data to its end,
/// runs an encoder of the given level over them and hands back the frame,
/// or the error of the encoder, which is `None` here. The contract gives
/// what comes back a name, as what the data and the level determine, and
/// says of no data that they have a frame.
#[verifier::external_body]
fn encode_all(data: &Vec<u8>, level: i32) -> (r: Option<Vec<u8>>)
    ensures
        r is Some <==> compressed(data@, level) is Some,
        r matches Some(frame) ==> compressed(data@, level) == Some(frame@),
{
    zstd::stream::encode_all(data.as_slice(), level).ok()
}

/// `zstd::stream::decode_all` on a slice: it decodes the frames of the data
/// and hands back what they hold, or the error of the decoder, which is
/// `None` here. The contract gives what comes back a name, as what the
/// data determine, and says of no data that they can be decoded.
#[verifier::external_body]
fn decode_all(data: &Vec<u8>) -> (r: Option<Vec<u8>>)
    ensures
        r is Some <==> decompressed(data@) is Some,
        r matches Some(content) ==> decompressed(data@) == Some(content@),
{
    zstd::stream::decode_all(data.as_slice()).ok()
}

/// `String::from_utf8`: the text of the bytes where they are UTF-8, and
/// else an error, which is `None` here.
#[verifier::external_body]
pub(crate) fn from_utf8(bytes: Vec<u8>) -> (r: Option<String>)
    ensures
        r is Some <==> valid_utf8(bytes@),
        r matches Some(text) ==> text@ == decode_utf8(bytes@),
{
    String::from_utf8(bytes).ok()
}

/// Why compressed data gives no text.
#[derive(Clone, Copy, Debug, PartialEq, Eq)]
pub enum DecompressError {
    /// The data could not be decompressed.
    NotCompressed,
    /// What the data holds is not UTF-8.
    NotText,
}

/// The text of decompressed content, where there is content and it is
/// UTF-8.
pub open spec fn text_of(content: Option<Seq<u8>>) -> Result<Seq<char>, DecompressError> {
    match content {
        None => Err(DecompressError::NotCompressed),
        Some(bytes) => if valid_utf8(bytes) {
            Ok(decode_utf8(bytes))
        } else {
            Err(DecompressError::NotText)
        },
    }
}

/// The frame of a text: what the encoder gives for the bytes of the text
/// at the usual level, `None` where it gives nothing.
pub fn compress_string(source: &str) -> (r: Option<Vec<u8>>)
    ensures
        r is Some <==> compressed(encode_utf8(source@), COMPRESSION_LEVEL) is Some,
        r matches Some(frame) ==> compressed(encode_utf8(source@), COMPRESSION_LEVEL) == Some(
            frame@,
        ),
{
    let bytes = source.as_bytes_vec();
    encode_all(&bytes, COMPRESSION_LEVEL)
}

/// The text of decompressed content: `content` is what the decoder gave,
/// `None` for its failure.
pub fn content_to_string(content: Option<Vec<u8>>) -> (r: Result<String, DecompressError>)
    ensures
        match r {
            Ok(text) => content is Some && text_of(Some(content->0@)) == Ok::<
                Seq<char>,
                DecompressError,
            >(text@),
            Err(error) => match content {
                Some(bytes) => text_of(Some(bytes@)) == Err::<Seq<char>, DecompressError>(error),
                None => error == DecompressError::NotCompressed,
            },
        },
{
    match content {
        None => Err(DecompressError::NotCompressed),
        Some(bytes) => match from_utf8(bytes) {
            Some(text) => Ok(text),
            None => Err(DecompressError::NotText),
        },
    }
}

/// The text that compressed data hold: that of what the decoder gives for
/// them.
pub fn decompress_to_string(data: &Vec<u8>) -> (r: Result<String, DecompressError>)
    ensures
        match r {
            Ok(text) => text_of(decompressed(data@)) == Ok::<Seq<char>, DecompressError>(text@),
            Err(error) => text_of(decompressed(data@)) == Err::<Seq<char>, DecompressError>(error),
        },
{
    content_to_string(decode_all(data))
}

/// The bytes of a text are UTF-8, and their text is that text.
pub proof fn text_of_its_bytes(text: Seq<char>)
    ensures
        text_of(Some(encode_utf8(text))) == Ok::<Seq<char>, DecompressError>(text),
{
    vstd::utf8::encode_utf8_valid_utf8(text);
    vstd::utf8::encode_utf8_decode_utf8(text);
}

} // verus!
