use rrr::compression::{
    compress_string, content_to_string, decompress_to_string, DecompressError, COMPRESSION_LEVEL,
};

#[test]
fn compressed_text_is_a_zstd_frame() {
    let text = "{\"experiments\":{}}".repeat(50);
    let frame = compress_string(&text).unwrap();
    assert_eq!(&frame[..4], &[0x28, 0xb5, 0x2f, 0xfd]);
    assert_ne!(frame, text.as_bytes());
    assert!(frame.len() < text.len());
    assert_eq!(frame, zstd::stream::encode_all(text.as_bytes(), COMPRESSION_LEVEL).unwrap());
    assert_eq!(COMPRESSION_LEVEL, 1);
}

#[test]
fn decompression_gives_the_text_back() {
    for text in ["", "a", "héllo wörld \u{10000}", "{\"experiments\": {\"e1\": {}}}"] {
        let frame = compress_string(text).unwrap();
        assert_eq!(decompress_to_string(&frame), Ok(text.to_string()));
    }
    let long = "0123456789".repeat(100_000);
    assert_eq!(decompress_to_string(&compress_string(&long).unwrap()), Ok(long));
}

#[test]
fn data_that_is_no_frame_is_not_decompressed() {
    assert_eq!(decompress_to_string(&b"plain text".to_vec()), Err(DecompressError::NotCompressed));
    assert_eq!(decompress_to_string(&vec![0x28, 0xb5, 0x2f]), Err(DecompressError::NotCompressed));
}

#[test]
fn content_that_is_no_text_is_refused() {
    let frame = zstd::stream::encode_all(&[0xffu8, 0xfe, 0x00][..], 1).unwrap();
    assert_eq!(decompress_to_string(&frame), Err(DecompressError::NotText));
    assert_eq!(content_to_string(Some(vec![0xc3])), Err(DecompressError::NotText));
    assert_eq!(content_to_string(Some(vec![0xed, 0xa0, 0x80])), Err(DecompressError::NotText));
    assert_eq!(content_to_string(Some(vec![0xc3, 0xa9])), Ok("é".to_string()));
    assert_eq!(content_to_string(Some(vec![])), Ok(String::new()));
    assert_eq!(content_to_string(None), Err(DecompressError::NotCompressed));
}

#[test]
fn compression_answers_as_the_encoder_and_the_decoder_do() {
    for text in ["", "x", "some text, some text, some text"] {
        let frame = compress_string(text);
        assert_eq!(frame, zstd::stream::encode_all(text.as_bytes(), COMPRESSION_LEVEL).ok());
        assert!(frame.is_some());
    }
    for data in [vec![], vec![0u8; 3], b"plain".to_vec(), compress_string("ok").unwrap()] {
        let want = match zstd::stream::decode_all(&data[..]) {
            Ok(bytes) => String::from_utf8(bytes).map_err(|_| DecompressError::NotText),
            Err(_) => Err(DecompressError::NotCompressed),
        };
        assert_eq!(decompress_to_string(&data), want);
    }
}
