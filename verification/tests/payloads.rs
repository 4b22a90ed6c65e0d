use flate2::{Compress, Compression, FlushCompress};
use placard::payload::{
    dictionary_v1, inflate_bounded, inflate_outcome, InflateError, InflateStatus,
    DICTIONARY_SOURCE,
};
use placard::routes::MAX_DECODED_SIZE;

/// Raw DEFLATE of `data`, the window preset with `dictionary` if given.
fn deflate(data: &[u8], dictionary: Option<&[u8]>) -> Vec<u8> {
    let mut compress = Compress::new(Compression::default(), false);
    if let Some(dictionary) = dictionary {
        compress.set_dictionary(dictionary).unwrap();
    }
    let mut out = Vec::with_capacity(data.len() + 1024);
    compress
        .compress_vec(data, &mut out, FlushCompress::Finish)
        .unwrap();
    out
}

#[test]
fn inflates_a_plain_stream() {
    let text = b"<span class=\"label\">build</span><span class=\"value\">passing</span>";
    let compressed = deflate(text, None);
    assert_eq!(inflate_bounded(&compressed, None), Ok(text.to_vec()));
}

#[test]
fn inflates_with_the_preset_dictionary() {
    let text = b"<div class=\"item\"><span class=\"label\">stars</span></div>";
    let compressed = deflate(text, Some(dictionary_v1()));
    assert_eq!(
        inflate_bounded(&compressed, Some(dictionary_v1())),
        Ok(text.to_vec())
    );
}

#[test]
fn dictionary_shrinks_its_own_idioms() {
    let text = b"<span data-preset=\"npm-version\" data-package=\"\"></span>";
    let plain = deflate(text, None);
    let primed = deflate(text, Some(dictionary_v1()));
    assert!(primed.len() < plain.len());
}

#[test]
fn garbage_is_corrupt() {
    // Block type 3 is reserved in DEFLATE.
    let garbage = [0xffu8, 0xff, 0xff, 0xff];
    assert_eq!(inflate_bounded(&garbage, None), Err(InflateError::Corrupt));
}

#[test]
fn exactly_the_limit_inflates() {
    let data = vec![b'a'; MAX_DECODED_SIZE];
    let compressed = deflate(&data, None);
    let inflated = inflate_bounded(&compressed, None).unwrap();
    assert_eq!(inflated.len(), MAX_DECODED_SIZE);
    assert!(inflated.iter().all(|&b| b == b'a'));
}

#[test]
fn one_past_the_limit_is_too_large() {
    let data = vec![b'a'; MAX_DECODED_SIZE + 1];
    let compressed = deflate(&data, None);
    assert_eq!(inflate_bounded(&compressed, None), Err(InflateError::TooLarge));
}

#[test]
fn far_past_the_limit_is_too_large() {
    let data = vec![0u8; 16 * MAX_DECODED_SIZE];
    let compressed = deflate(&data, None);
    assert!(compressed.len() < 2048);
    assert_eq!(inflate_bounded(&compressed, None), Err(InflateError::TooLarge));
}

#[test]
fn empty_stream_inflates_to_nothing() {
    let compressed = deflate(b"", None);
    assert_eq!(inflate_bounded(&compressed, None), Ok(Vec::new()));
}

#[test]
fn outcome_of_an_ended_stream_is_its_output() {
    let out = vec![7u8, 8, 9, 10, 11];
    assert_eq!(
        inflate_outcome(InflateStatus::StreamEnd, 3, out),
        Ok(vec![7u8, 8, 9])
    );
}

#[test]
fn outcome_of_an_unended_stream_is_too_large() {
    let out = vec![1u8, 2, 3];
    assert_eq!(
        inflate_outcome(InflateStatus::Progressed, 2, out.clone()),
        Err(InflateError::TooLarge)
    );
    assert_eq!(
        inflate_outcome(InflateStatus::BufError, 2, out),
        Err(InflateError::TooLarge)
    );
}

#[test]
fn outcome_past_the_limit_is_too_large() {
    let out = vec![0u8; MAX_DECODED_SIZE + 1];
    assert_eq!(
        inflate_outcome(InflateStatus::StreamEnd, MAX_DECODED_SIZE as u64 + 1, out),
        Err(InflateError::TooLarge)
    );
}

#[test]
fn dictionary_is_the_source_text() {
    let dictionary = dictionary_v1();
    assert_eq!(dictionary, DICTIONARY_SOURCE.as_bytes());
    assert!(dictionary.starts_with(b"<body>\n\t<div class=\"wrap\">"));
    assert!(dictionary.ends_with(b"</span></div></body></html>\n"));
}
