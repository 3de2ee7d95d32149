use kartoffels_core::upload::{decode_pasted, UploadError};

#[test]
fn pasted_base64_is_decoded() {
    assert_eq!(decode_pasted("aGVsbG8="), Ok(b"hello".to_vec()));
}

#[test]
fn line_breaks_and_blanks_are_ignored() {
    assert_eq!(decode_pasted("  aGVs\r\nbG8=\r\n  "), Ok(b"hello".to_vec()));
    assert_eq!(decode_pasted("\taGVsbG8gd29y\nbGQ=\n"), Ok(b"hello world".to_vec()));
}

#[test]
fn text_that_is_not_base64_is_refused() {
    assert_eq!(decode_pasted("not base64!"), Err(UploadError::NotBase64));
    assert_eq!(decode_pasted("aGVsbG8"), Err(UploadError::NotBase64));
}

#[test]
fn empty_paste_decodes_to_nothing() {
    assert_eq!(decode_pasted(" \r\n "), Ok(Vec::new()));
}

#[test]
fn unicode_white_space_at_the_edges_is_trimmed() {
    assert_eq!(decode_pasted("\u{a0}aGVsbG8=\u{2028}"), Ok(b"hello".to_vec()));
    assert_eq!(decode_pasted("\u{3000} aGVsbG8=\u{85}\r\n"), Ok(b"hello".to_vec()));
    assert_eq!(decode_pasted("aGVs\u{a0}bG8="), Err(UploadError::NotBase64));
}
