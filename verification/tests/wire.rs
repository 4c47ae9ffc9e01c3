use moss_tts_nano::error::TtsError;
use moss_tts_nano::wire::{decode_varint, skip_field};

#[test]
fn varints_are_read_seven_bits_at_a_time() {
    assert!(matches!(decode_varint(&[0x05], 0), Ok((5, 1))));
    assert!(matches!(decode_varint(&[0xAC, 0x02], 0), Ok((300, 2))));
    assert!(matches!(decode_varint(&[0xFF, 0x00, 0x80, 0x01], 2), Ok((128, 4))));
    let most = [0xFF, 0xFF, 0xFF, 0xFF, 0xFF, 0xFF, 0xFF, 0xFF, 0xFF, 0x01];
    assert!(matches!(decode_varint(&most, 0), Ok((u64::MAX, 10))));
}

#[test]
fn a_varint_that_breaks_off_is_an_error() {
    assert!(matches!(decode_varint(&[], 0), Err(TtsError::EndOfVarint(_))));
    assert!(matches!(decode_varint(&[0x80, 0x80], 0), Err(TtsError::EndOfVarint(_))));
    assert!(matches!(decode_varint(&[0x01], 1), Err(TtsError::EndOfVarint(_))));
}

#[test]
fn a_varint_that_is_too_long_is_an_error() {
    let long = [0x80u8; 11];
    assert!(matches!(decode_varint(&long, 0), Err(TtsError::VarintTooLong(_))));
}

#[test]
fn fields_are_skipped_by_their_wire_type() {
    assert!(matches!(skip_field(&[0x96, 0x01, 0x00], 0, 0), Ok(2)));
    assert!(matches!(skip_field(&[0; 20], 3, 1), Ok(11)));
    assert!(matches!(skip_field(&[0x03, 1, 2, 3, 9], 0, 2), Ok(4)));
    assert!(matches!(skip_field(&[0; 20], 3, 5), Ok(7)));
    assert!(matches!(skip_field(&[0; 20], 3, 3), Err(TtsError::InvalidWireType(_))));
    assert!(matches!(skip_field(&[0x80], 0, 0), Err(TtsError::EndOfVarint(_))));
}

#[test]
fn a_field_may_be_skipped_to_beyond_the_end() {
    assert!(matches!(skip_field(&[0x7F], 0, 2), Ok(128)));
}

#[test]
fn errors_say_what_they_are() {
    let e = decode_varint(&[], 0).unwrap_err();
    assert_eq!(e.message(), "TtsError: EndOfVarintError: unexpected end of varint at position 0");
    let e = skip_field(&[0, 0], 1, 7).unwrap_err();
    assert_eq!(
        e.message(),
        "TtsError: InvalidWireTypeError: invalid wire type 7 at position 1"
    );
    let e = decode_varint(&[0x80u8; 12], 1).unwrap_err();
    assert_eq!(e.message(), "TtsError: VarintTooLongError: varint at position 1 is too long");
    assert_eq!(
        TtsError::NoAudioGenerated.message(),
        "TtsError: NoAudioGeneratedError: no audio frames generated"
    );
    assert_eq!(TtsError::Config("x".to_string()).message(), "TtsError: ConfigError: x");
}
