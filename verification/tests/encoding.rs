use moss_tts_nano::error::TtsError;
use moss_tts_nano::sp_model::SentencePieceModel;

fn varint(mut n: u64) -> Vec<u8> {
    let mut out = Vec::new();
    while n >= 128 {
        out.push((n % 128) as u8 + 128);
        n /= 128;
    }
    out.push(n as u8);
    out
}

fn bytes_field(field: u64, content: &[u8]) -> Vec<u8> {
    let mut out = varint(field * 8 + 2);
    out.extend(varint(content.len() as u64));
    out.extend(content);
    out
}

fn number_field(field: u64, n: u64) -> Vec<u8> {
    let mut out = varint(field * 8);
    out.extend(varint(n));
    out
}

fn piece(text: &str, score: f32, kind: u64) -> Vec<u8> {
    let mut inner = bytes_field(1, text.as_bytes());
    inner.extend(varint(2 * 8 + 5));
    inner.extend(score.to_le_bytes());
    inner.extend(number_field(3, kind));
    bytes_field(1, &inner)
}

struct Settings {
    model_type: u64,
    byte_fallback: u64,
    unk_id: u64,
    prefix: u64,
    squeeze: u64,
    escape: u64,
}

fn plain(model_type: u64) -> Settings {
    Settings { model_type, byte_fallback: 0, unk_id: 0, prefix: 0, squeeze: 1, escape: 1 }
}

fn model_bytes(pieces: &[(&str, f32, u64)], s: &Settings) -> Vec<u8> {
    let mut out = Vec::new();
    for (text, score, kind) in pieces {
        out.extend(piece(text, *score, *kind));
    }
    let mut trainer = number_field(3, s.model_type);
    trainer.extend(number_field(35, s.byte_fallback));
    trainer.extend(number_field(40, s.unk_id));
    out.extend(bytes_field(2, &trainer));
    let mut normalizer = bytes_field(1, b"name");
    normalizer.extend(number_field(3, s.prefix));
    normalizer.extend(number_field(4, s.squeeze));
    normalizer.extend(number_field(5, s.escape));
    out.extend(bytes_field(3, &normalizer));
    out
}

fn model(pieces: &[(&str, f32, u64)], s: &Settings) -> SentencePieceModel {
    SentencePieceModel::from_bytes(&model_bytes(pieces, s)).unwrap()
}

fn encode(m: &SentencePieceModel, text: &str) -> Vec<(i32, String)> {
    m.encode(text).unwrap().into_iter().map(|t| (t.id, t.piece)).collect()
}

fn tokens(list: &[(i32, &str)]) -> Vec<(i32, String)> {
    list.iter().map(|(id, p)| (*id, p.to_string())).collect()
}

fn normalized(m: &SentencePieceModel, text: &str) -> String {
    m.normalize(text).into_iter().collect()
}

#[test]
fn pairs_are_merged_by_score() {
    let pieces = [
        ("<unk>", 0.0, 2),
        ("a", -1.0, 1),
        ("b", -1.0, 1),
        ("c", -1.0, 1),
        ("ab", -3.0, 1),
        ("bc", -2.0, 1),
        ("abc", -4.0, 1),
    ];
    let m = model(&pieces, &plain(2));
    // "bc" scores higher than "ab", and then "a" and "bc" make "abc".
    assert_eq!(encode(&m, "abc"), tokens(&[(6, "abc")]));
    assert_eq!(encode(&m, "abab"), tokens(&[(4, "ab"), (4, "ab")]));
    assert_eq!(encode(&m, "abx"), tokens(&[(4, "ab"), (0, "x")]));
    assert_eq!(encode(&m, ""), tokens(&[]));
}

#[test]
fn the_first_of_equal_pairs_is_merged_first() {
    let pieces = [("<unk>", 0.0, 2), ("a", -1.0, 1), ("aa", -2.0, 1)];
    let m = model(&pieces, &plain(2));
    assert_eq!(encode(&m, "aaa"), tokens(&[(2, "aa"), (1, "a")]));
}

#[test]
fn bytes_stand_in_for_missing_characters() {
    let pieces = [("<unk>", 0.0, 2), ("a", -1.0, 1), ("<0xC3>", -5.0, 6), ("<0x0A>", -5.0, 6)];
    let mut s = plain(2);
    s.byte_fallback = 1;
    let m = model(&pieces, &s);
    assert_eq!(encode(&m, "aé"), tokens(&[(1, "a"), (2, "é")]));
    assert_eq!(encode(&m, "aß"), tokens(&[(1, "a"), (2, "ß")]));
    assert_eq!(encode(&m, "z"), tokens(&[(0, "z")]));
    s.model_type = 1;
    let m = model(&pieces, &s);
    assert_eq!(encode(&m, "aé"), tokens(&[(1, "a"), (2, "é")]));
    assert_eq!(encode(&m, "z"), tokens(&[(0, "z")]));
}

#[test]
fn the_best_way_through_the_text_is_found() {
    let pieces = [
        ("<unk>", 0.0, 2),
        ("a", -2.0, 1),
        ("b", -2.0, 1),
        ("c", -2.0, 1),
        ("ab", -3.0, 1),
        ("bc", -1.0, 1),
        ("abc", -5.0, 1),
    ];
    let m = model(&pieces, &plain(1));
    assert_eq!(encode(&m, "abc"), tokens(&[(1, "a"), (5, "bc")]));
    assert_eq!(encode(&m, "ab"), tokens(&[(4, "ab")]));
    assert_eq!(encode(&m, "abq"), tokens(&[(4, "ab"), (0, "q")]));
}

#[test]
fn unused_pieces_are_passed_over() {
    let pieces = [("<unk>", 0.0, 2), ("a", -2.0, 1), ("b", -2.0, 1), ("ab", -1.0, 5)];
    let m = model(&pieces, &plain(1));
    assert_eq!(encode(&m, "ab"), tokens(&[(1, "a"), (2, "b")]));
    // Merging does not ask for a piece's type.
    let m = model(&pieces, &plain(2));
    assert_eq!(encode(&m, "ab"), tokens(&[(3, "ab")]));
}

#[test]
fn of_several_pieces_with_one_text_the_last_counts() {
    let pieces = [("a", -2.0, 1), ("b", -2.0, 1), ("a", -3.0, 1)];
    assert_eq!(encode(&model(&pieces, &plain(1)), "ab"), tokens(&[(2, "a"), (1, "b")]));
    assert_eq!(encode(&model(&pieces, &plain(2)), "ab"), tokens(&[(2, "a"), (1, "b")]));
}

#[test]
fn places_and_the_least_score_are_known() {
    let pieces = [("a", -2.0, 1), ("b", -7.5, 1), ("a", -3.0, 1)];
    let m = SentencePieceModel::decode_model_proto(&model_bytes(&pieces, &plain(1))).unwrap();
    let text = vec!['a', 'b', 'c'];
    assert_eq!(m.find(&text, 0, 1), Some(2));
    assert_eq!(m.find(&text, 1, 2), Some(1));
    assert_eq!(m.find(&text, 0, 2), None);
    assert_eq!(m.min_score().bits, (-7.5f32).to_bits());
    let none = SentencePieceModel::from_bytes(&[]).unwrap();
    assert_eq!(none.min_score().bits, f32::INFINITY.to_bits());
}

#[test]
fn pieces_longer_than_the_window_are_not_found() {
    let long: String = "a".repeat(257);
    let fitting: String = "a".repeat(256);
    let pieces = [("<unk>", 0.0, 2), ("a", -1.0, 1), (long.as_str(), -0.5, 1)];
    assert_eq!(encode(&model(&pieces, &plain(1)), &long).len(), 257);
    let pieces = [("<unk>", 0.0, 2), ("a", -1.0, 1), (fitting.as_str(), -0.5, 1)];
    assert_eq!(encode(&model(&pieces, &plain(1)), &fitting), tokens(&[(2, fitting.as_str())]));
}

#[test]
fn pieces_make_up_the_normalized_text() {
    let pieces = [
        ("<unk>", 0.0, 2),
        ("\u{2581}", -1.0, 1),
        ("\u{2581}he", -1.5, 1),
        ("l", -2.0, 1),
        ("lo", -2.5, 1),
    ];
    for model_type in [1, 2] {
        let mut s = plain(model_type);
        s.prefix = 1;
        let m = model(&pieces, &s);
        let text = "hello  w\u{f6}rld \u{4f60}";
        let joined: String = encode(&m, text).into_iter().map(|t| t.1).collect();
        assert_eq!(joined, normalized(&m, text));
        assert_eq!(joined, "\u{2581}hello\u{2581}w\u{f6}rld\u{2581}\u{4f60}");
    }
}

#[test]
fn characters_are_normalized() {
    assert_eq!(SentencePieceModel::normalize_char('\u{FF21}'), 'A');
    assert_eq!(SentencePieceModel::normalize_char('\u{FF5E}'), '~');
    assert_eq!(SentencePieceModel::normalize_char('\u{3000}'), ' ');
    assert_eq!(SentencePieceModel::normalize_char('\u{FB01}'), 'f');
    assert_eq!(SentencePieceModel::normalize_char('\u{3002}'), '\u{3002}');
    assert_eq!(SentencePieceModel::normalize_char('x'), 'x');
    // Punctuation of Chinese text stays as it is.
    for c in ['\u{3002}', '\u{FF0C}', '\u{FF01}', '\u{FF1F}'] {
        assert_eq!(SentencePieceModel::normalize_char(c), c);
    }
    assert_eq!(SentencePieceModel::normalize_char('\u{FF02}'), '"');
    assert_eq!(SentencePieceModel::normalize_char('\u{FF0B}'), '+');
    assert_eq!(SentencePieceModel::normalize_char('\u{FF5F}'), '\u{FF5F}');
}

#[test]
fn whitespace_is_normalized_as_the_model_says() {
    let pieces = [("<unk>", 0.0, 2)];
    let text = " a \t b\n";
    let mut s = plain(1);
    assert_eq!(normalized(&model(&pieces, &s), text), "\u{2581}a\u{2581}b\u{2581}");
    s.prefix = 1;
    assert_eq!(normalized(&model(&pieces, &s), text), "\u{2581}a\u{2581}b\u{2581}");
    s.squeeze = 0;
    assert_eq!(
        normalized(&model(&pieces, &s), text),
        "\u{2581}\u{2581}a\u{2581}\u{2581}\u{2581}\u{2581}b\u{2581}\u{2581}"
    );
    s.escape = 0;
    assert_eq!(normalized(&model(&pieces, &s), text), "\u{2581} a \t b\n");
    s.squeeze = 1;
    assert_eq!(normalized(&model(&pieces, &s), text), "\u{2581}a b\n");
}

#[test]
fn settings_have_defaults() {
    // A model with one piece and nothing else: unigram, with a prefix.
    let m = SentencePieceModel::from_bytes(&piece("a", -1.0, 1)).unwrap();
    assert_eq!(normalized(&m, "a a"), "\u{2581}a\u{2581}a");
    assert_eq!(encode(&m, "a"), tokens(&[(0, "\u{2581}"), (0, "a")]));
    let m = SentencePieceModel::from_bytes(&[]).unwrap();
    assert_eq!(encode(&m, "b"), tokens(&[(0, "\u{2581}"), (0, "b")]));
}

#[test]
fn files_one_after_the_other_add_up() {
    let mut s = plain(2);
    s.unk_id = 1;
    let mut data = model_bytes(&[("<unk>", 0.0, 2), ("a", -1.0, 1)], &s);
    // The second file has pieces alone, and the settings of the first stay.
    data.extend(piece("b", -1.0, 1));
    data.extend(piece("ab", -2.0, 1));
    let m = SentencePieceModel::from_bytes(&data).unwrap();
    assert_eq!(encode(&m, "abx"), tokens(&[(3, "ab"), (1, "x")]));
    // With settings of its own these count.
    data.extend(model_bytes(&[("c", -1.0, 1)], &plain(1)));
    let m = SentencePieceModel::from_bytes(&data).unwrap();
    assert_eq!(encode(&m, "cabx"), tokens(&[(4, "c"), (3, "ab"), (0, "x")]));
}

#[test]
fn malformed_models_are_refused() {
    let refused = |data: &[u8]| SentencePieceModel::from_bytes(data).err().unwrap();
    assert!(matches!(refused(&[0x80]), TtsError::EndOfVarint(_)));
    assert!(matches!(refused(&[0x80; 11]), TtsError::VarintTooLong(_)));
    assert!(matches!(refused(&[9 * 8 + 3]), TtsError::InvalidWireType(_)));
    assert!(matches!(refused(&[1 * 8 + 2, 5, 1]), TtsError::Overrun(_)));
    let bad_text = bytes_field(1, &bytes_field(1, &[0xFF, 0xFE]));
    assert!(matches!(refused(&bad_text), TtsError::FromUtf8(_)));
    // A score that breaks off is no score; what is there is read as fields.
    let broken_score = bytes_field(1, &[2 * 8 + 5, 0, 0]);
    assert!(SentencePieceModel::from_bytes(&broken_score).is_ok());
    let e = refused(&bad_text).message();
    assert!(e.starts_with("TtsError: invalid utf-8"));
}

#[test]
fn unknown_fields_are_skipped() {
    let mut data = number_field(7, 99);
    data.extend(bytes_field(8, b"whatever"));
    data.extend([9 * 8 + 5, 1, 2, 3, 4]);
    data.extend([10 * 8 + 1, 1, 2, 3, 4, 5, 6, 7, 8]);
    data.extend(model_bytes(&[("<unk>", 0.0, 2), ("a", -1.0, 1)], &plain(1)));
    let m = SentencePieceModel::from_bytes(&data).unwrap();
    assert_eq!(encode(&m, "a"), tokens(&[(1, "a")]));
}
