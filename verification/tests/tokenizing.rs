use moss_tts_nano::tokenizer::Tokenizer;

fn varint(mut n: u64) -> Vec<u8> {
    let mut out = Vec::new();
    while n >= 128 {
        out.push((n % 128) as u8 + 128);
        n /= 128;
    }
    out.push(n as u8);
    out
}

/// A tokenizer with one token for each character of the normalized text.
fn by_character() -> Tokenizer {
    let mut trainer = varint(3 * 8);
    trainer.push(1);
    let mut data = varint(2 * 8 + 2);
    data.extend(varint(trainer.len() as u64));
    data.extend(trainer);
    Tokenizer::from_bytes(&data).unwrap()
}

#[test]
fn ids_are_counted() {
    let t = by_character();
    // The prefix, three characters, and a mark for the space.
    assert_eq!(t.encode("ab c"), vec![0, 0, 0, 0, 0]);
    assert_eq!(t.count_tokens("ab c"), 5);
    assert_eq!(t.count_tokens(""), 1);
}

#[test]
fn text_is_made_ready_for_synthesis() {
    let t = by_character();
    assert_eq!(t.normalize_for_tts("  hello\tworld \r\n again  "), "hello world again.");
    assert_eq!(t.normalize_for_tts("hello!"), "hello!");
    assert_eq!(t.normalize_for_tts("\u{4f60}\u{597d}"), "\u{4f60}\u{597d}\u{3002}");
    assert_eq!(t.normalize_for_tts("\u{4f60}\u{ff1f}"), "\u{4f60}\u{ff1f}");
    assert_eq!(t.normalize_for_tts(" \n\t "), "");
    assert_eq!(t.normalize_for_tts("a\u{3000}"), "a.");
    assert_eq!(t.normalize_for_tts("(ok)"), "(ok)");
}

#[test]
fn readiness_is_stable() {
    let t = by_character();
    for text in ["hello  world", "\u{4f60} \u{597d}", "x\n\ny", "", "a,b;"] {
        let once = t.normalize_for_tts(text);
        assert_eq!(t.normalize_for_tts(&once), once);
    }
}

#[test]
fn scripts_are_told_apart() {
    assert!(Tokenizer::contains_cjk("abc\u{4e00}"));
    assert!(Tokenizer::contains_cjk("\u{3400}"));
    assert!(Tokenizer::contains_cjk("\u{30ff}"));
    assert!(Tokenizer::contains_cjk("\u{ac00}"));
    assert!(!Tokenizer::contains_cjk("abc \u{3002}"));
    assert!(!Tokenizer::contains_cjk(""));
}

fn split(text: &str, max: usize) -> Vec<String> {
    by_character().split_voice_clone_text(text, max)
}

#[test]
fn short_text_stays_whole() {
    assert_eq!(split("hello world.", 75), vec!["hello world."]);
    assert_eq!(split("  hello  ", 75), vec!["hello"]);
    assert_eq!(split("", 75), Vec::<String>::new());
    assert_eq!(split(" \n ", 75), Vec::<String>::new());
}

#[test]
fn long_text_is_cut_at_sentences() {
    assert_eq!(
        split("one two three. four five six! seven eight?", 20),
        vec!["One two three.", "four five six!", "seven eight?"]
    );
    // Sentences that go together within the budget stay together.
    assert_eq!(split("a b. c d. e f. g h.", 12), vec!["A b. c d.", "e f. g h."]);
}

#[test]
fn closing_marks_stay_with_their_sentence() {
    assert_eq!(
        split("he said \"go.\" then he left the house.", 16),
        vec!["He said \"go.\"", "then he left", "the house."]
    );
}

#[test]
fn long_sentences_are_cut_at_clauses() {
    assert_eq!(
        split("alpha beta, gamma delta, epsilon", 14),
        vec!["Alpha beta,", "gamma delta,", "epsilon."]
    );
}

#[test]
fn long_clauses_are_cut_by_budget() {
    assert_eq!(
        split("aaaa bbbb cccc dddd eeee ffff", 11),
        vec!["Aaaa bbbb", "cccc dddd", "eeee ffff."]
    );
    assert_eq!(split("abcdefghij", 5), vec!["Abcd", "efgh", "ij."]);
}

#[test]
fn chinese_text_is_joined_without_spaces() {
    let text = "\u{4f60}\u{597d}\u{3002}\u{518d}\u{89c1}\u{3002}\u{8c22}\u{8c22}";
    assert_eq!(
        split(text, 8),
        vec![
            "\u{4f60}\u{597d}\u{3002}\u{518d}\u{89c1}\u{3002}",
            "\u{8c22}\u{8c22}\u{3002}"
        ]
    );
}

/// A tokenizer with one token for each character, and no prefix.
fn without_prefix() -> Tokenizer {
    let mut data = varint(3 * 8 + 2);
    data.extend([2, 3 * 8, 0]);
    Tokenizer::from_bytes(&data).unwrap()
}

#[test]
fn the_space_between_sentences_counts() {
    let t = without_prefix();
    assert_eq!(t.count_tokens("abc. def."), 9);
    let text = "abc. def. \u{4f60}\u{597d}\u{3002}";
    assert_eq!(
        t.split_voice_clone_text(text, 8),
        vec!["abc.", "def.\u{4f60}\u{597d}\u{3002}"]
    );
    assert_eq!(
        t.split_voice_clone_text(text, 9),
        vec!["abc. def.", "\u{4f60}\u{597d}\u{3002}"]
    );
}

#[test]
fn a_text_over_budget_is_not_kept_whole() {
    // The prepared text has single spaces and is one chunk, the text itself is
    // over: it is cut, and nothing is added.
    let mut data = varint(3 * 8 + 2);
    data.extend([4, 3 * 8, 0, 4 * 8, 0]);
    let t = Tokenizer::from_bytes(&data).unwrap();
    let text = "ab      cd";
    assert!(t.count_tokens(text) > 10);
    assert_eq!(t.split_voice_clone_text(text, 10), vec!["ab", "cd"]);
    assert_eq!(t.split_voice_clone_text(text, 11), vec![text]);
    let plain = Tokenizer::from_bytes(&[0x1A, 6, 0x18, 0, 0x20, 0, 0x28, 0]).unwrap();
    assert_eq!(plain.split_voice_clone_text("a  !", 3), vec!["a", "!"]);
    assert_eq!(plain.split_voice_clone_text("a  !", 4), vec!["a  !"]);
}

#[test]
fn a_budget_of_nothing_counts_as_one_token() {
    // A single character has two tokens here, the prefix among them.
    let chunks = split("abc def", 0);
    assert_eq!(chunks, split("abc def", 1));
    assert_eq!(chunks, vec!["A", "b", "c", "d", "e", "f", "."]);
}

#[test]
fn nothing_is_lost_and_budgets_are_kept() {
    let t = by_character();
    let texts = [
        "The quick brown fox jumps, over the lazy dog; and then \"it sleeps.\" All day long!",
        "one two three four five six seven eight nine ten eleven twelve",
        "\u{4eca}\u{5929}\u{5929}\u{6c14}\u{4e0d}\u{9519}\u{ff0c}\u{9002}\u{5408}\u{51fa}\u{53bb}",
    ];
    for text in texts {
        for max in 4..40 {
            let chunks = t.split_voice_clone_text(text, max);
            if chunks.len() > 1 {
                for c in &chunks {
                    assert!(t.count_tokens(c) <= max, "{c} {max}");
                    assert_eq!(c.trim(), c);
                }
            }
            let solid = |s: &str| -> String {
                s.chars().filter(|c| !c.is_whitespace()).collect::<String>().to_lowercase()
            };
            let all: String = chunks.iter().map(|c| solid(c)).collect();
            assert!(all.starts_with(&solid(text)), "{text} {max}");
        }
    }
}

#[test]
fn letters_of_any_script_get_a_full_stop() {
    // The last character decides, by its Unicode properties.
    assert_eq!(split("\u{e9}a. \u{e9}", 4), vec!["\u{e9}a.", "\u{e9}."]);
    assert_eq!(split("\u{e9}a. \u{2014}", 4), vec!["\u{e9}a.", "\u{2014}"]);
}
