//! Edge cases of the library, and its laws on concrete values.
use whitelist_tokenizer_rs::cli::{find_flag, has_flag};
use whitelist_tokenizer_rs::commands::count_bytes;
use whitelist_tokenizer_rs::counting::count_id;
use whitelist_tokenizer_rs::frames::{read_frames, write_frame};
use whitelist_tokenizer_rs::splitter::Splitter;
use whitelist_tokenizer_rs::text::{
    is_ascii_alphabetic, is_whitespace, normalize, split_lines, trim,
};
use whitelist_tokenizer_rs::vocab::{accept_line, accept_lowered};
use whitelist_tokenizer_rs::{
    pretokenize, StreamItem, WhitelistTokenizer, CONTRACTION_SUFFIXES, PUNCT_TOKENS,
    SPECIAL_TOKENS, WHOLE_CONTRACTIONS,
};

const WORDS: [&str; 8] = ["dog", "cat", "fox", "he", "said", "hello", "i", "known"];

fn tok() -> WhitelistTokenizer {
    WhitelistTokenizer::from_lines(&WORDS).unwrap()
}

fn id(tok: &WhitelistTokenizer, token: &str) -> u32 {
    *tok.word_ids.get(token).unwrap()
}

fn word(s: &str) -> StreamItem {
    StreamItem::Word(s.to_string())
}

fn fixed(s: &str) -> StreamItem {
    StreamItem::Fixed(s.to_string())
}

fn strings(list: &[&str]) -> Vec<String> {
    list.iter().map(|s| s.to_string()).collect()
}

fn round(tok: &WhitelistTokenizer, text: &str) -> String {
    tok.decode(&tok.encode(text, false))
}

// ---------------------------------------------------------------------------
// Characters and lines
// ---------------------------------------------------------------------------

#[test]
fn white_space_is_that_of_unicode() {
    for n in 0..=0x10ffffu32 {
        if let Some(c) = char::from_u32(n) {
            assert_eq!(is_whitespace(c), c.is_whitespace(), "U+{n:04X}");
            assert_eq!(is_ascii_alphabetic(c), c.is_ascii_alphabetic(), "U+{n:04X}");
        }
    }
}

#[test]
fn trim_is_that_of_the_standard_library() {
    for s in ["", " ", "a", " a", "a ", "\u{2003}a b\u{a0}", "\t\n a\r\n", "\u{200b}a"] {
        assert_eq!(trim(s), s.trim(), "{s:?}");
    }
}

#[test]
fn split_lines_is_that_of_the_standard_library() {
    for s in [
        "", "\n", "\r\n", "\r", "a", "a\n", "a\r\n", "a\r", "a\nb", "a\n\nb", "a\r\nb\r\n\r\n",
        "a\rb\n", "\n\na", "a\r\r\n", "a\n\r",
    ] {
        let expected: Vec<&str> = s.lines().collect();
        assert_eq!(split_lines(s), expected, "{s:?}");
    }
}

#[test]
fn lowercase_is_that_of_unicode() {
    // U+212A, the Kelvin sign, has an ASCII lowercase; U+0130 has not.
    assert_eq!(accept_line("\u{212a}ING"), Some("king".to_string()));
    assert_eq!(accept_line("\u{130}S"), None);
    let splitter = Splitter::new();
    assert_eq!(splitter.classify_core("\u{212a}"), [StreamItem::Unk]);
    assert_eq!(splitter.classify_core("DON'T"), [word("don't")]);
}

#[test]
fn only_the_kelvin_sign_has_an_ascii_lowercase() {
    for n in 0x80..=0x10ffffu32 {
        if let Some(c) = char::from_u32(n) {
            let expected = if c == '\u{212a}' {
                Some("kab".to_string())
            } else if c.is_whitespace() {
                Some("ab".to_string())
            } else {
                None
            };
            assert_eq!(accept_line(&format!("{c}aB")), expected, "U+{n:04X}");
        }
    }
}

#[test]
fn normalize_folds_quotation_marks() {
    assert_eq!(normalize("\u{2018}a\u{2019}\u{2bc}`"), "'a'''");
    assert_eq!(normalize("\u{201c}a\u{201d}"), "\"a\"");
    assert_eq!(normalize("\u{201a}\u{2032}ä"), "\u{201a}\u{2032}ä");
}

// ---------------------------------------------------------------------------
// Splitting
// ---------------------------------------------------------------------------

#[test]
fn strip_suffix_finds_the_suffix_at_the_end_only() {
    let splitter = Splitter::new();
    assert_eq!(splitter.strip_suffix("dog's"), Some(("dog", "'s")));
    assert_eq!(splitter.strip_suffix("DOG'S"), Some(("DOG", "'S")));
    assert_eq!(splitter.strip_suffix("dog'\u{17f}"), None);
    assert_eq!(splitter.strip_suffix("'s"), Some(("", "'s")));
    assert_eq!(splitter.strip_suffix("ö's's"), Some(("ö's", "'s")));
    assert_eq!(splitter.strip_suffix("dog's,"), None);
    assert_eq!(splitter.strip_suffix("dog's\n"), None);
    assert_eq!(splitter.strip_suffix("dogs"), None);
    assert_eq!(splitter.strip_suffix("s"), None);
    assert_eq!(splitter.strip_suffix(""), None);
}

#[test]
fn split_dashes_keeps_empty_parts() {
    let splitter = Splitter::new();
    assert_eq!(splitter.split_dashes("well-known"), ["well", "known"]);
    assert_eq!(splitter.split_dashes("-a\u{2013}\u{2014}b-"), ["", "a", "", "b", ""]);
    assert_eq!(splitter.split_dashes("ab"), ["ab"]);
    assert_eq!(splitter.split_dashes(""), [""]);
    assert_eq!(splitter.split_dashes("a\u{2012}b"), ["a\u{2012}b"]);
}

#[test]
fn contractions_are_recognised_in_lowercase() {
    let splitter = Splitter::new();
    assert!(splitter.is_contraction("don't"));
    assert!(!splitter.is_contraction("DON'T"));
    assert!(!splitter.is_contraction("dog's"));
    assert!(!splitter.is_contraction(""));
}

#[test]
fn classify_core_follows_its_rules_in_order() {
    let splitter = Splitter::new();
    assert_eq!(splitter.classify_core("Don't"), [word("don't")]);
    assert_eq!(splitter.classify_core("Dog'S"), [word("dog"), fixed("'s")]);
    assert_eq!(
        splitter.classify_core("a,b's"),
        [word("a"), fixed(","), word("b"), fixed("'s")]
    );
    assert_eq!(
        splitter.classify_core("don't,you"),
        [word("don't"), fixed(","), word("you")]
    );
    assert_eq!(splitter.classify_core("a--b"), [word("a"), StreamItem::Unk, StreamItem::Unk, word("b")]);
    assert_eq!(splitter.classify_core("x-he's"), [word("x"), StreamItem::Unk, word("he"), fixed("'s")]);
    assert_eq!(splitter.classify_core("rock'n'roll"), [StreamItem::Unk]);
    assert_eq!(splitter.classify_core("a1"), [StreamItem::Unk]);
    assert_eq!(splitter.classify_core("dog'\u{17f}"), [StreamItem::Unk]);
    assert_eq!(
        splitter.classify_core("a,b'\u{17f}"),
        [word("a"), fixed(","), StreamItem::Unk]
    );
    assert_eq!(splitter.classify_core("d0g's"), [StreamItem::Unk, fixed("'s")]);
}

#[test]
fn classify_lowered_uses_the_lowercase_it_is_given() {
    let splitter = Splitter::new();
    assert_eq!(splitter.classify_lowered("abc", "xyz".to_string()), [word("xyz")]);
    assert_eq!(splitter.classify_lowered("a1", "don't".to_string()), [word("don't")]);
    assert_eq!(splitter.classify_lowered("a1", "a1".to_string()), [StreamItem::Unk]);
}

#[test]
fn split_surface_peels_punctuation() {
    let splitter = Splitter::new();
    assert_eq!(
        splitter.split_surface("(\"Dog!\")"),
        [fixed("("), fixed("\""), word("dog"), fixed("!"), fixed("\""), fixed(")")]
    );
    assert_eq!(splitter.split_surface("..."), [fixed("."), fixed("."), fixed(".")]);
    assert_eq!(splitter.split_surface("'s"), [fixed("'"), word("s")]);
    assert_eq!(splitter.split_surface(""), []);
}

// ---------------------------------------------------------------------------
// The stream
// ---------------------------------------------------------------------------

#[test]
fn white_space_separates_and_is_explicit() {
    assert_eq!(
        pretokenize("dog \t\u{2003}\r\ncat"),
        [
            word("dog"),
            StreamItem::Sp,
            StreamItem::Sp,
            StreamItem::Sp,
            StreamItem::Sp,
            StreamItem::Nl,
            word("cat")
        ]
    );
    assert_eq!(pretokenize(""), []);
}

#[test]
fn plain_form_has_the_same_stream() {
    assert_eq!(
        pretokenize("\u{201c}It\u{2019}s\u{201d}\tDOG"),
        pretokenize("\"it's\" dog")
    );
    assert_eq!(pretokenize("WöRLD\u{a0}Äb-CD"), pretokenize("wörld ÄB-cd"));
}

#[test]
fn stream_spells_the_text() {
    let text: String = pretokenize("He\tsaid, \u{201c}Dog\u{2019}S\u{201d}\n(I don't)x")
        .into_iter()
        .map(|item| match item {
            StreamItem::Word(s) | StreamItem::Fixed(s) => s,
            StreamItem::Sp => " ".to_string(),
            StreamItem::Nl => "\n".to_string(),
            StreamItem::Unk => panic!("unknown"),
        })
        .collect();
    assert_eq!(text, "he said, \"dog's\"\n(i don't)x");
}

#[test]
fn other_runs_are_unknown() {
    for run in ["42", "wörld", "🎉", "d0g", "ΑΣ", "naïve"] {
        assert_eq!(pretokenize(run), [StreamItem::Unk]);
    }
}

#[test]
fn streams_of_words_contractions_and_possessives() {
    assert_eq!(pretokenize("Dog"), [word("dog")]);
    assert_eq!(pretokenize("DON'T"), [word("don't")]);
    assert_eq!(pretokenize("Dog's"), [word("dog"), fixed("'s")]);
}

// ---------------------------------------------------------------------------
// The vocabulary
// ---------------------------------------------------------------------------

#[test]
fn lines_of_a_word_list() {
    assert_eq!(accept_line("  Dog \r"), Some("dog".to_string()));
    assert_eq!(accept_line("# dog"), None);
    assert_eq!(accept_line("   "), None);
    assert_eq!(accept_line(""), None);
    assert_eq!(accept_line("two words"), None);
    assert_eq!(accept_line("don't"), None);
    assert_eq!(accept_line("wörld"), None);
    assert_eq!(accept_line("\u{212a}"), Some("k".to_string()));
    assert_eq!(accept_lowered("dog".to_string()), Some("dog".to_string()));
    assert_eq!(accept_lowered("d0g".to_string()), None);
}

#[test]
fn ids_follow_the_order_of_the_vocabulary() {
    let tok = WhitelistTokenizer::from_word_list("# words\r\nzebra\n\nApple\nzebra\n don't \nbad1\npear")
        .unwrap();
    let mut expected: Vec<&str> = PUNCT_TOKENS.to_vec();
    expected.extend([" ", "\n"]);
    expected.extend(CONTRACTION_SUFFIXES);
    assert_eq!(tok.n_fixed as usize, expected.len());
    expected.extend(WHOLE_CONTRACTIONS);
    expected.extend(["zebra", "apple", "pear"]);
    let first_special = expected.len();
    expected.extend(SPECIAL_TOKENS);
    assert_eq!(tok.vocab_size(), expected.len());
    for (i, token) in expected.iter().enumerate() {
        assert_eq!(tok.id_to_token(i as u32), Some(*token));
        assert_eq!(tok.word_ids.get(*token), Some(&(i as u32)));
    }
    for (i, name) in SPECIAL_TOKENS.iter().enumerate() {
        assert_eq!(tok.special_id(name), Some((first_special + i) as u32));
    }
    assert_eq!(tok.special_id("zebra"), None);
    assert_eq!(tok.id_to_token(expected.len() as u32), None);
    assert_eq!(tok.bos_id() as usize, first_special);
    assert_eq!(tok.unk_id() as usize, first_special + 1);
    assert_eq!(tok.mask_id() as usize, first_special + 2);
    assert_eq!(tok.space_id(), 8);
    assert_eq!(tok.newline_id(), 9);
}

#[test]
fn constructors_agree() {
    let a = tok();
    let b = WhitelistTokenizer::from_word_list(&WORDS.join("\n")).unwrap();
    let c = WhitelistTokenizer::from_allowed_words(WORDS.iter().copied()).unwrap();
    assert_eq!(a.id_to_word, b.id_to_word);
    assert_eq!(a.id_to_word, c.id_to_word);
    assert_eq!(a.encode("he said, hello  fox", true), b.encode("he said, hello  fox", true));
}

#[test]
fn added_lines_keep_ids() {
    let a = WhitelistTokenizer::from_lines(&["dog", "cat"]).unwrap();
    let b = WhitelistTokenizer::from_lines(&["dog", "cat", "fox"]).unwrap();
    let n = a.vocab_size() - SPECIAL_TOKENS.len();
    assert_eq!(a.id_to_word[..n], b.id_to_word[..n]);
    assert_eq!(id(&b, "fox") as usize, n);
}

#[test]
fn ignored_and_repeated_lines_change_nothing() {
    let a = WhitelistTokenizer::from_lines(&["dog", "cat"]).unwrap();
    let b = WhitelistTokenizer::from_lines(&["dog", "#x", "", "d1", " DOG ", "cat", "dog"]).unwrap();
    assert_eq!(a.id_to_word, b.id_to_word);
}

// ---------------------------------------------------------------------------
// Encoding and decoding
// ---------------------------------------------------------------------------

#[test]
fn text_gives_no_special_token_but_unknown() {
    let tok = tok();
    assert_eq!(tok.encode("<|bos|>", false), [tok.unk_id]);
    assert_eq!(tok.encode("<|mask|> <|unk|>", false), [tok.unk_id, tok.unk_id]);
}

#[test]
fn beginning_of_text_is_put_first() {
    let tok = tok();
    let plain = tok.encode("dog cat", false);
    let mut expected = vec![tok.bos_id];
    expected.extend(&plain);
    assert_eq!(tok.encode("dog cat", true), expected);
    assert_eq!(tok.encode("", true), [tok.bos_id]);
    assert_eq!(tok.encode("", false), []);
}

#[test]
fn spaces_between_words_and_around_punctuation() {
    let tok = tok();
    let (dog, cat, sp) = (id(&tok, "dog"), id(&tok, "cat"), tok.space_id);
    assert_eq!(tok.encode("dog cat", false), [dog, cat]);
    assert_eq!(tok.encode("dog   cat", false), [dog, sp, sp, cat]);
    assert_eq!(tok.encode("dog , cat", false), [dog, sp, id(&tok, ","), sp, cat]);
    assert_eq!(tok.encode("dog ) cat", false), [dog, sp, id(&tok, ")"), sp, cat]);
    assert_eq!(tok.encode("dog )  cat", false), [dog, sp, id(&tok, ")"), sp, sp, cat]);
    assert_eq!(tok.encode(") dog", false), [7, 8, dog]);
    assert_eq!(tok.encode("dog's cat", false), [dog, id(&tok, "'s"), cat]);
    assert_eq!(tok.encode("don't  dog", false), [id(&tok, "don't"), sp, dog]);
    assert_eq!(tok.encode(" dog ", false), [sp, dog, sp]);
}

#[test]
fn unlisted_words_are_unknown() {
    let tok = tok();
    assert_eq!(tok.encode("Zebra", false), [tok.unk_id]);
    assert_eq!(tok.encode("FOX", false), [id(&tok, "fox")]);
    assert_eq!(round(&tok, "dog zebra cat"), "dog <|unk|> cat");
}

#[test]
fn lines_are_independent() {
    let tok = tok();
    let (a, b) = ("dog  cat ", " he said, \"hello\"");
    let mut ids = tok.encode(a, false);
    ids.push(tok.newline_id);
    ids.extend(tok.encode(b, false));
    let text = format!("{a}\n{b}");
    assert_eq!(tok.encode(&text, false), ids);
    assert_eq!(tok.decode(&ids), text);
    assert_eq!(count_id(&tok.encode("\n a\n\nb", false), tok.newline_id), 3);
}

#[test]
fn ids_without_a_token_are_skipped() {
    let tok = tok();
    let (dog, cat, n) = (id(&tok, "dog"), id(&tok, "cat"), tok.vocab_size() as u32);
    assert_eq!(tok.decode(&[dog, n, u32::MAX, cat]), "dog cat");
    assert_eq!(tok.decode(&[n]), "");
}

#[test]
fn one_id_decodes_to_its_token() {
    let tok = tok();
    for i in 0..tok.vocab_size() as u32 {
        assert_eq!(Some(tok.decode(&[i]).as_str()), tok.id_to_token(i));
    }
}

#[test]
fn texts_of_known_words_come_back() {
    let tok = tok();
    for text in [
        "", " ", "\n", "dog", "dog cat", "  dog   cat  ", "he said, \"hello (fox)\".\n\nhe's i don't",
        "dog's cat", "(dog) cat", "dog,cat", "'dog'", "... ?!", "dog's's", "i'll (dog's)",
        "(dog)cat", "(dog)  cat", ") dog",
    ] {
        assert_eq!(round(&tok, text), text);
    }
}

#[test]
fn plain_form_comes_back() {
    let tok = tok();
    assert_eq!(round(&tok, "HE\tSaid\u{a0}\u{201c}Hello\u{201d} Dog\u{2019}S"), "he said \"hello\" dog's");
}

#[test]
fn unknowns_are_replaced_one_for_one() {
    let tok = tok();
    assert_eq!(round(&tok, "dog-cat"), "dog <|unk|> cat");
    assert_eq!(tok.check_text("wörld 42 🎉, zebra-dog").n_unk, 5);
}

#[test]
fn suffix_with_the_long_s_is_unknown() {
    let tok = tok();
    assert_eq!(tok.encode("dog'\u{17f} cat", false), [tok.unk_id, id(&tok, "cat")]);
}

#[test]
fn batches_are_encoded_in_order() {
    let tok = tok();
    let texts: Vec<String> = (0..200).map(|n| "dog ".repeat(n)).collect();
    let refs: Vec<&str> = texts.iter().map(|s| s.as_str()).collect();
    let batch = tok.encode_batch(&refs, true);
    assert_eq!(batch.len(), refs.len());
    for (text, ids) in refs.iter().zip(&batch) {
        assert_eq!(*ids, tok.encode(text, true));
    }
}

// ---------------------------------------------------------------------------
// Commands
// ---------------------------------------------------------------------------

#[test]
fn frames_are_little_endian() {
    assert_eq!(write_frame(&[1, 0x01020304]), [2, 0, 0, 0, 1, 0, 0, 0, 4, 3, 2, 1]);
    assert_eq!(write_frame(&[]), [0, 0, 0, 0]);
}

#[test]
fn frames_come_back() {
    let mut data = write_frame(&[5, u32::MAX]);
    data.extend(write_frame(&[]));
    data.extend(write_frame(&[256]));
    assert_eq!(read_frames(&data), (vec![vec![5, u32::MAX], vec![], vec![256]], true));
    assert_eq!(read_frames(&[]), (vec![], true));
}

#[test]
fn frames_that_are_cut_off() {
    let mut data = write_frame(&[7]);
    data.extend([1, 0, 0]);
    assert_eq!(read_frames(&data), (vec![vec![7]], true));
    data.push(0);
    assert_eq!(read_frames(&data), (vec![vec![7]], false));
    data.extend([1, 2, 3]);
    assert_eq!(read_frames(&data), (vec![vec![7]], false));
    assert_eq!(read_frames(&[255, 255, 255, 255, 0]), (vec![], false));
}

#[test]
fn commands_frame_and_unframe_lines() {
    let tok = tok();
    let mut data = tok.encode_frame("dog cat", false);
    data.extend(tok.encode_frame("he said", true));
    assert_eq!(
        tok.decode_frames(&data),
        (strings(&["dog cat", "<|bos|> he said"]), true)
    );
    assert_eq!(tok.decode_frames(&data[..data.len() - 1]), (strings(&["dog cat"]), false));
}

#[test]
fn check_text_reports_unknowns() {
    let tok = tok();
    let report = tok.check_text("Dog 42 zebra");
    assert_eq!(report.tokens, [id(&tok, "dog"), tok.unk_id, tok.unk_id]);
    assert_eq!(report.n_unk, 2);
    assert_eq!(report.decoded, "dog <|unk|> <|unk|>");
}

#[test]
fn totals_add_up() {
    let tok = tok();
    let lines = strings(&["dog cat", "", "ä"]);
    assert_eq!(count_bytes(&lines), 9);
    assert_eq!(tok.count_tokens(&lines), 3);
    assert_eq!(count_bytes(&[]), 0);
    assert_eq!(tok.count_tokens(&[]), 0);
}

#[test]
fn flags_and_their_values() {
    let args = strings(&["--input", "a", "--bos", "--input", "b", "--output"]);
    assert_eq!(find_flag(&args, "--input"), Some("a"));
    assert_eq!(find_flag(&args, "--bos"), Some("--input"));
    assert_eq!(find_flag(&args, "--output"), None);
    assert_eq!(find_flag(&args, "--none"), None);
    assert_eq!(find_flag(&[], "--input"), None);
    assert!(has_flag(&args, "--output"));
    assert!(has_flag(&args, "--bos"));
    assert!(!has_flag(&args, "-bos"));
}
