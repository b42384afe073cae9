use whitelist_tokenizer_rs::{
    pretokenize, StreamItem, WhitelistTokenizer, CONTRACTION_SUFFIXES, NEWLINE_TOKEN, PUNCT_TOKENS,
    SPACE_TOKEN, SPECIAL_TOKENS, WHOLE_CONTRACTIONS,
};

fn tok() -> WhitelistTokenizer {
    WhitelistTokenizer::from_allowed_words(
        "left right well known really he said dog cat fox hello world toy know let i you do".split_whitespace()
    ).unwrap()
}

fn id(tok: &WhitelistTokenizer, token: &str) -> u32 {
    *tok.word_ids.get(token).unwrap()
}

fn roundtrip(tok: &WhitelistTokenizer, input: &str) -> String {
    tok.decode(&tok.encode(input, false))
}

// --- vocab layout ------------------------------------------------------

#[test]
fn test_fixed_tokens_have_ids_below_n_fixed() {
    let tok = tok();
    for &s in PUNCT_TOKENS.iter().chain(&[SPACE_TOKEN, NEWLINE_TOKEN]).chain(&CONTRACTION_SUFFIXES) {
        let id = id(&tok, s);
        assert!(id < tok.n_fixed, "fixed token {s:?} should have id < n_fixed");
    }
}

#[test]
fn test_whole_contractions_have_ids_above_n_fixed() {
    let tok = tok();
    for s in WHOLE_CONTRACTIONS {
        let id = id(&tok, s);
        assert!(id >= tok.n_fixed, "contraction {s:?} should have id >= n_fixed");
    }
}

#[test]
fn test_special_tokens_have_ids_above_n_fixed() {
    let tok = tok();
    for s in SPECIAL_TOKENS {
        let id = id(&tok, s);
        assert!(id >= tok.n_fixed, "special token {s:?} should have id >= n_fixed");
    }
}

#[test]
fn test_vocab_is_deterministic() {
    let tok1 = tok();
    let tok2 = tok();
    // Both maps hold exactly the tokens of the list, under the same ids.
    assert_eq!(tok1.id_to_word, tok2.id_to_word);
    assert_eq!(tok1.word_ids.len(), tok1.id_to_word.len());
    assert_eq!(tok2.word_ids.len(), tok1.id_to_word.len());
    for token in &tok1.id_to_word {
        assert!(tok1.word_ids.contains_key(token));
        assert_eq!(tok1.word_ids.get(token), tok2.word_ids.get(token));
    }
}

// --- encode/decode round-trips -----------------------------------------

#[test]
fn test_plain_words_roundtrip() {
    let tok = tok();
    assert_eq!(roundtrip(&tok, "dog cat fox"), "dog cat fox");
}

#[test]
fn test_double_space_roundtrip() {
    let tok = tok();
    assert_eq!(roundtrip(&tok, "dog  cat"), "dog  cat");
}

#[test]
fn test_triple_space_roundtrip() {
    let tok = tok();
    assert_eq!(roundtrip(&tok, "dog   cat"), "dog   cat");
}

#[test]
fn test_many_spaces_roundtrip() {
    let tok = tok();
    assert_eq!(roundtrip(&tok, "dog     cat"), "dog     cat");
}

#[test]
fn test_newline_roundtrip() {
    let tok = tok();
    assert_eq!(roundtrip(&tok, "dog\ncat"), "dog\ncat");
}

#[test]
fn test_multiple_newlines_not_collapsed() {
    let tok = tok();
    assert_eq!(roundtrip(&tok, "dog\n\n\ncat"), "dog\n\n\ncat");
}

#[test]
fn test_inter_newline_spaces_roundtrip() {
    let tok = tok();
    assert_eq!(roundtrip(&tok, "dog\n  \ncat"), "dog\n  \ncat");
}

#[test]
fn test_trailing_punct_roundtrip() {
    let tok = tok();
    assert_eq!(roundtrip(&tok, "dog, cat."), "dog, cat.");
}

#[test]
fn test_space_padded_comma_roundtrip() {
    let tok = tok();
    assert_eq!(roundtrip(&tok, "dog , cat"), "dog , cat");
}

#[test]
fn test_multi_space_padded_comma_roundtrip() {
    let tok = tok();
    assert_eq!(roundtrip(&tok, "dog  ,  cat"), "dog  ,  cat");
}

#[test]
fn test_no_space_comma_roundtrip() {
    let tok = tok();
    assert_eq!(roundtrip(&tok, "dog,cat"), "dog,cat");
}

#[test]
fn test_possessive_roundtrip() {
    let tok = tok();
    assert_eq!(roundtrip(&tok, "dog's toy"), "dog's toy");
}

#[test]
fn test_whole_contraction_roundtrip() {
    let tok = tok();
    assert_eq!(roundtrip(&tok, "i don't know"), "i don't know");
}

#[test]
fn test_all_whole_contractions_roundtrip() {
    let tok = tok();
    for c in WHOLE_CONTRACTIONS {
        assert_eq!(roundtrip(&tok, c), c, "contraction {c:?} failed to round-trip");
    }
}

#[test]
fn test_contraction_spacing_roundtrip() {
    let tok = tok();
    assert_eq!(roundtrip(&tok, "i don't know"), "i don't know");
    assert_eq!(roundtrip(&tok, "i  don't  know"), "i  don't  know");
}

#[test]
fn test_unk_roundtrip_produces_unk_token() {
    let tok = tok();
    let ids = tok.encode("hello 42 world", false);
    assert!(ids.contains(&tok.unk_id));
}

#[test]
fn test_unknown_word_becomes_unk() {
    let tok = tok();
    let ids = tok.encode("xylophone", false);
    assert!(ids.contains(&tok.unk_id));
}

#[test]
fn test_bos_prepended_when_requested() {
    let tok = tok();
    assert_eq!(tok.encode("dog", true)[0], tok.bos_id);
}

#[test]
fn test_bos_not_prepended_by_default() {
    let tok = tok();
    assert_ne!(tok.encode("dog", false)[0], tok.bos_id);
}

#[test]
fn test_curly_apostrophe_roundtrip() {
    let tok = tok();
    assert_eq!(roundtrip(&tok, "dog\u{2019}s toy"), "dog's toy");
}

#[test]
fn test_special_token_ids_accessible() {
    let tok = tok();
    for name in SPECIAL_TOKENS {
        assert!(tok.special_id(name).is_some());
    }
}

#[test]
fn test_id_to_token_roundtrip() {
    let tok = tok();
    for (id, surface) in tok.id_to_word.iter().enumerate() {
        assert_eq!(tok.id_to_token(id as u32), Some(surface.as_str()));
    }
}

#[test]
fn test_encode_batch_matches_sequential() {
    let tok = tok();
    let texts = vec!["dog cat", "hello world", "dog  cat", "i don't know"];
    let batch = tok.encode_batch(&texts, false);
    for (text, ids) in texts.iter().zip(batch.iter()) {
        assert_eq!(ids, &tok.encode(text, false));
    }
}

// --- explicit token-sequence checks ------------------------------------

#[test]
fn test_single_space_produces_no_explicit_space_token() {
    let tok = tok();
    let ids = tok.encode("dog cat", false);
    assert!(!ids.contains(&tok.space_id));
    assert_eq!(ids.len(), 2);
}

#[test]
fn test_double_space_produces_one_explicit_space_token() {
    let tok = tok();
    let ids = tok.encode("dog  cat", false);
    assert_eq!(ids.iter().filter(|&&id| id == tok.space_id).count(), 1,
        "two spaces should produce exactly one explicit SPACE token");
}

#[test]
fn test_triple_space_produces_two_explicit_space_tokens() {
    let tok = tok();
    let ids = tok.encode("dog   cat", false);
    assert_eq!(ids.iter().filter(|&&id| id == tok.space_id).count(), 2);
}

#[test]
fn test_n_spaces_produces_n_minus_one_explicit_space_tokens() {
    let tok = tok();
    for n in 1u32..=6 {
        let input = format!("dog{}cat", " ".repeat(n as usize));
        let ids = tok.encode(&input, false);
        let explicit = ids.iter().filter(|&&id| id == tok.space_id).count() as u32;
        assert_eq!(explicit, n.saturating_sub(1),
            "{n} spaces should produce {} explicit SPACE tokens", n.saturating_sub(1));
    }
}

#[test]
fn test_contraction_single_space_produces_no_explicit_space_token() {
    let tok = tok();
    let ids = tok.encode("i don't know", false);
    assert!(!ids.contains(&tok.space_id));
    assert_eq!(ids.len(), 3);
}

#[test]
fn test_contraction_double_space_produces_explicit_space_tokens() {
    let tok = tok();
    let ids = tok.encode("i  don't  know", false);
    assert_eq!(ids.iter().filter(|&&id| id == tok.space_id).count(), 2,
        "two double-spaces around contraction should produce 2 explicit SPACE tokens");
}

#[test]
fn test_newline_produces_newline_token() {
    let tok = tok();
    let ids = tok.encode("dog\ncat", false);
    assert!(ids.contains(&tok.newline_id));
    assert!(!ids.contains(&tok.space_id));
}

#[test]
fn test_three_newlines_produce_three_newline_tokens() {
    let tok = tok();
    let ids = tok.encode("dog\n\n\ncat", false);
    assert_eq!(ids.iter().filter(|&&id| id == tok.newline_id).count(), 3);
}

#[test]
fn test_inter_newline_spaces_produce_space_tokens() {
    let tok = tok();
    let ids = tok.encode("dog\n  \ncat", false);
    assert_eq!(ids.iter().filter(|&&id| id == tok.newline_id).count(), 2);
    assert_eq!(ids.iter().filter(|&&id| id == tok.space_id).count(), 2);
}

#[test]
fn test_space_padded_comma_token_sequence() {
    let tok = tok();
    let dog_id   = id(&tok, "dog");
    let comma_id = id(&tok, ",");
    let cat_id   = id(&tok, "cat");
    let sp       = tok.space_id;
    let ids = tok.encode("dog , cat", false);
    assert_eq!(ids, vec![dog_id, sp, comma_id, sp, cat_id]);
}

#[test]
fn test_no_space_comma_token_sequence() {
    let tok = tok();
    let ids = tok.encode("dog,cat", false);
    assert!(!ids.contains(&tok.space_id));
    assert_eq!(ids.len(), 3);
}

#[test]
fn test_possessive_token_sequence() {
    let tok = tok();
    let ids = tok.encode("dog's toy", false);
    assert_eq!(ids, vec![id(&tok, "dog"), id(&tok, "'s"), id(&tok, "toy")]);
}

#[test]
fn test_contraction_token_sequence() {
    let tok = tok();
    let ids = tok.encode("i don't know", false);
    assert_eq!(ids, vec![id(&tok, "i"), id(&tok, "don't"), id(&tok, "know")]);
}

// --- contraction spacing -----------------------------------------------

#[test]
fn test_contraction_single_space_roundtrip() {
    let tok = tok();
    assert_eq!(roundtrip(&tok, "i don't know"), "i don't know");
}

#[test]
fn test_contraction_double_space_not_collapsed() {
    let tok = tok();
    assert_eq!(roundtrip(&tok, "i  don't  know"), "i  don't  know");
}

#[test]
fn test_contraction_triple_space_not_collapsed() {
    let tok = tok();
    assert_eq!(roundtrip(&tok, "i   don't   know"), "i   don't   know");
}

#[test]
fn test_contraction_many_spaces_not_collapsed() {
    let tok = tok();
    assert_eq!(roundtrip(&tok, "i     don't     know"), "i     don't     know");
}

#[test]
fn test_contraction_newline_roundtrip() {
    let tok = tok();
    assert_eq!(roundtrip(&tok, "i\ndon't\nknow"), "i\ndon't\nknow");
}

#[test]
fn test_contraction_multiple_newlines_not_collapsed() {
    let tok = tok();
    assert_eq!(roundtrip(&tok, "i\n\n\ndon't"), "i\n\n\ndon't");
}

#[test]
fn test_contraction_inter_newline_spaces_roundtrip() {
    let tok = tok();
    assert_eq!(roundtrip(&tok, "i\n  \ndon't"), "i\n  \ndon't");
}

#[test]
fn test_contraction_trailing_punct_roundtrip() {
    let tok = tok();
    assert_eq!(roundtrip(&tok, "i don't, you know."), "i don't, you know.");
}

#[test]
fn test_contraction_space_padded_comma_roundtrip() {
    let tok = tok();
    assert_eq!(roundtrip(&tok, "i don't , you know"), "i don't , you know");
}

#[test]
fn test_contraction_multi_space_padded_comma_roundtrip() {
    let tok = tok();
    assert_eq!(roundtrip(&tok, "i don't  ,  you know"), "i don't  ,  you know");
}

#[test]
fn test_contraction_no_space_comma_roundtrip() {
    let tok = tok();
    assert_eq!(roundtrip(&tok, "i don't,you know"), "i don't,you know");
}

#[test]
fn test_all_contractions_single_space_roundtrip() {
    let tok = tok();
    for c in WHOLE_CONTRACTIONS {
        let input = format!("i {c} know");
        assert_eq!(roundtrip(&tok, &input), input, "contraction {c:?} failed single-space round-trip");
    }
}

#[test]
fn test_all_contractions_double_space_roundtrip() {
    let tok = tok();
    for c in WHOLE_CONTRACTIONS {
        let input = format!("i  {c}  know");
        assert_eq!(roundtrip(&tok, &input), input, "contraction {c:?} failed double-space round-trip");
    }
}

// --- mixed spacing and newlines ----------------------------------------

#[test]
fn test_spaces_then_newline_then_spaces_roundtrip() {
    let tok = tok();
    assert_eq!(roundtrip(&tok, "dog  \n  cat"), "dog  \n  cat");
}

#[test]
fn test_word_newline_word_newline_word_roundtrip() {
    let tok = tok();
    assert_eq!(roundtrip(&tok, "dog\ncat\nfox"), "dog\ncat\nfox");
}

#[test]
fn test_blank_line_between_words_roundtrip() {
    let tok = tok();
    assert_eq!(roundtrip(&tok, "dog\n\ncat"), "dog\n\ncat");
}

#[test]
fn test_many_blank_lines_not_collapsed() {
    let tok = tok();
    assert_eq!(roundtrip(&tok, "dog\n\n\n\n\ncat"), "dog\n\n\n\n\ncat");
}

#[test]
fn test_spaces_and_newlines_mixed_roundtrip() {
    let tok = tok();
    assert_eq!(roundtrip(&tok, "dog  cat\n\nfox   hello\nworld"), "dog  cat\n\nfox   hello\nworld");
}

#[test]
fn test_contraction_in_multiline_text_roundtrip() {
    let tok = tok();
    assert_eq!(roundtrip(&tok, "i don't know\n\ndo you?"), "i don't know\n\ndo you?");
}

#[test]
fn test_contraction_with_spaces_before_newline_roundtrip() {
    let tok = tok();
    assert_eq!(roundtrip(&tok, "i  don't\n\n  know"), "i  don't\n\n  know");
}

// --- empty and single-token inputs ------------------------------------

#[test]
fn test_empty_string_encodes_to_empty() {
    let tok = tok();
    assert_eq!(tok.encode("", false), vec![]);
}

#[test]
fn test_empty_string_decodes_to_empty() {
    let tok = tok();
    assert_eq!(tok.decode(&[]), "");
}

#[test]
fn test_single_word_roundtrip() {
    let tok = tok();
    assert_eq!(roundtrip(&tok, "dog"), "dog");
}

#[test]
fn test_single_word_no_space_tokens() {
    let tok = tok();
    let ids = tok.encode("dog", false);
    assert_eq!(ids.len(), 1);
    assert!(!ids.contains(&tok.space_id));
    assert!(!ids.contains(&tok.newline_id));
}

#[test]
fn test_single_unknown_word_is_one_unk() {
    let tok = tok();
    let ids = tok.encode("xylophone", false);
    assert_eq!(ids, vec![tok.unk_id]);
}

#[test]
fn test_single_punct_encodes_to_one_token() {
    let tok = tok();
    let ids = tok.encode(".", false);
    assert_eq!(ids.len(), 1);
    assert_eq!(ids[0], id(&tok, "."));
}

#[test]
fn test_single_newline_encodes_to_one_newline_token() {
    let tok = tok();
    let ids = tok.encode("\n", false);
    assert_eq!(ids, vec![tok.newline_id]);
}

// --- BOS token placement ----------------------------------------------

#[test]
fn test_bos_on_empty_string() {
    let tok = tok();
    let ids = tok.encode("", true);
    assert_eq!(ids, vec![tok.bos_id]);
}

#[test]
fn test_bos_followed_by_word() {
    let tok = tok();
    let ids = tok.encode("dog", true);
    assert_eq!(ids[0], tok.bos_id);
    assert_eq!(ids[1], id(&tok, "dog"));
    assert_eq!(ids.len(), 2);
}

#[test]
fn test_bos_id_not_in_encode_without_flag() {
    let tok = tok();
    let ids = tok.encode("dog cat fox", false);
    assert!(!ids.contains(&tok.bos_id));
}

// --- case normalisation -----------------------------------------------

#[test]
fn test_uppercase_word_normalised_to_lowercase() {
    let tok = tok();
    assert_eq!(roundtrip(&tok, "DOG"), "dog");
}

#[test]
fn test_mixed_case_word_normalised() {
    let tok = tok();
    assert_eq!(roundtrip(&tok, "Dog"), "dog");
}

#[test]
fn test_uppercase_encodes_same_as_lowercase() {
    let tok = tok();
    assert_eq!(tok.encode("DOG", false), tok.encode("dog", false));
}

#[test]
fn test_uppercase_contraction_normalised() {
    let tok = tok();
    assert_eq!(tok.encode("DON'T", false), tok.encode("don't", false));
}

// --- normalisation: smart quotes --------------------------------------

#[test]
fn test_left_single_quote_normalised() {
    // U+2018 LEFT SINGLE QUOTATION MARK
    let tok = tok();
    assert_eq!(tok.encode("\u{2018}hello\u{2019}", false),
               tok.encode("'hello'", false));
}

#[test]
fn test_grave_accent_normalised_to_apostrophe() {
    // U+0060 GRAVE ACCENT used as apostrophe
    let tok = tok();
    assert_eq!(tok.encode("dog\u{0060}s", false),
               tok.encode("dog's", false));
}

#[test]
fn test_modifier_apostrophe_normalised() {
    // U+02BC MODIFIER LETTER APOSTROPHE
    let tok = tok();
    assert_eq!(tok.encode("dog\u{02BC}s", false),
               tok.encode("dog's", false));
}

#[test]
fn test_left_double_quote_normalised() {
    let tok = tok();
    assert_eq!(tok.encode("\u{201C}hello\u{201D}", false),
               tok.encode("\"hello\"", false));
}

// --- UNK behaviour ----------------------------------------------------

#[test]
fn test_digit_only_token_is_unk() {
    let tok = tok();
    let ids = tok.encode("42", false);
    assert_eq!(ids, vec![tok.unk_id]);
}

#[test]
fn test_mixed_alpha_digit_is_unk() {
    let tok = tok();
    let ids = tok.encode("abc123", false);
    assert_eq!(ids, vec![tok.unk_id]);
}

#[test]
fn test_non_ascii_word_is_unk() {
    let tok = tok();
    let ids = tok.encode("café", false);
    assert_eq!(ids, vec![tok.unk_id]);
}

#[test]
fn test_emoji_is_unk() {
    let tok = tok();
    let ids = tok.encode("🎉", false);
    assert_eq!(ids, vec![tok.unk_id]);
}

#[test]
fn test_unk_between_words_has_implicit_spaces() {
    // UNK is word-kind so single spaces around it are implicit.
    let tok = tok();
    let ids = tok.encode("dog 42 cat", false);
    assert!(!ids.contains(&tok.space_id));
    assert_eq!(ids, vec![id(&tok, "dog"), tok.unk_id, id(&tok, "cat")]);
}

#[test]
fn test_unk_double_space_produces_explicit_space() {
    let tok = tok();
    let ids = tok.encode("dog  42  cat", false);
    assert_eq!(ids.iter().filter(|&&id| id == tok.space_id).count(), 2);
}

#[test]
fn test_word_not_in_whitelist_is_unk() {
    let tok = tok();
    // "zebra" is not in our test whitelist
    let ids = tok.encode("zebra", false);
    assert_eq!(ids, vec![tok.unk_id]);
}

#[test]
fn test_unk_decode_roundtrip_gives_unk_surface() {
    let tok = tok();
    let decoded = tok.decode(&[tok.unk_id]);
    assert_eq!(decoded, "<|unk|>");
}

// --- punctuation token sequences --------------------------------------

#[test]
fn test_leading_punct_token_sequence() {
    let tok = tok();
    let ids = tok.encode("(hello)", false);
    assert_eq!(ids, vec![
        id(&tok, "("),
        id(&tok, "hello"),
        id(&tok, ")"),
    ]);
}

#[test]
fn test_question_mark_roundtrip() {
    let tok = tok();
    assert_eq!(roundtrip(&tok, "do you know?"), "do you know?");
}

#[test]
fn test_exclamation_roundtrip() {
    let tok = tok();
    assert_eq!(roundtrip(&tok, "hello world!"), "hello world!");
}

#[test]
fn test_double_quote_roundtrip() {
    let tok = tok();
    assert_eq!(roundtrip(&tok, "he said \"hello\""), "he said \"hello\"");
}

#[test]
fn test_all_punct_tokens_round_trip() {
    let tok = tok();
    for p in PUNCT_TOKENS {
        let ids = tok.encode(p, false);
        assert_eq!(ids.len(), 1, "punct {p:?} should encode to exactly one token");
        assert_eq!(tok.decode(&ids), p, "punct {p:?} should round-trip");
    }
}

#[test]
fn test_no_space_period_roundtrip() {
    let tok = tok();
    assert_eq!(roundtrip(&tok, "dog.cat"), "dog.cat");
}

#[test]
fn test_space_padded_period_roundtrip() {
    let tok = tok();
    assert_eq!(roundtrip(&tok, "dog . cat"), "dog . cat");
}

#[test]
fn test_multiple_trailing_punct_roundtrip() {
    let tok = tok();
    assert_eq!(roundtrip(&tok, "really?!"), "really?!");
}

#[test]
fn test_punct_only_string_roundtrip() {
    let tok = tok();
    assert_eq!(roundtrip(&tok, "..."), "...");
}

// --- possessive edge cases --------------------------------------------

#[test]
fn test_possessive_no_space_before_next_word() {
    // dog's → [dog, 's, toy] — no explicit space between 's and toy
    let tok = tok();
    let ids = tok.encode("dog's toy", false);
    assert!(!ids.contains(&tok.space_id));
}

#[test]
fn test_possessive_double_space_after() {
    let tok = tok();
    assert_eq!(roundtrip(&tok, "dog's  toy"), "dog's  toy");
}

#[test]
fn test_possessive_followed_by_punct() {
    let tok = tok();
    assert_eq!(roundtrip(&tok, "dog's toy."), "dog's toy.");
}

#[test]
fn test_possessive_uppercase_normalised() {
    let tok = tok();
    assert_eq!(roundtrip(&tok, "DOG'S toy"), "dog's toy");
}

// --- hyphen / dash ----------------------------------------------------

#[test]
fn test_hyphenated_both_parts_present() {
    let tok = tok();
    let ids = tok.encode("well-known", false);
    assert!(ids.contains(&id(&tok, "well")));
    assert!(ids.contains(&id(&tok, "known") ));
    assert!(ids.contains(&tok.unk_id)); // the hyphen
}

#[test]
fn test_en_dash_both_parts_present() {
    let tok = tok();
    let ids = tok.encode("cat\u{2013}dog", false);
    assert!(ids.contains(&id(&tok, "cat")));
    assert!(ids.contains(&id(&tok, "dog")));
    assert!(ids.contains(&tok.unk_id));
}

#[test]
fn test_em_dash_produces_unk() {
    let tok = tok();
    let ids = tok.encode("cat\u{2014}dog", false);
    assert!(ids.contains(&tok.unk_id));
}

#[test]
fn test_hyphen_only_is_unk() {
    let tok = tok();
    let ids = tok.encode("-", false);
    assert_eq!(ids, vec![tok.unk_id]);
}

// --- vocab size and layout --------------------------------------------

#[test]
fn test_vocab_size_at_least_n_fixed_plus_contractions_plus_specials() {
    let tok = tok();
    let min = tok.n_fixed as usize + WHOLE_CONTRACTIONS.len() + SPECIAL_TOKENS.len();
    assert!(tok.vocab_size() >= min);
}

#[test]
fn test_n_fixed_equals_punct_plus_space_newline_plus_suffixes() {
    let tok = tok();
    let expected = PUNCT_TOKENS.len() + 1 + 1 + CONTRACTION_SUFFIXES.len();
    assert_eq!(tok.n_fixed as usize, expected);
}

#[test]
fn test_space_token_id_is_valid() {
    let tok = tok();
    assert!(tok.space_id < tok.vocab_size() as u32);
    assert_eq!(tok.id_to_token(tok.space_id), Some(" "));
}

#[test]
fn test_newline_token_id_is_valid() {
    let tok = tok();
    assert!(tok.newline_id < tok.vocab_size() as u32);
    assert_eq!(tok.id_to_token(tok.newline_id), Some("\n"));
}

#[test]
fn test_id_to_token_out_of_range_returns_none() {
    let tok = tok();
    assert_eq!(tok.id_to_token(tok.vocab_size() as u32), None);
    assert_eq!(tok.id_to_token(u32::MAX), None);
}

#[test]
fn test_special_id_unknown_name_returns_none() {
    let tok = tok();
    assert_eq!(tok.special_id("<|nonexistent|>"), None);
}

#[test]
fn test_whitelist_words_have_ids_in_range() {
    let tok = tok();
    for word in ["dog", "cat", "fox", "hello", "world"] {
        let id = id(&tok, word);
        assert!(id >= tok.n_fixed, "{word:?} should be above n_fixed");
        assert!(id < tok.vocab_size() as u32);
    }
}

#[test]
fn test_duplicate_whitelist_words_deduplicated() {
    // Building with repeated words should not create duplicate ids.
    let tok = WhitelistTokenizer::from_allowed_words(
        "dog dog cat cat dog".split_whitespace()
    ).unwrap();
    let dog_id = id(&tok, "dog");
    let cat_id = id(&tok, "cat");
    assert_ne!(dog_id, cat_id);
    // Only one entry for each
    assert_eq!(tok.id_to_word.iter().filter(|s| s.as_str() == "dog").count(), 1);
    assert_eq!(tok.id_to_word.iter().filter(|s| s.as_str() == "cat").count(), 1);
}

// --- whitelist filtering at load time ---------------------------------

#[test]
fn test_whitelist_ignores_comment_lines() {
    let tok = WhitelistTokenizer::from_allowed_words(
        "# this is a comment\ndog\ncat".lines()
    ).unwrap();
    assert!(tok.word_ids.contains_key("dog"));
    assert!(!tok.word_ids.contains_key("# this is a comment"));
}

#[test]
fn test_whitelist_ignores_blank_lines() {
    let tok = WhitelistTokenizer::from_allowed_words(
        "\n\ndog\n\ncat\n\n".lines()
    ).unwrap();
    assert!(tok.word_ids.contains_key("dog"));
    assert!(tok.word_ids.contains_key("cat"));
}

#[test]
fn test_whitelist_rejects_words_with_digits() {
    let tok = WhitelistTokenizer::from_allowed_words(
        "dog abc123 cat".split_whitespace()
    ).unwrap();
    assert!(!tok.word_ids.contains_key("abc123"));
    assert!(tok.word_ids.contains_key("dog"));
    assert!(tok.word_ids.contains_key("cat"));
}

#[test]
fn test_whitelist_rejects_non_ascii_words() {
    let tok = WhitelistTokenizer::from_allowed_words(
        "dog café cat".split_whitespace()
    ).unwrap();
    assert!(!tok.word_ids.contains_key("café"));
}

#[test]
fn test_whitelist_lowercases_input_words() {
    let tok = WhitelistTokenizer::from_allowed_words(
        "Dog CAT Fox".split_whitespace()
    ).unwrap();
    assert!(tok.word_ids.contains_key("dog"));
    assert!(tok.word_ids.contains_key("cat"));
    assert!(tok.word_ids.contains_key("fox"));
    assert!(!tok.word_ids.contains_key("Dog"));
}

// --- encode_batch ---------------------------------------------------------

#[test]
fn test_encode_batch_empty_input() {
    let tok = tok();
    assert_eq!(tok.encode_batch(&[], false), Vec::<Vec<u32>>::new());
}

#[test]
fn test_encode_batch_single_item() {
    let tok = tok();
    let batch = tok.encode_batch(&["dog cat"], false);
    assert_eq!(batch.len(), 1);
    assert_eq!(batch[0], tok.encode("dog cat", false));
}

#[test]
fn test_encode_batch_preserves_order() {
    let tok = tok();
    let texts = vec!["dog", "cat", "fox", "hello", "world"];
    let batch = tok.encode_batch(&texts, false);
    for (i, text) in texts.iter().enumerate() {
        assert_eq!(batch[i], tok.encode(text, false),
            "batch[{i}] should match sequential encode of {text:?}");
    }
}

#[test]
fn test_encode_batch_with_bos() {
    let tok = tok();
    let texts = vec!["dog cat", "hello world"];
    let batch = tok.encode_batch(&texts, true);
    for ids in &batch {
        assert_eq!(ids[0], tok.bos_id);
    }
}

// --- decode edge cases ------------------------------------------------

#[test]
fn test_decode_space_only() {
    let tok = tok();
    assert_eq!(tok.decode(&[tok.space_id]), " ");
}

#[test]
fn test_decode_newline_only() {
    let tok = tok();
    assert_eq!(tok.decode(&[tok.newline_id]), "\n");
}

#[test]
fn test_decode_multiple_spaces() {
    let tok = tok();
    let ids = vec![tok.space_id, tok.space_id, tok.space_id];
    assert_eq!(tok.decode(&ids), "   ");
}

#[test]
fn test_decode_bos_token() {
    let tok = tok();
    assert_eq!(tok.decode(&[tok.bos_id]), "<|bos|>");
}

#[test]
fn test_decode_unknown_id_silently_skipped() {
    // An id beyond vocab_size has no entry; it should be skipped, not panic.
    let tok = tok();
    let ids = vec![id(&tok, "dog"), u32::MAX, id(&tok, "cat")];
    // Should not panic; "dog" and "cat" with an implicit space between them.
    let result = tok.decode(&ids);
    assert!(result.contains("dog"));
    assert!(result.contains("cat"));
}

// --- encode id ordering / no-overlap ----------------------------------

#[test]
fn test_all_special_token_ids_are_unique() {
    let tok = tok();
    let mut ids: Vec<u32> = SPECIAL_TOKENS.iter()
        .map(|&s| id(&tok, s))
        .collect();
    let before = ids.len();
    ids.sort();
    ids.dedup();
    assert_eq!(ids.len(), before, "special token ids should all be unique");
}

#[test]
fn test_fixed_and_word_ids_do_not_overlap() {
    let tok = tok();
    for &s in PUNCT_TOKENS.iter().chain(&[SPACE_TOKEN, NEWLINE_TOKEN]).chain(&CONTRACTION_SUFFIXES) {
        let id = id(&tok, s);
        // Must be below n_fixed — i.e. not sharing an id with any word token.
        assert!(id < tok.n_fixed);
    }
    for s in WHOLE_CONTRACTIONS {
        assert!(id(&tok, s) >= tok.n_fixed);
    }
}

// --- pretokenizer stream ----------------------------------------------

#[test]
fn test_pretokenize_empty() {
    assert_eq!(pretokenize(""), vec![]);
}

#[test]
fn test_pretokenize_single_word() {
    let items = pretokenize("dog");
    assert_eq!(items, vec![StreamItem::Word("dog".into())]);
}

#[test]
fn test_pretokenize_space_is_sp() {
    let items = pretokenize("dog cat");
    assert!(items.contains(&StreamItem::Sp));
}

#[test]
fn test_pretokenize_newline_is_nl() {
    let items = pretokenize("dog\ncat");
    assert!(items.contains(&StreamItem::Nl));
}

#[test]
fn test_pretokenize_two_spaces_two_sp_items() {
    let items = pretokenize("dog  cat");
    let sp_count = items.iter().filter(|i| **i == StreamItem::Sp).count();
    assert_eq!(sp_count, 2);
}

#[test]
fn test_pretokenize_whole_contraction_is_word_item() {
    let items = pretokenize("don't");
    assert_eq!(items, vec![StreamItem::Word("don't".into())]);
}

#[test]
fn test_pretokenize_unk_is_unk_item() {
    let items = pretokenize("42");
    assert_eq!(items, vec![StreamItem::Unk]);
}

#[test]
fn test_pretokenize_uppercase_word_lowercased() {
    let items = pretokenize("DOG");
    assert_eq!(items, vec![StreamItem::Word("dog".into())]);
}

#[test]
fn test_pretokenize_possessive_splits_to_word_and_fixed() {
    let items = pretokenize("dog's");
    assert_eq!(items, vec![
        StreamItem::Word("dog".into()),
        StreamItem::Fixed("'s".into()),
    ]);
}
