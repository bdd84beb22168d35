use llm_engine::gguf::{GgufFile, GgufValue};
use llm_engine::tokenizer::{
    byte_fallback_token, load_tokenizer, try_load_tokenizer, Tokenizer, TokenizerError,
    TokenizerKey,
};

const M: &str = "\u{2581}";

fn strings(items: &[String]) -> GgufValue {
    GgufValue::Array(items.iter().map(|s| GgufValue::String(s.clone())).collect())
}

fn file_with(vocab: &[String], merges: &[String], bos: u32, eos: u32) -> GgufFile {
    GgufFile {
        version: 3,
        metadata: vec![
            ("tokenizer.ggml.tokens".to_string(), strings(vocab)),
            ("tokenizer.ggml.merges".to_string(), strings(merges)),
            ("tokenizer.ggml.bos_token_id".to_string(), GgufValue::U32(bos)),
            ("tokenizer.ggml.eos_token_id".to_string(), GgufValue::U32(eos)),
        ],
        tensors: vec![],
        tensor_data_offset: 0,
    }
}

/// A vocabulary laid out so that "The capital of France is" encodes to the
/// ids TinyLlama gives it: 450 "▁The", 7483 "▁capital", 310 "▁of", 3444 "▁France",
/// 338 "▁is".
fn capital_vocab() -> Vec<String> {
    let mut v: Vec<String> = (0..7484).map(|i| format!("<f{i}>")).collect();
    v[0] = "<unk>".to_string();
    v[1] = "<s>".to_string();
    v[2] = "</s>".to_string();
    let singles = [
        M, "T", "h", "e", "c", "a", "p", "i", "t", "l", "o", "f", "F", "r", "n", "s", "<0xC3>",
        "<0xA9>", "<0x0A>", "<0x+41>", "<0x>", "<0xZZ>", "\u{0}",
    ];
    for (k, s) in singles.iter().enumerate() {
        v[3 + k] = s.to_string();
    }
    // Every intermediate result of the merge rules is a piece too.
    let intermediates = [
        "\u{2581}T", "he", "\u{2581}c", "ap", "it", "al", "\u{2581}cap", "\u{2581}capit", "\u{2581}o",
        "\u{2581}F", "ra", "nc", "\u{2581}Fra", "\u{2581}Franc", "\u{2581}i",
    ];
    for (k, s) in intermediates.iter().enumerate() {
        v[100 + k] = s.to_string();
    }
    v[450] = format!("{M}The");
    v[7483] = format!("{M}capital");
    v[310] = format!("{M}of");
    v[3444] = format!("{M}France");
    v[338] = format!("{M}is");
    v
}

fn capital_merges() -> Vec<String> {
    [
        "▁ T", "h e", "▁T he", "▁ c", "a p", "i t", "a l", "▁c ap", "▁cap it", "▁capit al",
        "▁ o", "▁o f", "▁ F", "r a", "n c", "▁F ra", "▁Fra nc", "▁Franc e", "▁ i", "▁i s",
    ]
    .iter()
    .map(|s| s.to_string())
    .collect()
}

fn capital_tokenizer() -> Tokenizer {
    load_tokenizer(&file_with(&capital_vocab(), &capital_merges(), 1, 2))
}

fn id_of(piece: &str) -> usize {
    capital_vocab().iter().rposition(|p| p == piece).unwrap()
}

#[test]
fn capital_prompt_encodes_to_tinyllama_ids() {
    let tok = capital_tokenizer();
    let mut ids = vec![tok.bos_id()];
    ids.extend(tok.encode("The capital of France is"));
    assert_eq!(ids, vec![1, 450, 7483, 310, 3444, 338]);
}

#[test]
fn capital_prompt_round_trips() {
    let tok = capital_tokenizer();
    let ids = vec![1, 450, 7483, 310, 3444, 338];
    assert_eq!(tok.decode(&ids), "The capital of France is");
}

#[test]
fn decode_of_encode_gives_the_text_back() {
    let tok = capital_tokenizer();
    for text in ["The capital", "France is the capital", "of of of", "This"] {
        let ids = tok.encode(text);
        assert_eq!(tok.decode(&ids), text);
    }
}

#[test]
fn merging_stops_when_no_rule_applies() {
    let tok = capital_tokenizer();
    // "Th" merges to "▁T" + "h"; no rule joins "▁T" and "h".
    let ids = tok.encode("Th");
    assert_eq!(ids.len(), 2);
    assert_eq!(tok.decode_piece(ids[0]), " T");
    assert_eq!(tok.decode_piece(ids[1]), "h");
}

#[test]
fn unknown_characters_fall_back_to_bytes() {
    let tok = capital_tokenizer();
    let ids = tok.encode("\u{e9}");
    assert_eq!(ids, vec![id_of(M), id_of("<0xC3>"), id_of("<0xA9>")]);
    assert_eq!(tok.decode(&ids), "\u{e9}");
}

#[test]
fn missing_fallback_piece_fails_encoding() {
    let tok = capital_tokenizer();
    assert!(tok.try_encode("\u{fc}").is_none());
}

#[test]
fn nul_character_in_the_vocabulary_seeds_two_empty_pieces() {
    let tok = capital_tokenizer();
    // The empty piece is not in the vocabulary, so encoding fails.
    assert!(tok.try_encode("a\u{0}").is_none());
}

#[test]
fn decode_skips_special_tokens_and_trims_leading_whitespace() {
    let tok = capital_tokenizer();
    let ids = vec![1, id_of("<0x0A>"), 450, 2];
    assert_eq!(tok.decode(&ids), "The");
}

#[test]
fn decode_rejects_out_of_range_and_malformed_fallback_ids() {
    let tok = capital_tokenizer();
    assert!(tok.try_decode(&[450, 99999]).is_none());
    assert!(tok.try_decode(&[id_of("<0xZZ>")]).is_none());
    assert!(tok.try_decode(&[id_of("<0x>")]).is_none());
}

#[test]
fn fallback_hex_may_carry_a_plus_sign() {
    let tok = capital_tokenizer();
    assert_eq!(tok.decode(&[id_of("<0x+41>")]), "A");
}

#[test]
fn decode_piece_keeps_leading_spaces() {
    let tok = capital_tokenizer();
    assert_eq!(tok.decode_piece(450), " The");
    assert_eq!(tok.decode_piece(1), "");
    assert_eq!(tok.decode_piece(2), "");
    assert_eq!(tok.decode_piece(id_of("<0x0A>")), "\n");
    assert_eq!(tok.decode_piece(id_of("<0xC3>")), "\u{FFFD}");
    assert!(tok.try_decode_piece(100000).is_none());
    assert!(tok.try_decode_piece(id_of("<0xZZ>")).is_none());
}

#[test]
fn special_ids_come_from_metadata() {
    let tok = load_tokenizer(&file_with(&capital_vocab(), &capital_merges(), 7, 9));
    assert_eq!(tok.bos_id(), 7);
    assert_eq!(tok.eos_id(), 9);
}

#[test]
fn repeated_pieces_take_their_last_id() {
    let vocab: Vec<String> = vec!["<unk>", "<s>", "</s>", M, "a", M]
        .into_iter()
        .map(|s| s.to_string())
        .collect();
    let tok = load_tokenizer(&file_with(&vocab, &[], 1, 2));
    assert_eq!(tok.encode("a"), vec![5, 4]);
}

#[test]
fn later_duplicate_merge_rules_take_the_later_rank() {
    // "b c" is listed first and last; its rank is the last one, so "a b"
    // (rank 1) is applied first.
    let vocab: Vec<String> = vec!["<unk>", "<s>", "</s>", M, "a", "b", "c", "ab", "bc", "abc"]
        .into_iter()
        .map(|s| s.to_string())
        .collect();
    let merges: Vec<String> = vec!["b c", "a b", "b c", "ab c"].into_iter().map(|s| s.to_string()).collect();
    let tok = load_tokenizer(&file_with(&vocab, &merges, 1, 2));
    let ids = tok.encode("abc");
    assert_eq!(ids, vec![3, 9]);
}

#[test]
fn byte_fallback_token_formats_upper_case_hex() {
    assert_eq!(byte_fallback_token(0x0A), "<0x0A>");
    assert_eq!(byte_fallback_token(0xE9), "<0xE9>");
    assert_eq!(byte_fallback_token(0), "<0x00>");
}

#[test]
fn load_reports_missing_or_malformed_metadata() {
    let vocab = capital_vocab();
    let merges = capital_merges();

    let mut f = file_with(&vocab, &merges, 1, 2);
    f.metadata.remove(0);
    assert_eq!(try_load_tokenizer(&f).err(), Some(TokenizerError::MissingArray(TokenizerKey::Tokens)));

    let mut f = file_with(&vocab, &merges, 1, 2);
    f.metadata[1].1 = GgufValue::Array(vec![GgufValue::U32(3)]);
    assert_eq!(
        try_load_tokenizer(&f).err(),
        Some(TokenizerError::NonStringElement(TokenizerKey::Merges))
    );

    let bad_merges = vec!["nospace".to_string()];
    let f = file_with(&vocab, &bad_merges, 1, 2);
    assert_eq!(try_load_tokenizer(&f).err(), Some(TokenizerError::MalformedMerge));

    let mut f = file_with(&vocab, &merges, 1, 2);
    f.metadata[3].1 = GgufValue::U64(2);
    assert_eq!(try_load_tokenizer(&f).err(), Some(TokenizerError::MissingU32(TokenizerKey::EosTokenId)));
}

#[test]
fn merge_rules_split_at_the_first_space() {
    // "x y z" is the rule ("x", "y z"), which no pair of single characters
    // matches; only "▁ x" applies.
    let vocab: Vec<String> = vec!["<unk>", "<s>", "</s>", M, "x", " ", "y", "z", "xy z", "\u{2581}x"]
        .into_iter()
        .map(|s| s.to_string())
        .collect();
    let merges: Vec<String> = vec![format!("{M} x"), "x y z".to_string()];
    let tok = load_tokenizer(&file_with(&vocab, &merges, 1, 2));
    assert_eq!(tok.encode("xyz"), vec![9, 6, 7]);
}

#[test]
fn special_tokens_anywhere_leave_no_trace() {
    let tok = capital_tokenizer();
    let plain = tok.decode(&[450, 7483, 310]);
    assert_eq!(tok.decode(&[450, 1, 7483, 2, 310, 2]), plain);
    assert_eq!(tok.decode(&[1, 2, 1]), "");
}

#[test]
fn a_vocabulary_with_every_fallback_byte_encodes_any_text() {
    let mut vocab: Vec<String> = vec!["<unk>".to_string(), "<s>".to_string(), "</s>".to_string()];
    for b in 0..=255u8 {
        vocab.push(byte_fallback_token(b));
    }
    vocab.push(M.to_string());
    vocab.push("h".to_string());
    vocab.push("i".to_string());
    vocab.push("hi".to_string());
    let merges = vec!["h i".to_string()];
    let tok = load_tokenizer(&file_with(&vocab, &merges, 1, 2));
    for text in ["hi", "h\u{e9}llo \u{2603}!", "\u{0}", "", "  tabs\tand\nnewlines"] {
        let ids = tok.encode(text);
        assert!(ids.iter().all(|&id| id < vocab.len()));
        if !text.contains('\u{0}') {
            assert_eq!(tok.decode(&ids), text.trim_start());
        }
    }
    assert_eq!(tok.encode("hi"), vec![259, 262]);
}

#[test]
fn streamed_pieces_spell_the_decoded_text() {
    let tok = capital_tokenizer();
    let ids = vec![1, 450, 7483, 310, 3444, 338, 2];
    let streamed: String = ids.iter().map(|&id| tok.decode_piece(id)).collect();
    assert_eq!(streamed, " The capital of France is");
    assert_eq!(streamed.trim_start(), tok.decode(&ids));
}

#[test]
fn characters_outside_the_vocabulary_round_trip_through_their_bytes() {
    let vocab: Vec<String> =
        ["<unk>", "<s>", "</s>", "\u{2581}", "a", "b", "ab", "\u{2581}a", "aa", "<0xC3>", "<0xA9>"]
            .iter()
            .map(|s| s.to_string())
            .collect();
    let merges: Vec<String> = ["a b", "\u{2581} a", "a a"].iter().map(|s| s.to_string()).collect();
    let tok = load_tokenizer(&file_with(&vocab, &merges, 1, 2));
    let ids = tok.encode("ab \u{e9}");
    assert_eq!(ids, vec![3, 6, 3, 9, 10]);
    assert_eq!(tok.decode(&ids), "ab \u{e9}");
    assert_eq!(tok.decode(&tok.encode("\u{e9}a")), "\u{e9}a");
    assert!(tok.try_encode("c").is_none());
    assert!(tok.try_decode(&[11]).is_none());
    assert!(tok.try_decode(&[4, 11]).is_none());
}

#[test]
fn dropping_every_special_token_leaves_the_text() {
    let tok = capital_tokenizer();
    let ids = vec![1, 1, 450, 2, 7483, 1, 310, 2, 2];
    let kept: Vec<usize> =
        ids.iter().copied().filter(|&i| i != tok.bos_id() && i != tok.eos_id()).collect();
    assert_eq!(kept, vec![450, 7483, 310]);
    assert_eq!(tok.decode(&ids), tok.decode(&kept));
}

#[test]
fn merge_sides_shaped_like_fallback_pieces_do_not_break_the_round_trip() {
    // "<0x" is not a byte piece, and no merge result has the fallback shape.
    let vocab: Vec<String> = ["<unk>", "<s>", "</s>", "\u{2581}", "a", "<0x", "<0xa", "<0xC3>", "<0xA9>"]
        .iter()
        .map(|s| s.to_string())
        .collect();
    let merges: Vec<String> = ["<0x a"].iter().map(|s| s.to_string()).collect();
    let tok = load_tokenizer(&file_with(&vocab, &merges, 1, 2));
    let ids = tok.encode("a\u{e9}");
    assert_eq!(ids, vec![3, 4, 7, 8]);
    assert_eq!(tok.decode(&ids), "a\u{e9}");
}
