use ndlocr_lite_rs::postprocess::morph_correction::{
    candidate_surfaces, correct_unknown_tokens_with, correct_unknown_tokens_with_replacements,
    token_slices_fit, tokens_spell_known_text, CorrectionToken,
};

#[test]
fn candidate_surfaces_include_generic_ocr_confusions() {
    assert!(candidate_surfaces("テス卜").contains(&"テスト".to_string()));
    assert!(candidate_surfaces("カ口").contains(&"力口".to_string()));
    assert!(candidate_surfaces("権禾リ").contains(&"権利".to_string()));
}

#[test]
fn candidate_surfaces_come_in_index_order_then_spans() {
    assert_eq!(
        candidate_surfaces("口一禾リ"),
        vec!["ロ一禾リ".to_string(), "口ー禾リ".to_string(), "口一利".to_string()]
    );
    assert!(candidate_surfaces("abc").is_empty());
}

#[test]
fn unknown_token_takes_first_known_candidate() {
    // "テス卜です": bytes 0..9 "テス卜" unknown, 9..15 "です" known.
    let input = "テス卜です";
    let tokens = vec![
        CorrectionToken::unknown("テス卜".to_string(), 0..9),
        CorrectionToken::known("です".to_string(), 9..15),
    ];
    let out = correct_unknown_tokens_with(input, &tokens, |c: &str| c == "テスト");
    assert_eq!(out, "テストです");
}

#[test]
fn unknown_token_is_kept_when_no_candidate_is_known() {
    let input = "テス卜です";
    let tokens = vec![CorrectionToken::unknown("テス卜".to_string(), 0..9)];
    let out = correct_unknown_tokens_with(input, &tokens, |_c: &str| false);
    assert_eq!(out, "テス卜です");
}

#[test]
fn text_between_tokens_is_kept() {
    let input = "a b権禾リc";
    let tokens = vec![
        CorrectionToken::known("a".to_string(), 0..1),
        CorrectionToken::unknown("権禾リ".to_string(), 3..12),
    ];
    let out = correct_unknown_tokens_with(input, &tokens, |c: &str| c == "権利");
    assert_eq!(out, "a b権利c");
}

#[test]
fn tokens_before_the_cursor_are_skipped() {
    let input = "abcdef";
    let tokens = vec![
        CorrectionToken::known("abcd".to_string(), 0..4),
        CorrectionToken::unknown("cd".to_string(), 2..4),
    ];
    let out = correct_unknown_tokens_with_replacements(
        input,
        &tokens,
        &["unused".to_string(), "XX".to_string()],
    );
    assert_eq!(out, "abcdef");
}

#[test]
fn replacements_are_used_for_unknown_tokens() {
    let input = "abcdef";
    let tokens = vec![
        CorrectionToken::known("ab".to_string(), 0..2),
        CorrectionToken::unknown("cd".to_string(), 2..4),
    ];
    let out = correct_unknown_tokens_with_replacements(
        input,
        &tokens,
        &["ignored".to_string(), "XY".to_string()],
    );
    assert_eq!(out, "abXYef");
}

#[test]
fn token_ranges_off_char_boundaries_do_not_fit() {
    let input = "テスト";
    let bad = vec![CorrectionToken::known("?".to_string(), 1..3)];
    assert!(!token_slices_fit(input, &bad));
    let good = vec![CorrectionToken::known("テ".to_string(), 0..3)];
    assert!(token_slices_fit(input, &good));
}

#[test]
fn known_text_needs_all_tokens_known_and_spelled() {
    let toks = vec![("テス".to_string(), 0, 6, false), ("ト".to_string(), 6, 9, false)];
    assert!(tokens_spell_known_text("テスト", &toks));
    let unknown = vec![("テスト".to_string(), 0, 9, true)];
    assert!(!tokens_spell_known_text("テスト", &unknown));
    assert!(!tokens_spell_known_text("テスト", &vec![]));
    let other = vec![("テス".to_string(), 0, 6, false)];
    assert!(!tokens_spell_known_text("テスト", &other));
}

#[test]
fn a_line_of_known_tokens_comes_back_unchanged() {
    // "テス卜 です": "テス卜" at 0..9, " " between, "です" at 10..16, all known.
    let input = "テス卜 です";
    let tokens = vec![
        CorrectionToken::known("テス卜".to_string(), 0..9),
        CorrectionToken::known("です".to_string(), 10..16),
    ];
    let out = correct_unknown_tokens_with(input, &tokens, |_c: &str| -> bool {
        panic!("no candidate is looked up for known tokens")
    });
    assert_eq!(out, input);
}
