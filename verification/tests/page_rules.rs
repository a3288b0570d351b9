use ndlocr_lite_rs::postprocess::page_rules::{apply_structural_rules, is_decoration_line};

#[test]
fn article_heading_normalizes_parenthesis() {
    let lines = vec!["第2条(秘密情報等の取扱い)".to_string()];
    let out = apply_structural_rules(&lines);
    assert_eq!(out[0], "第2条（秘密情報等の取扱い）");
}

#[test]
fn article_heading_trims_trailing_noise() {
    let lines = vec!["第2条（秘密情報等の取扱い） 第1".to_string()];
    let out = apply_structural_rules(&lines);
    assert_eq!(out[0], "第2条（秘密情報等の取扱い）");
}

#[test]
fn article_heading_drops_garbled_tail_after_bracket() {
    let lines = vec!["第1条（秘密情報）にようについて".to_string()];
    let out = apply_structural_rules(&lines);
    assert_eq!(out[0], "第1条（秘密情報）");
}

#[test]
fn numbered_item_prefix_is_normalized() {
    let lines = vec!["（3）開示を受けたとき".to_string()];
    let out = apply_structural_rules(&lines);
    assert_eq!(out[0], "(3)開示を受けたとき");
}

#[test]
fn merges_cjk_digit_split_pair() {
    let lines = vec!["対馬全1".to_string(), "域の海藻".to_string()];
    let out = apply_structural_rules(&lines);
    assert_eq!(out, vec!["対馬全域の海藻"]);
}

#[test]
fn parenthetical_line_trims_hiragana_only_noise_after_label() {
    let lines = vec!["(目的)のようになっている".to_string()];
    let out = apply_structural_rules(&lines);
    assert_eq!(out[0], "(目的)");
}

#[test]
fn parenthetical_line_keeps_prose_after_label_when_kanji_follows() {
    let lines = vec!["(目的)のような状態において".to_string()];
    let out = apply_structural_rules(&lines);
    assert_eq!(out[0], "(目的)のような状態において");
}

#[test]
fn collapses_duplicate_adjacent_lines() {
    let lines = vec![
        "(目的)のようになっている".to_string(),
        "(目的)のようになっている".to_string(),
        "第3条...".to_string(),
    ];
    let out = apply_structural_rules(&lines);
    assert_eq!(out.len(), 2);
}

#[test]
fn trims_orphan_dai_at_section_boundary() {
    let lines = vec!["第2章目的及び事業第".to_string(), "(目的)".to_string()];
    let out = apply_structural_rules(&lines);
    assert_eq!(out[0], "第2章目的及び事業");
}

#[test]
fn drops_page_decoration_lines() {
    assert!(is_decoration_line("-"));
    assert!(is_decoration_line("1,"));
    assert!(is_decoration_line(""));
    assert!(is_decoration_line("   "));
    assert!(is_decoration_line("。、"));

    assert!(!is_decoration_line("目次"));
    assert!(!is_decoration_line("附則"));
    assert!(!is_decoration_line("(税目)"));
    assert!(!is_decoration_line("第1章総則"));
}

#[test]
fn joins_latin_hyphenation_at_line_end() {
    let lines = vec!["The implemen-".to_string(), "tation is fast.".to_string()];
    let out = apply_structural_rules(&lines);
    assert_eq!(out, vec!["The implementation is fast.".to_string()]);
}

#[test]
fn joins_multiple_hyphenated_words_in_sequence() {
    let lines = vec![
        "The quick brown fox jumps over the lazy".to_string(),
        "dog repeat-".to_string(),
        "edly across the field with light-".to_string(),
        "hearted abandon.".to_string(),
    ];
    let out = apply_structural_rules(&lines);
    assert_eq!(out.len(), 2);
    assert!(out[0].ends_with("the lazy"));
    assert_eq!(
        out[1],
        "dog repeatedly across the field with lighthearted abandon."
    );
}

#[test]
fn keeps_trailing_hyphen_when_next_line_is_section_boundary() {
    let lines = vec![
        "concluding statement-".to_string(),
        "第3条 規定".to_string(),
    ];
    let out = apply_structural_rules(&lines);
    assert_eq!(out.len(), 2);
    assert_eq!(out[0], "concluding statement-");
}

#[test]
fn keeps_trailing_hyphen_when_prev_char_is_not_alpha() {
    let lines = vec!["item 1-".to_string(), "two next".to_string()];
    let out = apply_structural_rules(&lines);
    assert_eq!(out.len(), 2);
    assert_eq!(out[0], "item 1-");
}

#[test]
fn keeps_trailing_hyphen_when_next_starts_non_alpha() {
    let lines = vec!["page-".to_string(), "1 of 3".to_string()];
    let out = apply_structural_rules(&lines);
    assert_eq!(out.len(), 2);
    assert_eq!(out[0], "page-");

    let lines = vec!["section-".to_string(), "目次".to_string()];
    let out = apply_structural_rules(&lines);
    assert_eq!(out.len(), 2);
    assert_eq!(out[0], "section-");
}

#[test]
fn structural_rules_drop_decoration_at_top() {
    let lines = vec![
        "-".to_string(),
        "1,".to_string(),
        "○横浜市市税条例".to_string(),
        "目次".to_string(),
        "目次".to_string(),
        "第1章総則".to_string(),
    ];
    let out = apply_structural_rules(&lines);
    assert_eq!(
        out,
        vec![
            "○横浜市市税条例".to_string(),
            "目次".to_string(),
            "第1章総則".to_string(),
        ]
    );
}

#[test]
fn structural_rules_output_has_no_adjacent_duplicates() {
    let lines = vec![
        "第1章総則".to_string(),
        "第1章総則".to_string(),
        "第1章総則".to_string(),
        "本文".to_string(),
    ];
    let out = apply_structural_rules(&lines);
    assert!(out.len() <= lines.len());
    for w in out.windows(2) {
        assert_ne!(w[0], w[1]);
    }
}

#[test]
fn structural_rules_on_empty_page_give_nothing() {
    let out = apply_structural_rules(&[]);
    assert!(out.is_empty());
}

#[test]
fn structural_rules_return_trimmed_lines() {
    let lines = vec![
        "  第3条（定義）  ".to_string(),
        "\t本契約において用語の意味は次のとおり ".to_string(),
        " inter-  ".to_string(),
        "  national law\u{3000}".to_string(),
        "東京2".to_string(),
        "  都の条例 ".to_string(),
    ];
    let out = apply_structural_rules(&lines);
    assert!(!out.is_empty());
    for line in &out {
        assert_eq!(line.trim(), line.as_str(), "{out:?}");
    }
}
