use ndlocr_lite_rs::postprocess::dict::{PostprocessDict, Replacement};
use ndlocr_lite_rs::postprocess::rule_pack::{LineReplacement, MergeRule, RulePack};

#[test]
fn apply_rule_pack_merges_and_replaces() {
    let pack = RulePack {
        line_replacements: vec![LineReplacement {
            from: "本拠約".to_string(),
            to: "本契約".to_string(),
        }],
        merge_rules: vec![MergeRule {
            left_suffix: "本契".to_string(),
            right_prefix: "約".to_string(),
            drop_right_prefix_chars: 0,
        }],
        collapse_duplicate_adjacent_lines: true,
    };
    let out = pack.apply(&[
        "以下「本契".to_string(),
        "約という。".to_string(),
        "A".to_string(),
        "A".to_string(),
        "本拠約".to_string(),
    ]);
    assert_eq!(
        out,
        vec![
            "以下「本契約という。".to_string(),
            "A".to_string(),
            "本契約".to_string()
        ]
    );
}

#[test]
fn empty_rule_pack_changes_nothing() {
    let pack = RulePack {
        line_replacements: vec![],
        merge_rules: vec![],
        collapse_duplicate_adjacent_lines: false,
    };
    let lines = vec!["A".to_string(), "A".to_string(), "b c".to_string()];
    assert_eq!(pack.apply(&lines), lines);
}

#[test]
fn merge_rule_drops_prefix_characters_of_right_line() {
    let pack = RulePack {
        line_replacements: vec![],
        merge_rules: vec![MergeRule {
            left_suffix: "株式".to_string(),
            right_prefix: "-会社".to_string(),
            drop_right_prefix_chars: 1,
        }],
        collapse_duplicate_adjacent_lines: false,
    };
    let out = pack.apply(&["東京株式".to_string(), "-会社です".to_string()]);
    assert_eq!(out, vec!["東京株式会社です".to_string()]);
}

#[test]
fn retain_non_empty_rules_drops_empty_patterns() {
    let mut pack = RulePack {
        line_replacements: vec![
            LineReplacement { from: "".to_string(), to: "x".to_string() },
            LineReplacement { from: "a".to_string(), to: "b".to_string() },
        ],
        merge_rules: vec![],
        collapse_duplicate_adjacent_lines: false,
    };
    pack.retain_non_empty_rules();
    assert_eq!(pack.line_replacements.len(), 1);
    assert_eq!(pack.apply(&["aa".to_string()]), vec!["bb".to_string()]);
}

#[test]
fn dictionary_replaces_in_order() {
    let dict = PostprocessDict {
        replacements: vec![
            Replacement { from: "秘蜜".to_string(), to: "秘密".to_string() },
            Replacement { from: "秘密".to_string(), to: "機密".to_string() },
        ],
    };
    assert_eq!(dict.apply("秘蜜保持"), "機密保持");
}

#[test]
fn empty_dictionary_keeps_text() {
    let dict = PostprocessDict { replacements: vec![] };
    assert_eq!(dict.apply("そのまま"), "そのまま");
}

#[test]
fn rule_pack_without_merges_replaces_line_by_line_and_default_changes_nothing() {
    let lines = vec![
        "甲乙 甲".to_string(),
        "".to_string(),
        "乙乙".to_string(),
        "乙乙".to_string(),
    ];
    let pack = RulePack {
        line_replacements: vec![
            LineReplacement { from: "甲".to_string(), to: "乙".to_string() },
            LineReplacement { from: "乙乙".to_string(), to: "丙".to_string() },
        ],
        merge_rules: vec![],
        collapse_duplicate_adjacent_lines: false,
    };
    let out = pack.apply(&lines);
    assert_eq!(out.len(), lines.len());
    for (o, l) in out.iter().zip(lines.iter()) {
        assert_eq!(o, &l.replace("甲", "乙").replace("乙乙", "丙"));
    }
    assert_eq!(RulePack::default().apply(&lines), lines);
    let collapsing = RulePack { collapse_duplicate_adjacent_lines: true, ..RulePack::default() };
    let collapsed = collapsing.apply(&lines);
    assert!(collapsed.len() <= lines.len());
    assert!(collapsed.windows(2).all(|w| w[0] != w[1]));
}
