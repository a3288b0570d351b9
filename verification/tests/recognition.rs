use ndlocr_lite_rs::infer::deim::{
    clamp_box_to_image, default_ndl_classes, detection_class_index, source_pixel,
};
use ndlocr_lite_rs::infer::parseq::{
    charset_from_yaml, check_logits_shape, decode_indices, greedy_decode, load_charset_from_yaml_str, LogitsShapeError,
    sanitize_recognized_text, source_rgb, CharsetError, DecodeStep, YamlValue,
};
use ndlocr_lite_rs::infer::threads::{intra_threads, parse_usize, parseq_parallelism};

#[test]
fn decode_stops_at_end_token_and_skips_unknown_ids() {
    let charset = ['a', 'b', 'c'];
    assert_eq!(decode_indices(&[3, 1, -1, 5, 2, 0, 1], &charset), "cab");
    assert_eq!(decode_indices(&[], &charset), "");
}

#[test]
fn sanitize_squeezes_spaces_and_trims() {
    assert_eq!(sanitize_recognized_text("  abc   def  "), "abc def");
}

#[test]
fn sanitize_limits_runs() {
    assert_eq!(sanitize_recognized_text("11111111"), "1111");
    assert_eq!(sanitize_recognized_text("!!!!!"), "!!!");
    assert_eq!(sanitize_recognized_text("ああああああああああ"), "ああああ");
}

#[test]
fn sanitize_collapses_repeated_chunks_and_phrases() {
    assert_eq!(sanitize_recognized_text("abcabcabcabc"), "abcabc");
    assert_eq!(sanitize_recognized_text("本契約という。という。"), "本契約という。");
}

#[test]
fn sanitize_drops_unmatched_closing_brackets_and_fixes_confusions() {
    assert_eq!(sanitize_recognized_text("（テスト」"), "（テスト");
    assert_eq!(sanitize_recognized_text("調示する"), "開示する");
    assert_eq!(sanitize_recognized_text("単又は乙"), "甲又は乙");
}

fn text(s: &str) -> YamlValue {
    YamlValue::Text(s.to_string())
}

fn config(charset: YamlValue) -> YamlValue {
    YamlValue::Mapping(vec![(
        text("model"),
        YamlValue::Mapping(vec![(text("other"), YamlValue::Null), (text("charset_train"), charset)]),
    )])
}

#[test]
fn charset_reads_a_string() {
    assert_eq!(charset_from_yaml(&config(text("abc"))), Ok(vec!['a', 'b', 'c']));
}

#[test]
fn charset_reads_a_sequence_of_strings() {
    let seq = YamlValue::Sequence(vec![text("ab"), text("c")]);
    assert_eq!(charset_from_yaml(&config(seq)), Ok(vec!['a', 'b', 'c']));
    let tagged = YamlValue::Tagged("!chars".to_string(), Box::new(text("xy")));
    assert_eq!(charset_from_yaml(&config(tagged)), Ok(vec!['x', 'y']));
}

#[test]
fn charset_errors() {
    let bad_item = YamlValue::Sequence(vec![text("ab"), YamlValue::Number("1".to_string())]);
    assert_eq!(charset_from_yaml(&config(bad_item)), Err(CharsetError::NonStringItem));
    assert_eq!(charset_from_yaml(&config(YamlValue::Bool(true))), Err(CharsetError::WrongType));
    assert_eq!(charset_from_yaml(&YamlValue::Null), Err(CharsetError::Missing));
    assert_eq!(CharsetError::Missing.message(), "model.charset_train is missing");
}

#[test]
fn source_rgb_reads_the_rotated_view() {
    // 3 x 2 image, pixel (x, y) holds [10y + x, 0, 1].
    let mut rgb = Vec::new();
    for y in 0..2u8 {
        for x in 0..3u8 {
            rgb.extend_from_slice(&[10 * y + x, 0, 1]);
        }
    }
    assert_eq!(source_rgb(&rgb, 3, 2, false, 2, 1), [12, 0, 1]);
    // Rotated view pixel (x, y) is image pixel (width - 1 - y, x).
    assert_eq!(source_rgb(&rgb, 3, 2, true, 1, 0), [12, 0, 1]);
    assert_eq!(source_rgb(&rgb, 3, 2, true, 0, 2), [0, 0, 1]);
}

#[test]
fn ndl_classes_are_in_label_order() {
    let classes = default_ndl_classes();
    assert_eq!(classes.len(), 17);
    assert_eq!(classes[1], "line_main");
    assert_eq!(classes[16], "line_title");
    assert_eq!(detection_class_index(2, 17), Some(1));
    assert_eq!(detection_class_index(0, 17), None);
    assert_eq!(detection_class_index(18, 17), None);
}

#[test]
fn detected_boxes_are_clamped_to_the_image() {
    assert_eq!(clamp_box_to_image([-5, 3, 120, 50], 100, 40), Some([0, 3, 100, 40]));
    assert_eq!(clamp_box_to_image([50, 10, 40, 20], 100, 40), None);
}

#[test]
fn model_pixels_map_to_the_padded_image() {
    // A 100 x 50 image padded to 100 x 100 and scaled to 10 x 10.
    assert_eq!(source_pixel(3, 2, 100, 50, 10, 10), Some((30, 20)));
    assert_eq!(source_pixel(3, 7, 100, 50, 10, 10), None);
}

#[test]
fn usize_parsing_follows_str_parse() {
    assert_eq!(parse_usize("+12"), Some(12));
    assert_eq!(parse_usize("007"), Some(7));
    assert_eq!(parse_usize(""), None);
    assert_eq!(parse_usize("+"), None);
    assert_eq!(parse_usize("-1"), None);
    assert_eq!(parse_usize("1 "), None);
    assert_eq!(parse_usize("18446744073709551616"), None);
    assert_eq!(parse_usize("18446744073709551615"), Some(usize::MAX));
}

/// Machine sizes the thread-count tests run over, with an unknown one.
const MACHINES: [Option<usize>; 6] = [None, Some(1), Some(4), Some(8), Some(16), Some(64)];

#[test]
fn env_override_takes_precedence() {
    for cpus in MACHINES {
        assert_eq!(intra_threads(Some("3"), cpus, 4), 3);
        assert_eq!(intra_threads(Some("3"), cpus, 1), 3);
    }
}

#[test]
fn env_override_clamps_to_sane_range() {
    for cpus in MACHINES {
        assert_eq!(intra_threads(Some("0"), cpus, 4), 1);
        assert_eq!(intra_threads(Some("999"), cpus, 4), 32);
    }
}

#[test]
fn env_override_invalid_falls_back_to_auto() {
    for cpus in MACHINES {
        let n = intra_threads(Some("not-a-number"), cpus, 1);
        assert!((1..=8).contains(&n), "auto fallback should be in [1,8], got {n}");
        assert_eq!(n, intra_threads(None, cpus, 1));
    }
}

#[test]
fn pool_zero_is_treated_as_one() {
    for cpus in MACHINES {
        assert_eq!(intra_threads(None, cpus, 0), intra_threads(None, cpus, 1), "pool=0 should be coerced to pool=1");
    }
}

#[test]
fn intra_clamps_to_8_on_huge_machines() {
    for cpus in MACHINES {
        let n = intra_threads(None, cpus, 1);
        assert!(n <= 8, "intra should be clamped to <=8, got {n}");
    }
    assert_eq!(intra_threads(None, Some(64), 1), 8);
}

#[test]
fn intra_at_least_1_for_huge_pool() {
    for cpus in MACHINES {
        assert_eq!(intra_threads(None, cpus, usize::MAX), 1);
        assert_eq!(intra_threads(None, cpus, 1024), 1);
    }
}

#[test]
fn intra_threads_override_is_clamped() {
    assert_eq!(intra_threads(Some("3"), Some(16), 4), 3);
    assert_eq!(intra_threads(Some("3"), Some(16), 1), 3);
    assert_eq!(intra_threads(Some("0"), Some(16), 4), 1);
    assert_eq!(intra_threads(Some("999"), Some(16), 4), 32);
}

#[test]
fn intra_threads_share_the_cpus() {
    assert_eq!(intra_threads(Some("not-a-number"), Some(16), 4), 4);
    assert_eq!(intra_threads(None, Some(64), 1), 8);
    assert_eq!(intra_threads(None, Some(8), 0), intra_threads(None, Some(8), 1));
    assert_eq!(intra_threads(None, None, 1), 2);
    assert_eq!(intra_threads(None, Some(4), usize::MAX), 1);
    assert_eq!(intra_threads(None, Some(4), 1024), 1);
}

#[test]
fn parseq_parallelism_defaults_to_one() {
    assert_eq!(parseq_parallelism(None), 1);
    assert_eq!(parseq_parallelism(Some("x")), 1);
    assert_eq!(parseq_parallelism(Some("9")), 4);
    assert_eq!(parseq_parallelism(Some("2")), 2);
}

fn step(class: usize, low_confidence: bool) -> DecodeStep {
    DecodeStep { class, low_confidence }
}

#[test]
fn greedy_decoding_stops_at_the_end_class() {
    let charset = ['a', 'b', 'c'];
    let (taken, text) = greedy_decode(&[step(1, false), step(3, false), step(0, false), step(2, false)], &charset);
    assert_eq!(taken, vec![0, 1]);
    assert_eq!(text, "ac");
}

#[test]
fn greedy_decoding_stops_at_low_confidence_after_two_characters() {
    let charset = ['a', 'b', 'c'];
    // Low confidence before two characters were read does not stop decoding.
    let (taken, text) = greedy_decode(
        &[step(1, true), step(2, true), step(3, true), step(1, false)],
        &charset,
    );
    assert_eq!(taken, vec![0, 1]);
    assert_eq!(text, "ab");
}

#[test]
fn greedy_decoding_skips_classes_past_the_charset() {
    let charset = ['a', 'b'];
    // A skipped class does not count towards the two characters.
    let (taken, text) = greedy_decode(
        &[step(1, false), step(9, true), step(2, true), step(1, true)],
        &charset,
    );
    assert_eq!(taken, vec![0, 2]);
    assert_eq!(text, "ab");
    let (taken, text) = greedy_decode(&[], &charset);
    assert!(taken.is_empty());
    assert_eq!(text, "");
}

#[test]
fn charset_is_read_from_yaml_text() {
    assert_eq!(load_charset_from_yaml_str("model:\n  charset_train: abc\n"), Ok(vec!['a', 'b', 'c']));
    assert_eq!(
        load_charset_from_yaml_str("model:\n  charset_train:\n    - ab\n    - c\n"),
        Ok(vec!['a', 'b', 'c'])
    );
    assert_eq!(load_charset_from_yaml_str("model:\n  other: 1\n"), Err(CharsetError::Missing));
    assert_eq!(
        load_charset_from_yaml_str("model:\n  charset_train:\n    - ab\n    - 3\n"),
        Err(CharsetError::NonStringItem)
    );
    assert_eq!(load_charset_from_yaml_str("model:\n  charset_train: 3\n"), Err(CharsetError::WrongType));
    let parser_message = serde_yaml::from_str::<serde_yaml::Value>("model: [unclosed\n")
        .unwrap_err()
        .to_string();
    let err = load_charset_from_yaml_str("model: [unclosed\n").unwrap_err();
    assert_eq!(err, CharsetError::Parse(parser_message.clone()));
    assert_eq!(err.message(), parser_message);
}

fn closing_brackets_all_match(s: &str) -> bool {
    let mut stack: Vec<char> = Vec::new();
    for c in s.chars() {
        let open = match c {
            ')' => Some('('),
            '）' => Some('（'),
            '」' => Some('「'),
            '』' => Some('『'),
            '】' => Some('【'),
            _ => None,
        };
        if matches!(c, '(' | '（' | '「' | '『' | '【') {
            stack.push(c);
        } else if let Some(o) = open {
            if stack.last() != Some(&o) {
                return false;
            }
            stack.pop();
        }
    }
    true
}

#[test]
fn sanitized_text_is_never_longer_and_keeps_only_plain_spaces_and_matched_brackets() {
    let inputs = [
        "（本文）)」\t\u{3000}終わり】",
        "a\u{2003}\u{2003}b\n\nc",
        "【見出し】』』 「引用」）",
        "",
        "\t \u{3000}",
    ];
    for input in inputs {
        let out = sanitize_recognized_text(input);
        assert!(out.chars().count() <= input.chars().count(), "{input:?} -> {out:?}");
        assert!(out.chars().all(|c| !c.is_whitespace() || c == ' '), "{input:?} -> {out:?}");
        assert!(closing_brackets_all_match(&out), "{input:?} -> {out:?}");
    }
}

#[test]
fn logits_shape_is_checked_before_decoding() {
    assert_eq!(check_logits_shape(12, 3, 4), Ok(()));
    assert_eq!(check_logits_shape(20, 3, 4), Ok(()));
    assert_eq!(check_logits_shape(11, 3, 4), Err(LogitsShapeError::TooShort));
    assert_eq!(check_logits_shape(11, 0, 4), Err(LogitsShapeError::EmptyShape));
    assert_eq!(check_logits_shape(11, 3, 0), Err(LogitsShapeError::EmptyShape));
    assert_eq!(check_logits_shape(usize::MAX, usize::MAX, 2), Err(LogitsShapeError::ShapeOverflow));
    assert_eq!(LogitsShapeError::TooShort.message(), "flat logits length is shorter than shape");
    assert_eq!(LogitsShapeError::EmptyShape.message(), "timesteps/classes must be > 0");
    assert_eq!(LogitsShapeError::ShapeOverflow.message(), "logits shape overflow");
}
