//! Texts: stages, labels, CSV fields, base64, picker lines.
use pytorch_trace_tui::clipboard::base64_encode;
use pytorch_trace_tui::labels::shorten_labels;
use pytorch_trace_tui::picker::parse_selection;
use pytorch_trace_tui::stage::stage_for_annotation_name;
use pytorch_trace_tui::text::csv_escape;

#[test]
fn test_csv_escape_quotes_commas_and_quotes() {
    assert_eq!(csv_escape("plain"), "plain");
    assert_eq!(csv_escape("[32,1,1]"), "\"[32,1,1]\"");
    assert_eq!(csv_escape("a\"b"), "\"a\"\"b\"");
    assert_eq!(csv_escape("line\nbreak"), "\"line\nbreak\"");
}

#[test]
fn test_stage_prefill() {
    assert_eq!(stage_for_annotation_name("execute_context_1(5)_generation_0(0)"), "prefill");
}

#[test]
fn test_stage_decode() {
    assert_eq!(stage_for_annotation_name("execute_context_0(0)_generation_1(1)"), "decode");
}

#[test]
fn test_stage_mixed() {
    assert_eq!(stage_for_annotation_name("execute_context_2(8)_generation_3(3)"), "mixed");
}

#[test]
fn test_stage_none_on_nccl() {
    assert_eq!(stage_for_annotation_name("nccl:_all_gather_base"), "");
}

#[test]
fn test_stage_none_on_garbage() {
    assert_eq!(stage_for_annotation_name("execute_context_x(0)"), "");
    assert_eq!(stage_for_annotation_name(""), "");
    assert_eq!(stage_for_annotation_name("execute_context_1(5)"), "");
}

#[test]
fn test_stage_detailed_form() {
    assert_eq!(
        stage_for_annotation_name(
            "execute_9_context_1(sq4sk10sqsq0sqsk0)_generation_0(sq0sk0sqsq0sqsk0)"
        ),
        "prefill"
    );
    assert_eq!(
        stage_for_annotation_name(
            "execute_5_context_0(sq0sk0sqsq0sqsk0)_generation_5(sq5sk20sqsq0sqsk0)"
        ),
        "decode"
    );
}

#[test]
fn test_short_labels_strip_common_prefix_and_suffix() {
    let labels = vec![
        "resnet_baseline.pt.trace.json".to_string(),
        "resnet_tuned.pt.trace.json".to_string(),
    ];
    assert_eq!(shorten_labels(&labels), vec!["baseline", "tuned"]);
}

#[test]
fn test_short_labels_prefix_only() {
    let labels = vec!["run_a".to_string(), "run_bb".to_string()];
    assert_eq!(shorten_labels(&labels), vec!["a", "bb"]);
}

#[test]
fn test_short_labels_identical_fall_back_to_index() {
    let labels = vec!["same.json".to_string(), "same.json".to_string()];
    assert_eq!(shorten_labels(&labels), vec!["T0", "T1"]);
}

#[test]
fn test_short_labels_single_unchanged() {
    let labels = vec!["only_one.json".to_string()];
    assert_eq!(shorten_labels(&labels), vec!["only_one.json"]);
}

#[test]
fn test_short_labels_empty_diff_falls_back_to_index() {
    // Common prefix "a" + suffix "c" would leave one empty -> index fallback.
    let labels = vec!["ac".to_string(), "abc".to_string()];
    assert_eq!(shorten_labels(&labels), vec!["T0", "T1"]);
}

#[test]
fn base64_matches_known_vectors() {
    assert_eq!(base64_encode(b""), "");
    assert_eq!(base64_encode(b"f"), "Zg==");
    assert_eq!(base64_encode(b"fo"), "Zm8=");
    assert_eq!(base64_encode(b"foo"), "Zm9v");
    assert_eq!(base64_encode(b"foob"), "Zm9vYg==");
    assert_eq!(base64_encode(b"fooba"), "Zm9vYmE=");
    assert_eq!(base64_encode(b"foobar"), "Zm9vYmFy");
}

#[test]
fn single_number() {
    assert_eq!(parse_selection("2", 5).unwrap(), Some(vec![2]));
}

#[test]
fn space_separated_multi() {
    assert_eq!(parse_selection("1 3", 5).unwrap(), Some(vec![1, 3]));
}

#[test]
fn comma_separated_multi() {
    assert_eq!(parse_selection("2,4,5", 5).unwrap(), Some(vec![2, 4, 5]));
}

#[test]
fn mixed_separators_and_spacing() {
    assert_eq!(parse_selection(" 2, 4 5 ", 5).unwrap(), Some(vec![2, 4, 5]));
}

#[test]
fn quit_and_empty_return_none() {
    assert_eq!(parse_selection("q", 5).unwrap(), None);
    assert_eq!(parse_selection("Q", 5).unwrap(), None);
    assert_eq!(parse_selection("", 5).unwrap(), None);
    assert_eq!(parse_selection("   ", 5).unwrap(), None);
}

#[test]
fn out_of_range_is_error() {
    assert!(parse_selection("0", 5).is_err());
    assert!(parse_selection("6", 5).is_err());
    assert!(parse_selection("1 9", 5).is_err());
}

#[test]
fn non_numeric_is_error() {
    assert!(parse_selection("1 x", 5).is_err());
    assert!(parse_selection("abc", 5).is_err());
}

#[test]
fn duplicates_preserved_in_order() {
    assert_eq!(parse_selection("3 1 3", 5).unwrap(), Some(vec![3, 1, 3]));
}

/// Reads the fields of one CSV line.
fn fields(line: &str) -> Vec<String> {
    let mut out = vec![String::new()];
    let mut quoted = false;
    let mut chars = line.chars().peekable();
    while let Some(c) = chars.next() {
        match c {
            '"' if quoted && chars.peek() == Some(&'"') => {
                chars.next();
                out.last_mut().unwrap().push('"');
            }
            '"' => quoted = !quoted,
            ',' if !quoted => out.push(String::new()),
            _ => out.last_mut().unwrap().push(c),
        }
    }
    out
}

#[test]
fn escaped_fields_are_read_back() {
    let given = ["", "plain", "a,b", "\"", "\"\"", "a\"b,c", "line\nbreak", ",\r\""];
    let line: Vec<String> = given.iter().map(|f| csv_escape(f)).collect();
    assert_eq!(fields(&line.join(",")), given);
}

#[test]
fn different_bytes_have_different_base64() {
    let inputs: Vec<Vec<u8>> = vec![
        vec![],
        vec![0],
        vec![0, 0],
        vec![0, 0, 0],
        vec![0, 0, 0, 0],
        vec![255, 254],
        vec![255, 255],
        vec![251, 240],
    ];
    for (i, a) in inputs.iter().enumerate() {
        for b in &inputs[i + 1..] {
            assert_ne!(base64_encode(a), base64_encode(b));
        }
    }
}

#[test]
fn stage_counts_beyond_sixty_four_bits_are_no_stage() {
    assert_eq!(
        stage_for_annotation_name("execute_context_99999999999999999999(1)_generation_0(0)"),
        ""
    );
    assert_eq!(
        stage_for_annotation_name("execute_context_18446744073709551615(1)_generation_0(0)"),
        "prefill"
    );
    assert_eq!(stage_for_annotation_name("execute_x_context_1(5)_generation_0(0)"), "");
    assert_eq!(stage_for_annotation_name("execute_context_0(0)_generation_0(0)"), "");
}

#[test]
fn three_labels_are_shortened_together() {
    let labels: Vec<String> =
        ["a_one.json", "a_two.json", "a_three.json"].iter().map(|s| s.to_string()).collect();
    assert_eq!(shorten_labels(&labels), vec!["one", "two", "three"]);
    assert!(shorten_labels(&[]).is_empty());
}

#[test]
fn names_in_neither_form_have_no_stage() {
    for name in [
        "execute_context_1_generation_0",
        "execute_context_1(5_generation_0(0)",
        "execute_context_1(5)_generation_0(0",
        "execute_context_1(5)_generation_0",
        "execute_context_1(5)_generation_0(0) tail",
        "execute_context_1(5)x_generation_0(0)",
        "execute_context_1(5)_generation_(0)",
        "execute__context_1(5)_generation_0(0)",
        "execute_x_context_1(5)_generation_0(0)",
        "execute_context_(5)_generation_0(0)",
    ] {
        assert_eq!(stage_for_annotation_name(name), "", "{name}");
    }
    assert_eq!(stage_for_annotation_name("execute_context_1(5 of 9)_generation_0()"), "prefill");
    assert_eq!(stage_for_annotation_name("execute_7_context_1(a)_generation_0(b)"), "prefill");
    assert_eq!(stage_for_annotation_name("execute_7_context_3(a)_generation_4(b)"), "mixed");
}
