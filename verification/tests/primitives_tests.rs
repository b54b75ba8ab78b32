use chunk_graph::code_gen::CodeGen;
use chunk_graph::code_gen::path_to;
use chunk_graph::code_gen::CodeGenerateableVc;
use chunk_graph::diagnostics::CapturedDiagnostics;
use chunk_graph::diagnostics::DiagnosticsVc;
use chunk_graph::primitives::BoolVc;
use chunk_graph::primitives::U64;
use chunk_graph::primitives::BoolVcsVc;
use chunk_graph::primitives::OptionStringVc;
use chunk_graph::primitives::StringVc;
use chunk_graph::primitives::StringsVc;
use chunk_graph::text::TextContentSourceAsset;
use chunk_graph::text::modifier;

#[test]
fn string_cell_empty() {
    assert_eq!(StringVc::empty().value, "");
}

#[test]
fn option_string_cell_none_and_default() {
    assert_eq!(OptionStringVc::none().value, None);
    assert_eq!(OptionStringVc::default().value, None);
}

#[test]
fn strings_cell_empty() {
    assert!(StringsVc::empty().value.is_empty());
}

#[test]
fn bool_cells_fold() {
    let empty = BoolVcsVc::empty();
    assert!(empty.all().value);
    assert!(!empty.any().value);

    let mixed = BoolVcsVc { value: vec![BoolVc { value: true }, BoolVc { value: false }] };
    assert_eq!(mixed.into_bools().value, vec![true, false]);
    assert!(!mixed.all().value);
    assert!(mixed.any().value);

    let all_true = BoolVcsVc { value: vec![BoolVc { value: true }, BoolVc { value: true }] };
    assert!(all_true.all().value);
}

#[test]
fn diagnostics_are_collected_in_order() {
    let mut sink = CapturedDiagnostics::new();
    let d1 = DiagnosticsVc {
        category: "build".to_string(),
        key: "first".to_string(),
        value: "1".to_string(),
    };
    let d2 = DiagnosticsVc {
        category: "build".to_string(),
        key: "second".to_string(),
        value: "2".to_string(),
    };
    d1.emit(&mut sink);
    d2.emit(&mut sink);
    assert_eq!(sink.diagnostics.len(), 2);
    assert_eq!(sink.diagnostics[0].key, "first");
    assert_eq!(sink.diagnostics[1].key, "second");
}

#[test]
fn text_content_source_asset_keeps_its_source() {
    assert_eq!(TextContentSourceAsset::new(12).source, 12);
    assert_eq!(modifier().value, "text content");
}

#[test]
fn code_gen_variants_compare_by_identity() {
    let a = CodeGen::CodeGenerateable(CodeGenerateableVc { id: 1 });
    let b = CodeGen::CodeGenerateable(CodeGenerateableVc { id: 1 });
    let c = CodeGen::CodeGenerateable(CodeGenerateableVc { id: 2 });
    assert_eq!(a, b);
    assert_ne!(a, c);
}

#[test]
fn json_value_prints_its_text() {
    let v: serde_json::Value = serde_json::from_str("{\"a\": 1}").unwrap();
    let cell = chunk_graph::primitives::JsonValue(v);
    assert_eq!(cell.to_string().value, "{\"a\":1}");
}

#[test]
fn regexes_compare_by_their_pattern() {
    let a = chunk_graph::primitives::RegexValue(regex::Regex::new("a+").unwrap());
    let b = chunk_graph::primitives::RegexValue(regex::Regex::new("a+").unwrap());
    let c = chunk_graph::primitives::RegexValue(regex::Regex::new("b+").unwrap());
    assert!(a == b);
    assert!(a != c);
}

#[test]
fn u64_prints_decimal() {
    assert_eq!(U64(0).to_string().value, "0");
    assert_eq!(U64(12034).to_string().value, "12034");
    assert_eq!(U64(u64::MAX).to_string().value, "18446744073709551615");
}

#[test]
fn path_to_truncates_before_the_last_match() {
    let path = vec![10u64, 11, 12, 13];
    // positions 1 and 2 match: the last match is position 2
    let is_match = vec![false, true, true, false];
    assert_eq!(path_to(&path, &is_match), vec![10, 11]);
}

#[test]
fn path_to_returns_the_whole_path_without_a_match() {
    let path = vec![10u64, 11, 12];
    let is_match = vec![false, false, false];
    assert_eq!(path_to(&path, &is_match), vec![10, 11, 12]);
}

#[test]
fn path_to_with_a_match_at_the_front_truncates_to_nothing() {
    let path = vec![10u64, 11];
    let is_match = vec![true, false];
    assert_eq!(path_to(&path, &is_match), Vec::<u64>::new());
}
