use lexicaforge::MorphemeKind;
use lexicaforge::RustParser;

fn table(entries: &[(&str, &str)]) -> Vec<(String, String)> {
    entries.iter().map(|(k, v)| (k.to_string(), v.to_string())).collect()
}

#[test]
fn test_process_single_word_affixes() {
    let mut parser = RustParser::new();
    parser.initialize_patterns(table(&[("un", "not")]), table(&[("ing", "continuous")]));

    let parsed = parser.process_single_word("unbuilding");
    assert_eq!(parsed.original, "unbuilding");
    assert_eq!(parsed.normalized, "unbuilding");
    assert_eq!(parsed.confidence_hundredths, 81);
    assert_eq!(parsed.morphemes.len(), 3);

    assert_eq!(parsed.morphemes[0].text, "un");
    assert_eq!(parsed.morphemes[0].kind, MorphemeKind::Prefix);
    assert_eq!(parsed.morphemes[0].position, 0);
    assert_eq!(parsed.morphemes[0].length, 2);

    assert_eq!(parsed.morphemes[1].text, "build");
    assert_eq!(parsed.morphemes[1].kind, MorphemeKind::Root);
    assert_eq!(parsed.morphemes[1].position, 2);
    assert_eq!(parsed.morphemes[1].length, 5);

    assert_eq!(parsed.morphemes[2].text, "ing");
    assert_eq!(parsed.morphemes[2].kind, MorphemeKind::Suffix);
    assert_eq!(parsed.morphemes[2].position, 7);
    assert_eq!(parsed.morphemes[2].length, 3);
}

#[test]
fn test_process_lowercases_input() {
    let mut parser = RustParser::new();
    parser.initialize_patterns(table(&[("un", "not")]), table(&[]));

    let parsed = parser.process_single_word("UNdone");
    assert_eq!(parsed.original, "UNdone");
    assert_eq!(parsed.normalized, "undone");
    assert_eq!(parsed.confidence_hundredths, 90);
    assert_eq!(parsed.morphemes.len(), 2);
    assert_eq!(parsed.morphemes[0].kind, MorphemeKind::Prefix);
    assert_eq!(parsed.morphemes[1].text, "done");
    assert_eq!(parsed.morphemes[1].kind, MorphemeKind::Root);
}

#[test]
fn test_process_no_match_is_all_root() {
    let mut parser = RustParser::new();
    parser.initialize_patterns(table(&[("un", "not")]), table(&[("ing", "continuous")]));

    let parsed = parser.process_single_word("cat");
    assert_eq!(parsed.confidence_hundredths, 100);
    assert_eq!(parsed.morphemes.len(), 1);
    assert_eq!(parsed.morphemes[0].kind, MorphemeKind::Root);
    assert_eq!(parsed.morphemes[0].text, "cat");
    assert_eq!(parsed.morphemes[0].position, 0);
    assert_eq!(parsed.morphemes[0].length, 3);
}

#[test]
fn test_process_affixes_consume_whole_word() {
    let mut parser = RustParser::new();
    parser.initialize_patterns(table(&[("un", "not")]), table(&[("ding", "noise")]));

    let parsed = parser.process_single_word("unding");
    assert_eq!(parsed.confidence_hundredths, 81);
    assert_eq!(parsed.morphemes.len(), 2);
    assert_eq!(parsed.morphemes[0].kind, MorphemeKind::Prefix);
    assert_eq!(parsed.morphemes[1].kind, MorphemeKind::Suffix);
    assert_eq!(parsed.morphemes[1].position, 2);
    assert_eq!(parsed.morphemes[1].length, 4);
}

#[test]
fn test_process_empty_word() {
    let parser = RustParser::new();
    let parsed = parser.process_single_word("");
    assert_eq!(parsed.original, "");
    assert_eq!(parsed.normalized, "");
    assert_eq!(parsed.morphemes.len(), 0);
    assert_eq!(parsed.confidence_hundredths, 100);
}

#[test]
fn test_first_match_in_table_order_wins() {
    let mut parser = RustParser::new();
    parser.initialize_patterns(table(&[("re", "again"), ("redo", "again-do")]), table(&[]));

    let parsed = parser.process_single_word("redoing");
    assert_eq!(parsed.morphemes[0].text, "re");
    assert_eq!(parsed.morphemes[0].length, 2);
}

#[test]
fn test_initialize_patterns_replaces_tables() {
    let mut parser = RustParser::new();
    parser.initialize_patterns(table(&[("un", "not")]), table(&[]));
    parser.initialize_patterns(table(&[("re", "again")]), table(&[]));

    let parsed = parser.process_single_word("unreal");
    assert_eq!(parsed.confidence_hundredths, 100);
    assert_eq!(parsed.morphemes.len(), 1);
    assert_eq!(parsed.morphemes[0].kind, MorphemeKind::Root);
}

#[test]
fn test_batch_process_order_preserving() {
    let mut parser = RustParser::new();
    parser.initialize_patterns(table(&[("un", "not")]), table(&[("ing", "continuous")]));

    let words = vec!["unbuilding".to_string(), "cat".to_string(), "sing".to_string()];
    let results = parser.batch_process(&words);
    assert_eq!(results.len(), 3);
    assert_eq!(results[0].original, "unbuilding");
    assert_eq!(results[0].confidence_hundredths, 81);
    assert_eq!(results[1].original, "cat");
    assert_eq!(results[1].confidence_hundredths, 100);
    assert_eq!(results[2].original, "sing");
    assert_eq!(results[2].confidence_hundredths, 90);
}
