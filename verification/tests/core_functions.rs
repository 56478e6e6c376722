use lexicaforge::calculate_string_stats;
use lexicaforge::calculate_string_stats_bytes;
use lexicaforge::find_patterns;
use lexicaforge::levenshtein_distance;
use lexicaforge::normalize_string;
use lexicaforge::process_byte_batch;
use lexicaforge::process_text_batch;
use lexicaforge::tokenize;

#[test]
fn test_calculate_string_stats() {
    let text = "Hello, world!";
    let stats = calculate_string_stats(text).unwrap();

    assert_eq!(stats.char_count, 13);
    assert_eq!(stats.word_count, 2);
    assert_eq!(stats.unique_chars, 10);
    assert_eq!(stats.unique_words, 2);

    let expected_chars = [
        ('H', 1),
        ('e', 1),
        ('l', 3),
        ('o', 2),
        (',', 1),
        (' ', 1),
        ('w', 1),
        ('r', 1),
        ('d', 1),
        ('!', 1),
    ];
    for (c, n) in expected_chars {
        assert_eq!(stats.char_frequencies.get(c), Some(n));
    }
    assert_eq!(stats.char_frequencies.len(), 10);

    assert_eq!(stats.word_frequencies.get(&"Hello".to_string()), Some(1));
    assert_eq!(stats.word_frequencies.get(&"world".to_string()), Some(1));
    assert_eq!(stats.word_frequencies.len(), 2);
}

#[test]
fn test_levenshtein_distance() {
    assert_eq!(levenshtein_distance("kitten", "sitting"), 3);
    assert_eq!(levenshtein_distance("saturday", "sunday"), 3);
    assert_eq!(levenshtein_distance("", ""), 0);
    assert_eq!(levenshtein_distance("", "abc"), 3);
    assert_eq!(levenshtein_distance("abc", ""), 3);
}

#[test]
fn test_levenshtein_symmetry_and_identity() {
    assert_eq!(
        levenshtein_distance("kitten", "sitting"),
        levenshtein_distance("sitting", "kitten")
    );
    assert_eq!(levenshtein_distance("flaw", "lawn"), levenshtein_distance("lawn", "flaw"));
    assert_eq!(levenshtein_distance("same", "same"), 0);
}

#[test]
fn test_levenshtein_counts_scalars_not_bytes() {
    assert_eq!(levenshtein_distance("caf\u{e9}", "cafe"), 1);
    assert_eq!(levenshtein_distance("", "\u{fc}ber"), 4);
}

#[test]
fn test_normalize_string() {
    assert_eq!(normalize_string("Hello, World!"), "hello, world!");
    assert_eq!(normalize_string("caf\u{e9}"), "cafe");
    assert_eq!(normalize_string("\u{fc}ber"), "uber");
    assert_eq!(normalize_string(""), "");
}

#[test]
fn test_find_patterns() {
    let text = "The quick brown fox jumps over the lazy dog";
    let patterns = vec!["the".to_string(), "fox".to_string(), "dog".to_string()];

    let matches = find_patterns(text, patterns).unwrap();

    assert_eq!(matches.len(), 3);
    assert_eq!(matches.get(&"the".to_string()), Some(&vec![0usize, 31]));
    assert_eq!(matches.get(&"fox".to_string()), Some(&vec![16usize]));
    assert_eq!(matches.get(&"dog".to_string()), Some(&vec![40usize]));
}

#[test]
fn test_find_patterns_absent_and_empty() {
    let matches = find_patterns("abc", vec!["zz".to_string()]).unwrap();
    assert_eq!(matches.len(), 0);
    assert_eq!(matches.get(&"zz".to_string()), None);

    let empty = find_patterns("abc", Vec::new()).unwrap();
    assert_eq!(empty.len(), 0);
}

#[test]
fn test_find_patterns_character_offsets() {
    let matches = find_patterns("caf\u{e9} caf\u{e9}", vec!["caf".to_string()]).unwrap();
    assert_eq!(matches.get(&"caf".to_string()), Some(&vec![0usize, 5]));
}

#[test]
fn test_find_patterns_rejects_empty_pattern() {
    let r = find_patterns("abc", vec!["".to_string()]);
    assert!(matches!(r, Err(lexicaforge::LexicaError::ProcessingError)));
}

#[test]
fn test_find_patterns_nonoverlapping_ascending() {
    let matches = find_patterns("aaaa", vec!["aa".to_string()]).unwrap();
    assert_eq!(matches.get(&"aa".to_string()), Some(&vec![0usize, 2]));
}

#[test]
fn test_find_patterns_duplicates_share_a_key() {
    let matches = find_patterns("abab", vec!["ab".to_string(), "ab".to_string()]).unwrap();
    assert_eq!(matches.len(), 1);
    assert_eq!(matches.get(&"ab".to_string()), Some(&vec![0usize, 2]));
}

#[test]
fn test_normalize_drops_decomposed_marks() {
    assert_eq!(normalize_string("cafe\u{301}"), "cafe");
}

#[test]
fn test_process_text_batch() {
    let texts = vec![
        "Hello, world!".to_string(),
        "Testing 123".to_string(),
        "Another test".to_string(),
    ];

    let results = process_text_batch(texts);

    assert_eq!(results.len(), 3);
    assert_eq!(results[0].word_count, 2);
    assert_eq!(results[1].word_count, 2);
    assert_eq!(results[2].word_count, 2);
}

#[test]
fn test_byte_batch_drops_malformed() {
    let texts = vec![
        "Hello, world!".to_string().into_bytes(),
        vec![0xFFu8, 0xFF],
        "Another test".to_string().into_bytes(),
    ];
    let results = process_byte_batch(texts);
    assert_eq!(results.len(), 2);
    assert_eq!(results[0].char_count, 13);
    assert_eq!(results[1].word_count, 2);
}

#[test]
fn test_frequency_totals_match_counts() {
    let stats = calculate_string_stats("the cat and the hat and the rat").unwrap();
    let char_total: usize = stats.char_frequencies.entries.iter().map(|e| e.1).sum();
    let word_total: usize = stats.word_frequencies.entries.iter().map(|e| e.1).sum();
    assert_eq!(char_total, stats.char_count);
    assert_eq!(word_total, stats.word_count);
    assert_eq!(stats.word_frequencies.get(&"the".to_string()), Some(3));
    assert_eq!(stats.word_frequencies.get(&"and".to_string()), Some(2));
}

#[test]
fn test_stats_empty_text() {
    let stats = calculate_string_stats("").unwrap();
    assert_eq!(stats.char_count, 0);
    assert_eq!(stats.word_count, 0);
    assert_eq!(stats.unique_chars, 0);
    assert_eq!(stats.unique_words, 0);
}

#[test]
fn test_tokenize() {
    assert_eq!(
        tokenize("Hello, world!", ", "),
        vec!["Hello".to_string(), "world!".to_string()]
    );

    assert_eq!(
        tokenize("one-two-three", "-"),
        vec!["one".to_string(), "two".to_string(), "three".to_string()]
    );

    assert_eq!(tokenize("a.b.c", "."), vec!["a".to_string(), "b".to_string(), "c".to_string()]);

    assert_eq!(tokenize("", ","), Vec::<String>::new());
}

#[test]
fn test_tokenize_delimiter_runs() {
    assert_eq!(
        tokenize("--a--b--", "-"),
        vec!["a".to_string(), "b".to_string()]
    );
    assert_eq!(tokenize("---", "-"), Vec::<String>::new());
}

#[test]
fn test_frequency_merge_is_partition_independent() {
    let whole = calculate_string_stats("to be or not to be").unwrap();
    let left = calculate_string_stats("to be or ").unwrap();
    let right = calculate_string_stats("not to be").unwrap();

    for (c, n) in whole.char_frequencies.entries.iter() {
        let in_left = left.char_frequencies.get(*c).unwrap_or(0);
        let in_right = right.char_frequencies.get(*c).unwrap_or(0);
        assert_eq!(*n, in_left + in_right);
    }
    assert_eq!(whole.char_count, left.char_count + right.char_count);
    assert_eq!(whole.word_count, left.word_count + right.word_count);
}

#[test]
fn test_error_description() {
    assert_eq!(lexicaforge::LexicaError::InvalidUtf8.describe(), "Invalid UTF-8 sequence");
    assert_eq!(lexicaforge::LexicaError::ProcessingError.describe(), "Processing error");
}

#[test]
fn test_error_handling() {
    assert!(calculate_string_stats_bytes(&[0xFF, 0xFF]).is_err());
}

#[test]
fn test_stats_bytes_ok_on_valid_input() {
    let stats = calculate_string_stats_bytes("ok then".as_bytes()).unwrap();
    assert_eq!(stats.char_count, 7);
    assert_eq!(stats.word_count, 2);
}
