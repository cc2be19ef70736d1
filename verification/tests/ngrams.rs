use std::collections::BTreeMap;

use ngrams::accum::Accumulator;
use ngrams::decode::decode_utf8_bytes;

fn accumulate(input: &str, n: usize, include_whitespace: bool) -> Accumulator {
    let chars: Vec<char> = input.chars().collect();
    let mut acc = Accumulator::new(n, include_whitespace);
    acc.process_all(&chars);
    acc
}

fn table_map(entries: &[(String, usize)]) -> BTreeMap<String, usize> {
    entries.iter().cloned().collect()
}

fn expected(pairs: &[(&str, usize)]) -> BTreeMap<String, usize> {
    pairs.iter().map(|(s, c)| (s.to_string(), *c)).collect()
}

#[test]
fn scenario_aab_bigrams() {
    let acc = accumulate("aab", 2, true);
    let tables = acc.all_tables();
    assert_eq!(tables.len(), 2);
    assert_eq!(table_map(&tables[0]), expected(&[("a", 2), ("b", 1)]));
    assert_eq!(table_map(&tables[1]), expected(&[("aa", 1), ("ab", 1)]));
}

#[test]
fn scenario_space_excluded() {
    let acc = accumulate("a b", 2, false);
    let tables = acc.all_tables();
    assert_eq!(table_map(&tables[0]), expected(&[("a", 1), ("b", 1)]));
    assert_eq!(table_map(&tables[1]), expected(&[]));
}

#[test]
fn scenario_space_included() {
    let acc = accumulate("a b", 2, true);
    let tables = acc.all_tables();
    assert_eq!(table_map(&tables[0]), expected(&[("a", 1), (" ", 1), ("b", 1)]));
    assert_eq!(table_map(&tables[1]), expected(&[("a ", 1), (" b", 1)]));
}

#[test]
fn empty_input_gives_empty_tables() {
    let acc = accumulate("", 3, false);
    let tables = acc.all_tables();
    assert_eq!(tables.len(), 3);
    for table in &tables {
        assert!(table.is_empty());
    }
    assert_eq!(acc.total(), 0);
    assert!(acc.ranked().is_empty());
}

#[test]
fn table_sums_equal_eligible_windows() {
    // "abcd", N=3: 4 unigrams, 3 bigrams, 2 trigrams are eligible.
    let acc = accumulate("abcd", 3, false);
    let tables = acc.all_tables();
    let sums: Vec<usize> = tables.iter().map(|t| t.iter().map(|(_, c)| *c).sum()).collect();
    assert_eq!(sums, vec![4, 3, 2]);
    assert_eq!(acc.total(), 2);
    // the ranked listing of the full-length table carries the same total
    let ranked_sum: usize = acc.ranked().iter().map(|(_, c)| *c).sum();
    assert_eq!(ranked_sum, acc.total());
}

#[test]
fn excluding_whitespace_never_increases_totals() {
    let input = "the quick brown fox jumps over the lazy dog";
    for n in 1..=3 {
        let with_ws = accumulate(input, n, true);
        let without_ws = accumulate(input, n, false);
        let tw = with_ws.all_tables();
        let to = without_ws.all_tables();
        for k in 0..n {
            let sum_with: usize = tw[k].iter().map(|(_, c)| *c).sum();
            let sum_without: usize = to[k].iter().map(|(_, c)| *c).sum();
            assert!(sum_without <= sum_with);
        }
    }
}

#[test]
fn ranked_is_sorted_with_lexicographic_ties() {
    // counts: b:3, a:2, c:2 -> b first, then a before c (tie on 2)
    let acc = accumulate("bbbaacc", 1, false);
    let ranked = acc.ranked();
    let listed: Vec<(String, usize)> = ranked.clone();
    assert_eq!(
        listed,
        vec![("b".to_string(), 3), ("a".to_string(), 2), ("c".to_string(), 2)]
    );
}

#[test]
fn ranked_orders_by_descending_count() {
    let acc = accumulate("aabab", 2, false);
    // bigrams: "aa":1, "ab":2, "ba":1
    let ranked = acc.ranked();
    assert_eq!(ranked[0], ("ab".to_string(), 2));
    let rest: BTreeMap<String, usize> = ranked[1..].iter().cloned().collect();
    assert_eq!(rest, expected(&[("aa", 1), ("ba", 1)]));
    for w in ranked.windows(2) {
        assert!(w[0].1 >= w[1].1);
        if w[0].1 == w[1].1 {
            assert!(w[0].0 < w[1].0);
        }
    }
}

#[test]
fn history_is_bounded_by_n() {
    // windows never span more than n characters; check against a by-hand count
    let acc = accumulate("abcabc", 2, false);
    let tables = acc.all_tables();
    assert_eq!(
        table_map(&tables[1]),
        expected(&[("ab", 2), ("bc", 2), ("ca", 1)])
    );
}

#[test]
fn unicode_windows_count_code_points() {
    let acc = accumulate("ééß", 2, true);
    let tables = acc.all_tables();
    assert_eq!(table_map(&tables[0]), expected(&[("é", 2), ("ß", 1)]));
    assert_eq!(table_map(&tables[1]), expected(&[("éé", 1), ("éß", 1)]));
}

#[test]
fn unicode_whitespace_is_excluded() {
    // U+00A0 NO-BREAK SPACE has the Unicode White_Space property
    let acc = accumulate("a\u{00a0}b", 2, false);
    let tables = acc.all_tables();
    assert_eq!(table_map(&tables[0]), expected(&[("a", 1), ("b", 1)]));
    assert_eq!(table_map(&tables[1]), expected(&[]));
}

#[test]
fn fractions_and_percentages_sum_to_one() {
    let acc = accumulate("the quick brown fox jumps over the lazy dog", 2, false);
    let total = acc.total();
    let ranked = acc.ranked();
    assert!(total > 0);
    let frac_sum: f32 = ranked.iter().map(|(_, c)| *c as f32 / total as f32).sum();
    assert!((frac_sum - 1.0).abs() < 1e-4);
    let pct_sum: f32 = ranked.iter().map(|(_, c)| 100.0 * *c as f32 / total as f32).sum();
    assert!((pct_sum - 100.0).abs() < 1e-2);
}

#[test]
fn structured_form_round_trips() {
    let acc = accumulate("abracadabra", 3, false);
    let tables = acc.all_tables();
    let maps: Vec<BTreeMap<String, usize>> =
        tables.iter().map(|t| t.iter().cloned().collect()).collect();
    let text = serde_json::to_string_pretty(&maps).unwrap();
    let parsed: Vec<BTreeMap<String, usize>> = serde_json::from_str(&text).unwrap();
    assert_eq!(parsed, maps);
    // the parsed document reproduces exactly the in-memory counts
    assert_eq!(parsed.len(), tables.len());
    for (k, table) in tables.iter().enumerate() {
        assert_eq!(parsed[k].len(), table.len());
        for (gram, count) in table {
            assert_eq!(parsed[k].get(gram), Some(count));
        }
    }
}

#[test]
fn decoding_valid_utf8() {
    let bytes: Vec<u8> = "h\u{e9}\u{3bb}\u{1f600}".bytes().collect();
    let chars = decode_utf8_bytes(&bytes).unwrap();
    assert_eq!(chars, vec!['h', '\u{e9}', '\u{3bb}', '\u{1f600}']);
}

#[test]
fn decoding_error_on_malformed_byte() {
    let bytes: Vec<u8> = vec![0x61, 0x62, 0xff, 0x63];
    let err = decode_utf8_bytes(&bytes).unwrap_err();
    assert_eq!(err.pos, 2);
}

#[test]
fn decoding_error_on_truncated_sequence() {
    let bytes: Vec<u8> = vec![0x61, 0xc3];
    let err = decode_utf8_bytes(&bytes).unwrap_err();
    assert_eq!(err.pos, 1);
}

#[test]
fn decoding_error_on_overlong_encoding() {
    let bytes: Vec<u8> = vec![0xc0, 0xaf];
    let err = decode_utf8_bytes(&bytes).unwrap_err();
    assert_eq!(err.pos, 0);
}

#[test]
fn decoding_error_on_surrogate() {
    let bytes: Vec<u8> = vec![0xed, 0xa0, 0x80];
    let err = decode_utf8_bytes(&bytes).unwrap_err();
    assert_eq!(err.pos, 0);
}

#[test]
fn decoding_empty_input() {
    let bytes: Vec<u8> = Vec::new();
    let chars = decode_utf8_bytes(&bytes).unwrap();
    assert!(chars.is_empty());
}

#[test]
fn first_character_only_forms_unigram() {
    let acc = accumulate("a", 3, false);
    let tables = acc.all_tables();
    assert_eq!(table_map(&tables[0]), expected(&[("a", 1)]));
    assert_eq!(table_map(&tables[1]), expected(&[]));
    assert_eq!(table_map(&tables[2]), expected(&[]));
}
