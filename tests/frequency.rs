use jmdict_for_yomichan::stats::{get_freq_stats, get_popularity, FrequencyTable, StatsError};
use jmdict_for_yomichan::word_frequency::{parse_frequency_input, WordFrequency};

const SAMPLE: &str = "1000310 36.9 あかし[あかし]\n1000300\t52 遇う[あしらう]\n1000300 51 配う[あしらう]\n1000225  7.25 x[y] extra\n";

#[test]
fn parse_frequency_lines() {
    let records = parse_frequency_input(SAMPLE.as_bytes()).unwrap();
    let got: Vec<(u32, i64, String, String)> = records
        .iter()
        .map(|w| (w.ent_seq, w.popularity, w.term.clone(), w.reading.clone()))
        .collect();
    assert_eq!(
        got,
        vec![
            (1000310, 36_900000, "あかし".to_string(), "あかし".to_string()),
            (1000300, 52_000000, "遇う".to_string(), "あしらう".to_string()),
            (1000300, 51_000000, "配う".to_string(), "あしらう".to_string()),
            (1000225, 7_250000, "x".to_string(), "y".to_string()),
        ]
    );
    assert_eq!(parse_frequency_input(b"").unwrap().len(), 0);
    let neg = parse_frequency_input(b"5 -0.5 a[b]\n").unwrap();
    assert_eq!(neg[0].popularity, -500000);
}

#[test]
fn malformed_frequency_lines() {
    let e = parse_frequency_input(b"1 2 a[b]\n1 2 a[b]").unwrap_err();
    assert_eq!((e.line, e.text.clone()), (2, b"1 2 a[b]".to_vec()));
    let e = parse_frequency_input(b"1 2 a[b]\nx 2 a[b]\n").unwrap_err();
    assert_eq!(e.line, 2);
    let e = parse_frequency_input(b"1 2 ab]\n").unwrap_err();
    assert_eq!((e.line, e.text), (1, b"1 2 ab]".to_vec()));
    assert!(parse_frequency_input(b"1 2 a[b\n").is_err());
    assert!(parse_frequency_input(b"4294967296 2 a[b]\n").is_err());
    assert!(parse_frequency_input(b"4294967295 2 a[b]\n").is_ok());
    assert_eq!(parse_frequency_input(b"1 2.1234567 a[b]\n").unwrap()[0].popularity, 2_123457);
    assert_eq!(parse_frequency_input(b"1 2.1234564 a[b]\n").unwrap()[0].popularity, 2_123456);
    assert_eq!(parse_frequency_input(b"1 -0.00000051 a[b]\n").unwrap()[0].popularity, -1);
    assert_eq!(
        parse_frequency_input(b"1 1000000000 a[b]\n").unwrap()[0].popularity,
        1_000_000_000_000000
    );
    assert!(parse_frequency_input(b"1 9000000000000 a[b]\n").is_err());
    assert!(parse_frequency_input(b"1 2. a[b]\n").is_err());
    assert!(parse_frequency_input(b"1 abc a[b]\n").is_err());
    assert!(parse_frequency_input(b"1 2 \xff[b]\n").is_err());
}

fn record(ent_seq: u32, popularity: i64) -> WordFrequency {
    WordFrequency { ent_seq, popularity, term: "t".to_string(), reading: "r".to_string() }
}

#[test]
fn stats_mean_and_population_deviation() {
    let v = vec![record(1, 2_000000), record(2, 4_000000), record(3, 4_000000), record(4, 4_000000),
        record(5, 5_000000), record(6, 5_000000), record(7, 7_000000), record(8, 9_000000)];
    assert_eq!(get_freq_stats(&v).unwrap(), (5_000000, 2_000000));
    let w = vec![record(1, 1), record(2, 2)];
    // mean 1.5 rounds down to 1; deviation 0.5 rounds down to 0
    assert_eq!(get_freq_stats(&w).unwrap(), (1, 0));
    let n = vec![record(1, -3), record(2, 0)];
    assert_eq!(get_freq_stats(&n).unwrap(), (-2, 1));
}

#[test]
fn stats_of_empty_table() {
    assert!(matches!(get_freq_stats(&Vec::new()), Err(StatsError::Empty)));
    assert!(matches!(FrequencyTable::new(Vec::new()), Err(StatsError::Empty)));
}

#[test]
fn lookup_prefers_first_record() {
    let records = parse_frequency_input(SAMPLE.as_bytes()).unwrap();
    let table = FrequencyTable::new(records).unwrap();
    assert_eq!(table.lookup(1000300), Some(52_000000));
    assert_eq!(table.lookup(1000310), Some(36_900000));
    assert_eq!(table.lookup(42), None);
    assert_eq!(get_popularity(1000300, &table), 52_000000);
    assert_eq!(
        get_popularity(42, &table),
        table.mean as i128 - table.std_deviation as i128
    );
}
