use jmdict_for_yomichan::bank::{BankWriter, MAX_TERM_PER_BANK};
use jmdict_for_yomichan::yomichan::TermRow;

fn row(n: u64) -> TermRow {
    TermRow {
        term: format!("t{}", n),
        reading: "r".to_string(),
        identifier: "".to_string(),
        popularity: 1_000000,
        gloss: "g".to_string(),
    }
}

#[test]
fn banks_rotate_every_ten_thousand_records() {
    let mut writer = BankWriter::new();
    let mut files: Vec<String> = Vec::new();
    let total = MAX_TERM_PER_BANK + 3;
    for n in 1..=total {
        let out = writer.write(&row(n));
        assert_eq!(writer.written, n);
        assert_eq!(out.bank, (n - 1) / MAX_TERM_PER_BANK + 1);
        if out.bank as usize > files.len() {
            files.push(String::new());
        }
        files[out.bank as usize - 1].push_str(&out.text);
    }
    let last = writer.finish().unwrap();
    assert_eq!(last.bank, 2);
    files[1].push_str(&last.text);
    assert_eq!(files.len(), 2);
    for f in &files {
        assert!(f.starts_with("[[\"t"));
        assert!(f.ends_with(",\"\"]]"));
        assert!(!f.contains(",\n]"));
    }
    assert!(files[0].contains(r#"["t10000","r","","",1,["g"],10000,""]]"#));
    assert!(files[1].starts_with(r#"[["t10001","r","","",1,["g"],10001,""],"#));
    assert_eq!(files[0].matches("],\n[").count(), 9999);
    assert_eq!(files[1].matches("],\n[").count(), 2);
}

#[test]
fn full_bank_needs_no_closing() {
    let mut writer = BankWriter { written: MAX_TERM_PER_BANK - 1 };
    let out = writer.write(&row(1));
    assert!(out.text.ends_with("]"));
    assert!(out.text.starts_with(",\n"));
    assert!(writer.finish().is_none());
    assert!(BankWriter::new().finish().is_none());
}
