use jmdict_for_yomichan::bank::{serialize_row, BankWriter};
use jmdict_for_yomichan::index::DictIndex;
use jmdict_for_yomichan::stats::FrequencyTable;
use jmdict_for_yomichan::word_frequency::WordFrequency;
use jmdict_for_yomichan::yomichan::{Definition, Identifier, TermRow};

fn record(ent_seq: u32, popularity: i64, term: &str, reading: &str) -> WordFrequency {
    WordFrequency {
        ent_seq,
        popularity,
        term: term.to_string(),
        reading: reading.to_string(),
    }
}

fn single_sense() -> Definition {
    let mut definitions = Definition::default();
    definitions.sequence_number(1000220u32);
    definitions.add_term("明白".to_string());
    definitions.add_reading("めいはく".to_string());
    definitions.add_pos("adj-na".to_string(), 1);
    definitions.add_gloss("obvious".to_string(), 1);
    definitions.add_gloss("clear".to_string(), 1);
    definitions
}

fn two_senses_uk() -> Definition {
    let mut definitions = Definition::default();
    definitions.sequence_number(1000300u32);
    definitions.set_uk();
    definitions.add_term("遇う".to_string());
    definitions.add_term("配う".to_string());
    definitions.add_reading("あしらう".to_string());
    definitions.add_pos("v5u".to_string(), 1);
    definitions.add_pos("vt".to_string(), 1);
    definitions.add_misc("uk".to_string(), 1);
    definitions.add_gloss("to treat".to_string(), 1);
    definitions.add_gloss("to handle".to_string(), 1);
    definitions.add_gloss("to deal with".to_string(), 1);
    definitions.add_pos("v5u".to_string(), 2);
    definitions.add_pos("vt".to_string(), 2);
    definitions.add_misc("uk".to_string(), 2);
    definitions.add_gloss("to arrange".to_string(), 2);
    definitions.add_gloss("to decorate".to_string(), 2);
    definitions.add_gloss("to dress".to_string(), 2);
    definitions.add_gloss("to garnish".to_string(), 2);
    definitions
}

const MULTI_GLOSS: &str = r#"あしらう【遇う・配う】\n1 〘uk〙 to treat; to handle; to deal with.\n2 〘uk〙 to arrange; to decorate; to dress; to garnish."#;

#[test]
fn serialize_dict_index() {
    let dict_index = DictIndex {
        title: "JMdict".to_string(),
        format: 3u8,
        revision: "JMdict1".to_string(),
        sequenced: true,
    };
    assert_eq!(
        dict_index.serialize(),
        r#"{"title":"JMdict","format":3,"revision":"JMdict1","sequenced":true}"#
    );
}

#[test]
fn dict_index_revision_uses_the_date() {
    let index = DictIndex::for_date(2024, 3, 5);
    assert_eq!(
        index.serialize(),
        r#"{"title":"JMdict","format":3,"revision":"JMdict-20240305","sequenced":true}"#
    );
}

#[test]
fn default_index_has_a_dated_revision() {
    if let Some(text) = DictIndex::default_serialize() {
        assert!(text.starts_with(r#"{"title":"JMdict","format":3,"revision":"JMdict-"#));
        assert!(text.ends_with(r#"","sequenced":true}"#));
        let date = &text[text.find("JMdict-").unwrap() + 7..text.len() - 19];
        assert_eq!(date.len(), 8);
        assert!(date.chars().all(|c| c.is_ascii_digit()));
    }
}

#[test]
fn gloss_of_single_sense() {
    assert_eq!(
        single_sense().serialize_gloss(),
        r#"めいはく【明白】\n〘adj-na〙\nobvious; clear."#
    );
}

#[test]
fn gloss_of_single_sense_with_misc() {
    let mut d = single_sense();
    d.add_misc("uk".to_string(), 1);
    assert_eq!(
        d.serialize_gloss(),
        r#"めいはく【明白】\n〘adj-na〙\n〘uk〙\nobvious; clear."#
    );
}

#[test]
fn gloss_of_single_sense_without_pos() {
    let mut d = Definition::default();
    d.add_term("明白".to_string());
    d.add_reading("めいはく".to_string());
    d.add_gloss("obvious".to_string(), 1);
    assert_eq!(d.serialize_gloss(), r#"めいはく【明白】\n〘〙\nobvious."#);
}

#[test]
fn gloss_of_several_senses() {
    assert_eq!(two_senses_uk().serialize_gloss(), MULTI_GLOSS);
}

#[test]
fn text_for_an_earlier_sense_goes_to_that_sense() {
    let mut d = Definition::default();
    d.add_gloss("a".to_string(), 1);
    d.add_gloss("b".to_string(), 2);
    d.add_gloss("c".to_string(), 1);
    assert_eq!(d.senses.len(), 2);
    assert_eq!(d.senses[0].gloss, vec!["a".to_string(), "c".to_string()]);
    assert_eq!(d.senses[1].gloss, vec!["b".to_string()]);
}

#[test]
fn inflection_tags() {
    assert_eq!(Identifier::to_identifier("v1"), "v1");
    assert_eq!(Identifier::to_identifier("v1-s"), "v1");
    assert_eq!(Identifier::to_identifier("v5k-s"), "v5");
    assert_eq!(Identifier::to_identifier("v5uru"), "v5");
    assert_eq!(Identifier::to_identifier("adj-na"), "");
    assert_eq!(two_senses_uk().pos_to_identifier(), "v5");
    assert_eq!(single_sense().pos_to_identifier(), "");
    let mut d = Definition::default();
    d.add_pos("v5r".to_string(), 1);
    d.add_pos("v1".to_string(), 1);
    d.add_pos("vt".to_string(), 1);
    d.add_pos("v5k".to_string(), 2);
    assert_eq!(d.pos_to_identifier(), "v1");
    assert_eq!(Definition::default().pos_to_identifier(), "");
}

#[test]
fn expansion_of_uk_entry() {
    let rows = two_senses_uk().expand(52_000000);
    let got: Vec<(String, String, i128)> = rows
        .iter()
        .map(|r| (r.term.clone(), r.reading.clone(), r.popularity))
        .collect();
    assert_eq!(
        got,
        vec![
            ("遇う".to_string(), "あしらう".to_string(), 52_000000),
            ("配う".to_string(), "あしらう".to_string(), 51_000000),
            ("".to_string(), "あしらう".to_string(), 53_000000),
        ]
    );
    for r in &rows {
        assert_eq!(r.identifier, "v5");
        assert_eq!(r.gloss, MULTI_GLOSS);
    }
}

#[test]
fn expansion_runs_outer_axis_over_more_readings() {
    let mut d = Definition::default();
    d.add_term("A".to_string());
    d.add_reading("x".to_string());
    d.add_reading("y".to_string());
    d.add_reading("z".to_string());
    let rows = d.expand(10_000000);
    let got: Vec<(String, String, i128)> = rows
        .iter()
        .map(|r| (r.term.clone(), r.reading.clone(), r.popularity))
        .collect();
    assert_eq!(
        got,
        vec![
            ("A".to_string(), "x".to_string(), 10_000000),
            ("A".to_string(), "y".to_string(), 9_000000),
            ("A".to_string(), "z".to_string(), 8_000000),
        ]
    );
}

#[test]
fn expansion_counts() {
    let mut d = Definition::default();
    for t in ["a", "b", "c"] {
        d.add_term(t.to_string());
    }
    for r in ["x", "y"] {
        d.add_reading(r.to_string());
    }
    let rows = d.expand(0);
    assert_eq!(rows.len(), 6);
    assert_eq!(d.record_count(), 6);
    let pops: Vec<i128> = rows.iter().map(|r| r.popularity).collect();
    assert_eq!(pops, vec![0, 0, -1_000000, -1_000000, -2_000000, -2_000000]);
    assert_eq!(rows[1].term, "a");
    assert_eq!(rows[1].reading, "y");
    d.set_uk();
    let rows = d.expand(0);
    assert_eq!(rows.len(), 8);
    assert_eq!(rows[6].reading, "x");
    assert_eq!(rows[7].reading, "y");
    assert_eq!(rows[7].term, "");
    assert_eq!(rows[7].popularity, 1_000000);
}

#[test]
fn expansion_without_spelling_uses_readings() {
    let mut d = Definition::default();
    d.add_reading("か".to_string());
    d.add_reading("が".to_string());
    let rows = d.expand(5_500000);
    assert_eq!(rows.len(), 2);
    assert_eq!((rows[0].term.as_str(), rows[0].reading.as_str()), ("か", "か"));
    assert_eq!((rows[1].term.as_str(), rows[1].reading.as_str()), ("が", "が"));
    assert_eq!(rows[1].popularity, 4_500000);
}

#[test]
fn expansion_of_empty_entry() {
    assert_eq!(Definition::default().expand(0).len(), 0);
    let mut d = Definition::default();
    d.add_term("a".to_string());
    assert_eq!(d.expand(0).len(), 0);
}

#[test]
fn row_text_matches_record_layout() {
    let row = TermRow {
        term: "遇う".to_string(),
        reading: "あしらう".to_string(),
        identifier: "v5".to_string(),
        popularity: 52_000000,
        gloss: MULTI_GLOSS.to_string(),
    };
    let expected = format!(r#"["遇う","あしらう","","v5",52,["{}"],35,""]"#, MULTI_GLOSS);
    assert_eq!(serialize_row(&row, 35), expected);
}

#[test]
fn popularity_text_forms() {
    let mut row = TermRow {
        term: "t".to_string(),
        reading: "r".to_string(),
        identifier: "".to_string(),
        popularity: 36_900000,
        gloss: "g".to_string(),
    };
    assert_eq!(serialize_row(&row, 1), r#"["t","r","","",36.9,["g"],1,""]"#);
    row.popularity = -1_500000;
    assert_eq!(serialize_row(&row, 2), r#"["t","r","","",-1.5,["g"],2,""]"#);
    row.popularity = 0;
    assert_eq!(serialize_row(&row, 3), r#"["t","r","","",0,["g"],3,""]"#);
    row.popularity = 7_000125;
    assert_eq!(serialize_row(&row, 4), r#"["t","r","","",7.000125,["g"],4,""]"#);
    row.popularity = -250000;
    assert_eq!(serialize_row(&row, 5), r#"["t","r","","",-0.25,["g"],5,""]"#);
}

#[test]
fn serialize_numbers_and_frames_records() {
    let table = FrequencyTable::new(vec![record(1000300, 52_000000, "遇う", "あしらう")]).unwrap();
    let mut writer = BankWriter { written: 34 };
    let out = two_senses_uk().serialize(&mut writer, &table);
    assert_eq!(writer.written, 37);
    let texts: Vec<String> = out.iter().map(|b| b.text.clone()).collect();
    assert_eq!(
        texts,
        vec![
            format!(r#",
["遇う","あしらう","","v5",52,["{}"],35,""]"#, MULTI_GLOSS),
            format!(r#",
["配う","あしらう","","v5",51,["{}"],36,""]"#, MULTI_GLOSS),
            format!(r#",
["","あしらう","","v5",53,["{}"],37,""]"#, MULTI_GLOSS),
        ]
    );
    assert!(out.iter().all(|b| b.bank == 1));
}

#[test]
fn serialize_is_deterministic() {
    let table = FrequencyTable::new(vec![record(7, 3_000000, "a", "b")]).unwrap();
    let mut w1 = BankWriter::new();
    let mut w2 = BankWriter::new();
    let a: Vec<String> = two_senses_uk().serialize(&mut w1, &table).into_iter().map(|b| b.text).collect();
    let b: Vec<String> = two_senses_uk().serialize(&mut w2, &table).into_iter().map(|b| b.text).collect();
    assert_eq!(a, b);
}

#[test]
fn unlisted_entry_gets_fallback_popularity() {
    // mean 2.5, population standard deviation 1.5 (values 1, 4)
    let table = FrequencyTable::new(vec![
        record(1, 1_000000, "a", "a"),
        record(2, 4_000000, "b", "b"),
    ])
    .unwrap();
    let mut d = Definition::default();
    d.sequence_number(99);
    d.add_term("z".to_string());
    d.add_reading("z".to_string());
    let mut writer = BankWriter::new();
    let out = d.serialize(&mut writer, &table);
    assert_eq!(out.len(), 1);
    assert_eq!(out[0].text, r#"[["z","z","","",1,["z【z】"],1,""]"#);
}
