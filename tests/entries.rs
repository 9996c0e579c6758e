use jmdict_for_yomichan::jmdict::{parse_entry, process_jmdict, Converter, EntryError, EntryEvent, Tag};
use jmdict_for_yomichan::preamble::entity_table;
use jmdict_for_yomichan::stats::FrequencyTable;
use jmdict_for_yomichan::word_frequency::WordFrequency;

fn start(s: &str) -> EntryEvent {
    EntryEvent::Start(s.to_string())
}
fn text(s: &str) -> EntryEvent {
    EntryEvent::Text(s.to_string())
}
fn end(s: &str) -> EntryEvent {
    EntryEvent::End(s.to_string())
}

fn element(name: &str, value: &str) -> Vec<EntryEvent> {
    vec![start(name), text(value), end(name)]
}

fn entry(id: Option<&str>, keb: &str, reb: &str) -> Vec<EntryEvent> {
    let mut v = vec![start("entry")];
    if let Some(id) = id {
        v.extend(element("ent_seq", id));
    }
    v.push(start("k_ele"));
    v.extend(element("keb", keb));
    v.push(end("k_ele"));
    v.push(start("r_ele"));
    v.extend(element("reb", reb));
    v.push(end("r_ele"));
    v.push(start("sense"));
    v.extend(element("pos", "v1"));
    v.extend(element("gloss", "to see"));
    v.push(end("sense"));
    v.push(start("sense"));
    v.extend(element("misc", "usually kana"));
    v.extend(element("gloss", "to look"));
    v.push(end("sense"));
    v.push(end("entry"));
    v
}

#[test]
fn tags_from_element_names() {
    assert!(matches!(Tag::from_str("ent_seq"), Tag::EntSeq));
    assert!(matches!(Tag::from_str("keb"), Tag::Keb));
    assert!(matches!(Tag::from_str("reb"), Tag::Reb));
    assert!(matches!(Tag::from_str("pos"), Tag::Pos));
    assert!(matches!(Tag::from_str("gloss"), Tag::Gloss));
    assert!(matches!(Tag::from_str("misc"), Tag::Misc));
    assert!(matches!(Tag::from_str("sense"), Tag::Sense));
    assert!(matches!(Tag::from_str("k_ele"), Tag::OtherDontCareAbout));
}

#[test]
fn entry_from_events() {
    let d = parse_entry(&entry(Some("1000"), "見る", "みる")).unwrap();
    assert_eq!(d.sequence_number, 1000);
    assert_eq!(d.term, vec!["見る".to_string()]);
    assert_eq!(d.reading, vec!["みる".to_string()]);
    assert!(d.uk);
    assert_eq!(d.senses.len(), 2);
    assert_eq!(d.senses[0].pos, vec!["v1".to_string()]);
    assert_eq!(d.senses[1].misc, vec!["usually kana".to_string()]);
    assert_eq!(
        d.serialize_gloss(),
        r#"みる【見る】\n1 〘〙 to see.\n2 〘usually kana〙 to look."#
    );
    let mut other = vec![start("entry")];
    other.extend(element("ent_seq", "5"));
    other.extend(element("reb", "か"));
    other.push(start("sense"));
    other.extend(element("misc", "uk"));
    other.push(end("sense"));
    other.push(end("entry"));
    let d = parse_entry(&other).unwrap();
    assert!(!d.uk);
    assert_eq!(d.senses[0].misc, vec!["uk".to_string()]);
}

#[test]
fn entry_without_valid_sequence_id() {
    assert!(matches!(
        parse_entry(&entry(None, "a", "b")),
        Err(EntryError::MissingSequenceId)
    ));
    assert!(matches!(
        parse_entry(&entry(Some("12x"), "a", "b")),
        Err(EntryError::UnparsableSequenceId)
    ));
    assert!(matches!(
        parse_entry(&entry(Some("4294967296"), "a", "b")),
        Err(EntryError::UnparsableSequenceId)
    ));
}

#[test]
fn dropped_entry_takes_no_record_number() {
    let table = FrequencyTable::new(vec![WordFrequency {
        ent_seq: 1,
        popularity: 10_000000,
        term: "a".to_string(),
        reading: "b".to_string(),
    }])
    .unwrap();
    let mut events = vec![start("JMdict")];
    events.extend(entry(Some("1"), "a", "b"));
    events.extend(entry(Some("bad"), "c", "d"));
    events.extend(entry(Some("1"), "e", "f"));
    events.push(end("JMdict"));
    let mut conv = Converter::new();
    let mut texts: Vec<String> = Vec::new();
    let mut dropped = 0;
    for e in &events {
        match conv.process_event(e, &table) {
            Ok(out) => texts.extend(out.into_iter().map(|b| b.text)),
            Err(EntryError::UnparsableSequenceId) => dropped += 1,
            Err(other) => panic!("unexpected {:?}", other),
        }
    }
    if let Some(last) = conv.finish() {
        texts.push(last.text);
    }
    assert_eq!(dropped, 1);
    // each valid entry has one spelling, one reading and is usually written in kana
    assert_eq!(texts.len(), 5);
    let all = texts.concat();
    assert!(all.starts_with("[[\"a\",\"b\""));
    assert!(all.ends_with("]"));
    for n in 1..=4 {
        assert!(all.contains(&format!("],{},\"\"]", n)));
    }
    assert!(!all.contains("\"c\""));
    assert!(all.contains(r#"["e","f","","v1",10,"#));
    assert!(all.contains(r#"["","f","","v1",11,"#));
}

#[test]
fn whole_document_numbers_records_across_dropped_entries() {
    let table = FrequencyTable::new(vec![WordFrequency {
        ent_seq: 2,
        popularity: 3_000000,
        term: "x".to_string(),
        reading: "y".to_string(),
    }])
    .unwrap();
    let mut events = vec![start("JMdict")];
    events.extend(entry(None, "a", "b"));
    events.extend(entry(Some("2"), "c", "d"));
    events.extend(entry(Some("99999999999"), "e", "f"));
    events.extend(entry(Some("2"), "g", "h"));
    events.push(end("JMdict"));
    let (texts, dropped) = process_jmdict(&events, &table);
    assert!(matches!(
        dropped.as_slice(),
        [EntryError::MissingSequenceId, EntryError::UnparsableSequenceId]
    ));
    assert_eq!(texts.len(), 5);
    assert!(texts.iter().all(|t| t.bank == 1));
    assert!(texts[0].text.starts_with(r#"[["c","d","","v1",3,"#));
    assert!(texts[0].text.ends_with(r#",1,""]"#));
    assert!(texts[1].text.starts_with(",\n[\"\",\"d\",\"\",\"v1\",4,"));
    assert!(texts[3].text.ends_with(r#",4,""]"#));
    assert_eq!(texts[4].text, "]");
    assert!(process_jmdict(&Vec::new(), &table).0.is_empty());
}

#[test]
fn entity_declarations_of_the_preamble() {
    let doctype = b"JMdict [\n<!ENTITY uk \"word usually written using kana alone\">\n<!ENTITY v1 \"Ichidan verb\">\n<!ELEMENT entry (ent_seq)>\n]";
    let table = entity_table(doctype).unwrap();
    assert_eq!(
        table,
        vec![
            (b"uk".to_vec(), b"uk".to_vec()),
            (b"v1".to_vec(), b"v1".to_vec()),
        ]
    );
    assert!(entity_table(b"JMdict").unwrap().is_empty());
}
