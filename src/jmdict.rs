//! Reading one dictionary entry from the structural events of the source document.
use vstd::prelude::*;

use crate::bank::{
    bank_of, bank_run, entry_record, fills_bank, framed, lemma_bank_is_array, BankText,
    BankWriter, MAX_TERM_PER_BANK,
};
use crate::stats::{base_popularity, FrequencyTable};
use crate::text::{eq_str, join};
use crate::yomichan::{row_count, senses_with, Definition, DefinitionView, SenseField};

verus! {

/// The elements of an entry that carry text the entry keeps.
#[derive(Debug, Clone, Copy)]
pub enum Tag {
    /// `ent_seq`: the sequence id.
    EntSeq,
    /// `keb`: a spelling.
    Keb,
    /// `reb`: a reading.
    Reb,
    /// `pos`: a part-of-speech tag.
    Pos,
    /// `gloss`: a gloss.
    Gloss,
    /// `misc`: a miscellaneous tag.
    Misc,
    /// `sense`: a new sense.
    Sense,
    /// Any other element.
    OtherDontCareAbout,
}

/// The tag that an element name opens.
pub open spec fn tag_of(s: Seq<char>) -> Tag {
    if s == "ent_seq"@ {
        Tag::EntSeq
    } else if s == "keb"@ {
        Tag::Keb
    } else if s == "reb"@ {
        Tag::Reb
    } else if s == "pos"@ {
        Tag::Pos
    } else if s == "gloss"@ {
        Tag::Gloss
    } else if s == "misc"@ {
        Tag::Misc
    } else if s == "sense"@ {
        Tag::Sense
    } else {
        Tag::OtherDontCareAbout
    }
}

impl Tag {
    /// The tag that an element name opens.
    pub fn from_str(s: &str) -> (r: Tag)
        ensures
            r == tag_of(s@),
    {
        if eq_str(s, "ent_seq") {
            Tag::EntSeq
        } else if eq_str(s, "keb") {
            Tag::Keb
        } else if eq_str(s, "reb") {
            Tag::Reb
        } else if eq_str(s, "pos") {
            Tag::Pos
        } else if eq_str(s, "gloss") {
            Tag::Gloss
        } else if eq_str(s, "misc") {
            Tag::Misc
        } else if eq_str(s, "sense") {
            Tag::Sense
        } else {
            Tag::OtherDontCareAbout
        }
    }
}

/// A structural event of the source document, with entity references already replaced.
#[derive(Debug)]
pub enum EntryEvent {
    /// An element opens.
    Start(String),
    /// Text inside the innermost open element.
    Text(String),
    /// An element closes.
    End(String),
    /// Anything else.
    Other,
}

/// What an entry's sequence id field held so far.
#[derive(Debug, Clone, Copy)]
pub enum SequenceId {
    /// No sequence id text yet.
    Missing,
    /// The last sequence id text, parsed.
    Parsed(u32),
    /// The last sequence id text was not an unsigned 32-bit decimal.
    Unparsable,
}

/// Why an entry was dropped.
#[derive(Debug, Clone, Copy)]
pub enum EntryError {
    /// The entry has no sequence id.
    MissingSequenceId,
    /// The entry's sequence id is not an unsigned 32-bit decimal.
    UnparsableSequenceId,
    /// The entry's records would take record numbers beyond the largest `u64`.
    RecordNumbersExhausted,
}

/// Whether `c` is an ASCII decimal digit.
pub open spec fn is_digit_char(c: char) -> bool {
    '0' <= c <= '9'
}

/// The value of a string of decimal digits.
pub open spec fn chars_value(s: Seq<char>) -> nat
    decreases s.len(),
{
    if s.len() == 0 {
        0
    } else {
        chars_value(s.drop_last()) * 10 + (s.last() as nat - '0' as nat) as nat
    }
}

/// What a sequence id text states.
pub open spec fn id_of(s: Seq<char>) -> SequenceId {
    if s.len() > 0 && (forall|i: int| 0 <= i < s.len() ==> is_digit_char(#[trigger] s[i]))
        && chars_value(s) <= u32::MAX {
        SequenceId::Parsed(chars_value(s) as u32)
    } else {
        SequenceId::Unparsable
    }
}

proof fn lemma_chars_value_grows(s: Seq<char>, i: int, j: int)
    requires
        0 <= i <= j <= s.len(),
        forall|k: int| 0 <= k < s.len() ==> is_digit_char(#[trigger] s[k]),
    ensures
        chars_value(s.subrange(0, i)) <= chars_value(s.subrange(0, j)),
    decreases j - i,
{
    if i < j {
        lemma_chars_value_grows(s, i, j - 1);
        assert(s.subrange(0, j).drop_last() =~= s.subrange(0, j - 1));
    }
}

fn parse_id(s: &str) -> (r: SequenceId)
    ensures
        r == id_of(s@),
{
    let n = s.unicode_len();
    if n == 0 {
        return SequenceId::Unparsable;
    }
    let mut v: u64 = 0;
    let mut i: usize = 0;
    while i < n
        invariant
            n == s@.len(),
            i <= n,
            forall|k: int| 0 <= k < i ==> is_digit_char(#[trigger] s@[k]),
            v as nat == chars_value(s@.subrange(0, i as int)),
            v <= u32::MAX,
        decreases n - i,
    {
        let c = s.get_char(i);
        if !('0' <= c && c <= '9') {
            return SequenceId::Unparsable;
        }
        proof {
            assert(s@.subrange(0, i as int + 1).drop_last() =~= s@.subrange(0, i as int));
        }
        let w = v * 10 + (c as u64 - '0' as u64);
        if w > 4294967295 {
            proof {
                if forall|k: int| 0 <= k < s@.len() ==> is_digit_char(#[trigger] s@[k]) {
                    lemma_chars_value_grows(s@, i as int + 1, s@.len() as int);
                    assert(s@.subrange(0, s@.len() as int) =~= s@);
                }
            }
            return SequenceId::Unparsable;
        }
        v = w;
        i = i + 1;
    }
    assert(s@.subrange(0, n as int) =~= s@);
    SequenceId::Parsed(v as u32)
}

/// The state of the entry reader between two events.
#[derive(Debug)]
pub struct EntryParser {
    /// The entry read so far.
    pub definition: Definition,
    /// The 1-based ordinal of the current sense; 0 before the first.
    pub number_of_sense: usize,
    /// The innermost element opened last.
    pub current_tag: Tag,
    /// What the sequence id field held so far.
    pub id: SequenceId,
}

/// What the entry reader holds between two events.
pub ghost struct ParserView {
    pub definition: DefinitionView,
    pub number_of_sense: nat,
    pub current_tag: Tag,
    pub id: SequenceId,
}

impl View for EntryParser {
    type V = ParserView;

    open spec fn view(&self) -> ParserView {
        ParserView {
            definition: self.definition@,
            number_of_sense: self.number_of_sense as nat,
            current_tag: self.current_tag,
            id: self.id,
        }
    }
}

/// An event, as text.
pub ghost enum EventView {
    Start(Seq<char>),
    Text(Seq<char>),
    End(Seq<char>),
    Other,
}

impl View for EntryEvent {
    type V = EventView;

    open spec fn view(&self) -> EventView {
        match self {
            EntryEvent::Start(s) => EventView::Start(s@),
            EntryEvent::Text(s) => EventView::Text(s@),
            EntryEvent::End(s) => EventView::End(s@),
            EntryEvent::Other => EventView::Other,
        }
    }
}

/// The next sense ordinal, which stays put at the largest `usize`.
pub open spec fn next_sense(n: nat) -> nat {
    if n < usize::MAX { n + 1 } else { n }
}

/// The entry after a text event while `tag` is open.
pub open spec fn with_text(p: ParserView, x: Seq<char>) -> ParserView {
    let d = p.definition;
    let k = p.number_of_sense;
    match p.current_tag {
        Tag::EntSeq => ParserView { id: id_of(x), ..p },
        Tag::Keb => ParserView { definition: DefinitionView { terms: d.terms.push(x), ..d }, ..p },
        Tag::Reb => ParserView {
            definition: DefinitionView { readings: d.readings.push(x), ..d },
            ..p
        },
        Tag::Pos => ParserView {
            definition: DefinitionView { senses: senses_with(d.senses, SenseField::Pos, x, k), ..d },
            ..p
        },
        Tag::Misc => ParserView {
            definition: DefinitionView {
                senses: senses_with(d.senses, SenseField::Misc, x, k),
                uk: d.uk || x == "usually kana"@,
                ..d
            },
            ..p
        },
        Tag::Gloss => ParserView {
            definition: DefinitionView {
                senses: senses_with(d.senses, SenseField::Gloss, x, k),
                ..d
            },
            ..p
        },
        Tag::Sense => ParserView { number_of_sense: next_sense(k), ..p },
        Tag::OtherDontCareAbout => p,
    }
}

/// The reader's state after one event.
pub open spec fn step(p: ParserView, e: EventView) -> ParserView {
    match e {
        EventView::Start(name) => {
            let t = tag_of(name);
            ParserView {
                current_tag: t,
                number_of_sense: if t is Sense { next_sense(p.number_of_sense) } else {
                    p.number_of_sense
                },
                ..p
            }
        },
        EventView::Text(x) => with_text(p, x),
        _ => p,
    }
}

/// Whether an event closes the entry.
pub open spec fn ends_entry(e: EventView) -> bool {
    e == EventView::End("entry"@)
}

/// The reader's state after the events of `es`, up to and including the one that closes the
/// entry.
pub open spec fn run(p: ParserView, es: Seq<EventView>) -> ParserView
    decreases es.len(),
{
    if es.len() == 0 {
        p
    } else if ends_entry(es[0]) {
        p
    } else {
        run(step(p, es[0]), es.drop_first())
    }
}

/// The state the reader starts an entry in.
pub open spec fn initial() -> ParserView {
    ParserView {
        definition: DefinitionView {
            terms: Seq::empty(),
            readings: Seq::empty(),
            senses: Seq::empty(),
            uk: false,
            sequence_number: 0,
        },
        number_of_sense: 0,
        current_tag: Tag::OtherDontCareAbout,
        id: SequenceId::Missing,
    }
}

/// The entry that a reader holds once the entry closes, or why it is dropped.
pub open spec fn finished(p: ParserView) -> Result<DefinitionView, EntryError> {
    match p.id {
        SequenceId::Missing => Err(EntryError::MissingSequenceId),
        SequenceId::Unparsable => Err(EntryError::UnparsableSequenceId),
        SequenceId::Parsed(v) => Ok(DefinitionView { sequence_number: v, ..p.definition }),
    }
}

/// The entry that the events of `es` describe, or why it is dropped.
pub open spec fn entry_result(es: Seq<EventView>) -> Result<DefinitionView, EntryError> {
    finished(run(initial(), es))
}

/// The views of a list of events.
pub open spec fn event_views(es: Seq<EntryEvent>) -> Seq<EventView> {
    es.map_values(|e: EntryEvent| e@)
}

fn bump(n: usize) -> (r: usize)
    ensures
        r as nat == next_sense(n as nat),
{
    if n < usize::MAX { n + 1 } else { n }
}

impl EntryParser {
    /// A reader at the start of an entry.
    pub fn new() -> (r: EntryParser)
        ensures
            r@ == initial(),
    {
        let definition = Definition::new();
        proof {
            assert(definition@.terms =~= Seq::<Seq<char>>::empty());
            assert(definition@.readings =~= Seq::<Seq<char>>::empty());
            assert(definition@.senses =~= Seq::<crate::yomichan::SenseView>::empty());
        }
        EntryParser {
            definition,
            number_of_sense: 0,
            current_tag: Tag::OtherDontCareAbout,
            id: SequenceId::Missing,
        }
    }

    /// Takes one event: an opening element becomes the current tag, and text goes to the
    /// field of the current tag.
    pub fn step(&mut self, event: &EntryEvent)
        ensures
            final(self)@ == step(old(self)@, event@),
    {
        match event {
            EntryEvent::Start(name) => {
                let t = Tag::from_str(name.as_str());
                self.current_tag = t;
                if let Tag::Sense = t {
                    self.number_of_sense = bump(self.number_of_sense);
                }
            },
            EntryEvent::Text(x) => {
                let value = x.clone();
                match self.current_tag {
                    Tag::EntSeq => {
                        self.id = parse_id(value.as_str());
                    },
                    Tag::Keb => {
                        self.definition.add_term(value);
                    },
                    Tag::Reb => {
                        self.definition.add_reading(value);
                    },
                    Tag::Pos => {
                        self.definition.add_pos(value, self.number_of_sense);
                    },
                    Tag::Misc => {
                        if eq_str(value.as_str(), "usually kana") {
                            self.definition.set_uk();
                        }
                        self.definition.add_misc(value, self.number_of_sense);
                    },
                    Tag::Gloss => {
                        self.definition.add_gloss(value, self.number_of_sense);
                    },
                    Tag::Sense => {
                        self.number_of_sense = bump(self.number_of_sense);
                    },
                    Tag::OtherDontCareAbout => {},
                }
            },
            _ => {},
        }
    }
}

impl EntryParser {
    /// The entry read, once it closes, or why it is dropped.
    pub fn finish(self) -> (r: Result<Definition, EntryError>)
        ensures
            match (r, finished(self@)) {
                (Ok(d), Ok(v)) => d@ == v,
                (Err(e), Err(f)) => e == f,
                _ => false,
            },
    {
        match self.id {
            SequenceId::Missing => Err(EntryError::MissingSequenceId),
            SequenceId::Unparsable => Err(EntryError::UnparsableSequenceId),
            SequenceId::Parsed(v) => {
                let mut d = self.definition;
                d.sequence_number(v);
                Ok(d)
            },
        }
    }
}

fn is_entry_start(e: &EntryEvent) -> (r: bool)
    ensures
        r == (e@ == EventView::Start("entry"@)),
{
    match e {
        EntryEvent::Start(name) => eq_str(name.as_str(), "entry"),
        _ => false,
    }
}

fn is_entry_end(e: &EntryEvent) -> (r: bool)
    ensures
        r == ends_entry(e@),
{
    match e {
        EntryEvent::End(name) => eq_str(name.as_str(), "entry"),
        _ => false,
    }
}

/// Reads one entry from its events, up to the one that closes it; drops an entry whose
/// sequence id is missing or not an unsigned 32-bit decimal.
pub fn parse_entry(events: &Vec<EntryEvent>) -> (r: Result<Definition, EntryError>)
    ensures
        match (r, entry_result(event_views(events@))) {
            (Ok(d), Ok(v)) => d@ == v,
            (Err(e), Err(f)) => e == f,
            _ => false,
        },
{
    let ghost es = event_views(events@);
    let mut p = EntryParser::new();
    let mut i: usize = 0;
    let mut ended = false;
    assert(es.subrange(0, es.len() as int) =~= es);
    while i < events.len() && !ended
        invariant
            es == event_views(events@),
            i <= events@.len(),
            run(initial(), es) == if ended {
                p@
            } else {
                run(p@, es.subrange(i as int, es.len() as int))
            },
        decreases events@.len() - i, if ended { 0int } else { 1int },
    {
        let ghost rest = es.subrange(i as int, es.len() as int);
        assert(rest[0] == events@[i as int]@);
        if is_entry_end(&events[i]) {
            ended = true;
        } else {
            p.step(&events[i]);
            assert(rest.drop_first() =~= es.subrange(i as int + 1, es.len() as int));
            i = i + 1;
        }
    }
    assert(run(initial(), es) == p@) by {
        if !ended {
            assert(es.subrange(i as int, es.len() as int) =~= Seq::<EventView>::empty());
        }
    }
    p.finish()
}

/// Whether `out` holds the framed records of entry `d`, numbered after `written`.
pub open spec fn entry_output(
    d: DefinitionView,
    table: FrequencyTable,
    written: nat,
    out: Seq<BankText>,
) -> bool {
    &&& out.len() == row_count(d)
    &&& forall|k: int|
        0 <= k < out.len() ==> {
            let num = (written + k + 1) as nat;
            &&& (#[trigger] out[k]).bank as nat == bank_of(num)
            &&& out[k].text@ == framed(
                entry_record(d, base_popularity(table, d.sequence_number as nat), k, num),
                num,
            )
        }
}

/// What a converter holds between two events.
pub ghost struct ConverterView {
    /// How many records were written.
    pub written: nat,
    /// The reader of the open entry, if one is.
    pub parser: Option<ParserView>,
}

impl View for Converter {
    type V = ConverterView;

    open spec fn view(&self) -> ConverterView {
        ConverterView {
            written: self.writer.written as nat,
            parser: match self.parser {
                Some(p) => Some(p@),
                None => None,
            },
        }
    }
}

/// Bank texts, as bank numbers and text.
pub open spec fn bank_views(v: Seq<BankText>) -> Seq<(nat, Seq<char>)> {
    v.map_values(|b: BankText| (b.bank as nat, b.text@))
}

/// The framed records of entry `d`, numbered after `written`.
pub open spec fn entry_texts(d: DefinitionView, table: FrequencyTable, written: nat) -> Seq<
    (nat, Seq<char>),
> {
    Seq::new(
        row_count(d),
        |k: int|
            (
                bank_of((written + k + 1) as nat),
                framed(
                    entry_record(
                        d,
                        base_popularity(table, d.sequence_number as nat),
                        k,
                        (written + k + 1) as nat,
                    ),
                    (written + k + 1) as nat,
                ),
            ),
    )
}

/// One event's effect on a converter: its next state, the texts it writes, and the reason
/// an entry that closes is dropped, if it is.
pub open spec fn convert_step(c: ConverterView, e: EventView, table: FrequencyTable) -> (
    ConverterView,
    Seq<(nat, Seq<char>)>,
    Option<EntryError>,
) {
    match c.parser {
        None => (
            ConverterView {
                parser: if e == EventView::Start("entry"@) { Some(initial()) } else { None },
                ..c
            },
            Seq::empty(),
            None,
        ),
        Some(p) => if ends_entry(e) {
            match finished(p) {
                Err(x) => (ConverterView { parser: None, ..c }, Seq::empty(), Some(x)),
                Ok(d) => if c.written + row_count(d) <= u64::MAX {
                    (
                        ConverterView { written: c.written + row_count(d), parser: None },
                        entry_texts(d, table, c.written),
                        None,
                    )
                } else {
                    (
                        ConverterView { parser: None, ..c },
                        Seq::empty(),
                        Some(EntryError::RecordNumbersExhausted),
                    )
                },
            }
        } else {
            (ConverterView { parser: Some(step(p, e)), ..c }, Seq::empty(), None)
        },
    }
}

/// The effect of the events of `es` on a converter: its final state, every text written,
/// and the reasons of the dropped entries, in order.
pub open spec fn convert_run(c: ConverterView, es: Seq<EventView>, table: FrequencyTable) -> (
    ConverterView,
    Seq<(nat, Seq<char>)>,
    Seq<EntryError>,
)
    decreases es.len(),
{
    if es.len() == 0 {
        (c, Seq::empty(), Seq::empty())
    } else {
        let (c1, out1, errs1) = convert_run(c, es.drop_last(), table);
        let (c2, out2, err2) = convert_step(c1, es.last(), table);
        (
            c2,
            out1 + out2,
            match err2 {
                Some(x) => errs1.push(x),
                None => errs1,
            },
        )
    }
}

/// The converter before the first event.
pub open spec fn start() -> ConverterView {
    ConverterView { written: 0, parser: None }
}

/// The text that closes the last bank once `written` records were written.
pub open spec fn closing(written: nat) -> Seq<(nat, Seq<char>)> {
    if written > 0 && !fills_bank(written) {
        seq![(bank_of(written), "]"@)]
    } else {
        Seq::empty()
    }
}

/// Records are numbered `1, 2, 3, ...` across the whole document, whatever the entry
/// boundaries: the `k`-th text written holds the record numbered `k` and goes to that
/// record's bank, and an entry that is dropped takes no number.
pub proof fn lemma_run_numbering(es: Seq<EventView>, table: FrequencyTable)
    ensures
        ({
            let (c, out, errs) = convert_run(start(), es, table);
            &&& out.len() == c.written
            &&& forall|k: int|
                0 <= k < out.len() ==> (#[trigger] out[k]).0 == bank_of((k + 1) as nat)
                    && exists|rec: Seq<char>| out[k].1 == #[trigger] framed(rec, (k + 1) as nat)
        }),
    decreases es.len(),
{
    if es.len() > 0 {
        lemma_run_numbering(es.drop_last(), table);
        let (c1, out1, errs1) = convert_run(start(), es.drop_last(), table);
        let (c2, out2, err2) = convert_step(c1, es.last(), table);
        let out = out1 + out2;
        assert forall|k: int| 0 <= k < out.len() implies (#[trigger] out[k]).0 == bank_of(
            (k + 1) as nat,
        ) && exists|rec: Seq<char>| out[k].1 == #[trigger] framed(rec, (k + 1) as nat) by {
            if k < out1.len() {
                assert(out[k] == out1[k]);
            } else {
                assert(out[k] == out2[k - out1.len()]);
                let p = c1.parser.unwrap();
                let d = finished(p).unwrap();
                let j = k - out1.len();
                let rec = entry_record(
                    d,
                    base_popularity(table, d.sequence_number as nat),
                    j,
                    (c1.written + j + 1) as nat,
                );
                assert(out[k].1 == framed(rec, (k + 1) as nat));
            }
        }
    }
}

/// What one bank file receives: the texts of `texts` for bank `b`, in order.
pub open spec fn bank_file(texts: Seq<(nat, Seq<char>)>, b: nat) -> Seq<char>
    decreases texts.len(),
{
    if texts.len() == 0 {
        Seq::empty()
    } else {
        bank_file(texts.drop_last(), b) + if texts.last().0 == b {
            texts.last().1
        } else {
            Seq::empty()
        }
    }
}

proof fn lemma_bank_file_prefix(
    out: Seq<(nat, Seq<char>)>,
    recs: Seq<Seq<char>>,
    b: nat,
    first: nat,
    n: nat,
    m: nat,
)
    requires
        recs.len() == out.len(),
        m <= out.len(),
        first >= 1,
        forall|k: int| 0 <= k < out.len() ==> #[trigger] out[k] == (
            bank_of((k + 1) as nat),
            framed(recs[k], (k + 1) as nat),
        ),
        forall|num: nat|
            1 <= num <= out.len() ==> (#[trigger] bank_of(num) == b <==> first <= num < first + n),
    ensures
        bank_file(out.subrange(0, m as int), b) == bank_run(
            recs,
            first,
            if m < first - 1 {
                0
            } else if m - (first - 1) < n {
                (m - (first - 1)) as nat
            } else {
                n
            },
        ),
    decreases m,
{
    if m > 0 {
        lemma_bank_file_prefix(out, recs, b, first, n, (m - 1) as nat);
        let pre = out.subrange(0, m as int);
        assert(pre.drop_last() =~= out.subrange(0, m - 1));
        assert(pre.last() == out[m - 1]);
        let _ = bank_of(m);
    } else {
        assert(out.subrange(0, 0) =~= Seq::<(nat, Seq<char>)>::empty());
    }
}

/// Every bank file of a document is one JSON array: the records numbered
/// `(b - 1) * 10000 + 1` up to `b * 10000` (fewer in the last bank), numbered across entry
/// boundaries with dropped entries taking no number, between `[` and `]` and separated by a
/// comma and a line break; a bank past the last record receives nothing.
pub proof fn lemma_document_banks(es: Seq<EventView>, table: FrequencyTable, b: nat)
    requires
        b >= 1,
    ensures
        ({
            let (c, out, errs) = convert_run(start(), es, table);
            let all = out + closing(c.written);
            let first = ((b - 1) * MAX_TERM_PER_BANK + 1) as nat;
            let n: nat = if c.written - (first - 1) < MAX_TERM_PER_BANK {
                (c.written - (first - 1)) as nat
            } else {
                MAX_TERM_PER_BANK as nat
            };
            &&& (b - 1) * MAX_TERM_PER_BANK >= c.written ==> bank_file(all, b) == Seq::<char>::empty()
            &&& (b - 1) * MAX_TERM_PER_BANK < c.written ==> exists|recs: Seq<Seq<char>>|
                #![trigger recs.len()]
                {
                    &&& recs.len() == c.written
                    &&& forall|k: int|
                        0 <= k < out.len() ==> #[trigger] out[k].1 == framed(
                            recs[k],
                            (k + 1) as nat,
                        )
                    &&& bank_file(all, b) == "["@ + join(
                        recs.subrange(first - 1, first - 1 + n),
                        ",\n"@,
                    ) + "]"@
                }
        }),
{
    let c = convert_run(start(), es, table).0;
    let out = convert_run(start(), es, table).1;
    let all = out + closing(c.written);
    let w = c.written;
    let cap = MAX_TERM_PER_BANK as nat;
    let first = ((b - 1) * MAX_TERM_PER_BANK + 1) as nat;
    lemma_run_numbering(es, table);
    assert(out.len() == w);
    let recs = Seq::new(
        w,
        |k: int| choose|rec: Seq<char>| out[k].1 == #[trigger] framed(rec, (k + 1) as nat),
    );
    assert forall|k: int| 0 <= k < out.len() implies #[trigger] out[k] == (
        bank_of((k + 1) as nat),
        framed(recs[k], (k + 1) as nat),
    ) by {
        assert(out[k].0 == bank_of((k + 1) as nat));
        assert(exists|rec: Seq<char>| out[k].1 == #[trigger] framed(rec, (k + 1) as nat));
    }
    assert(bank_file(all, b) == bank_file(out, b) + if w > 0 && !fills_bank(w) && bank_of(w)
        == b {
        "]"@
    } else {
        Seq::empty()
    }) by {
        if w > 0 && !fills_bank(w) {
            assert(all.drop_last() =~= out);
        } else {
            assert(all =~= out);
        }
    }
    assert(out.subrange(0, w as int) =~= out);
    if (b - 1) * MAX_TERM_PER_BANK >= w {
        assert forall|num: nat| 1 <= num <= out.len() implies (#[trigger] bank_of(num) == b
            <==> first <= num < first + 0) by {
            assert((num - 1) / (cap as int) < b - 1) by (nonlinear_arith)
                requires num - 1 < (b - 1) * cap, num >= 1, cap > 0;
        }
        lemma_bank_file_prefix(out, recs, b, first, 0, w);
    } else {
        let n: nat = if w - (first - 1) < cap { (w - (first - 1)) as nat } else { cap };
        lemma_bank_is_array(recs, w, b);
        lemma_bank_file_prefix(out, recs, b, first, n, w);
        crate::bank::lemma_bank_position(b, n);
        if !fills_bank((first + n - 1) as nat) {
            assert(n < cap);
            assert(first + n - 1 == w);
            assert(bank_of(w) == b);
        } else if w > 0 && !fills_bank(w) && bank_of(w) == b {
            assert(first <= w < first + n);
            assert(first + n - 1 == w);
        }
        assert(recs.len() == w);
    }
}

/// Conversion is deterministic: for a given entry, table and count of records written
/// before, exactly one output meets the contract of `process_event`.
pub proof fn lemma_entry_output_unique(
    d: DefinitionView,
    table: FrequencyTable,
    written: nat,
    a: Seq<BankText>,
    b: Seq<BankText>,
)
    requires
        entry_output(d, table, written, a),
        entry_output(d, table, written, b),
    ensures
        a.len() == b.len(),
        forall|k: int| 0 <= k < a.len() ==> #[trigger] a[k].bank == b[k].bank && a[k].text@ == b[k].text@,
{
    assert forall|k: int| 0 <= k < a.len() implies #[trigger] a[k].bank == b[k].bank
        && a[k].text@ == b[k].text@ by {
        assert(a[k].bank as nat == b[k].bank as nat);
    }
}

/// Turns the events of a whole source document into bank text, one entry at a time.
#[derive(Debug)]
pub struct Converter {
    /// Numbers and frames the records.
    pub writer: BankWriter,
    /// The reader of the entry that is open, if one is.
    pub parser: Option<EntryParser>,
}

impl Converter {
    /// A converter before the first event.
    pub fn new() -> (r: Converter)
        ensures
            r.writer.written == 0,
            r.parser is None,
    {
        Converter { writer: BankWriter::new(), parser: None }
    }

    /// Takes one event of the document. An entry opens on `<entry>`; its events go to the
    /// entry reader; when it closes, its records come out, or the reason it is dropped, and
    /// a dropped entry takes no record number.
    pub fn process_event(&mut self, event: &EntryEvent, table: &FrequencyTable) -> (r: Result<
        Vec<BankText>,
        EntryError,
    >)
        requires
            table.wf(),
        ensures
            ({
                let (c, out, err) = convert_step(old(self)@, event@, *table);
                &&& final(self)@ == c
                &&& match r {
                    Ok(texts) => bank_views(texts@) == out && err is None,
                    Err(e) => err == Some(e) && out.len() == 0,
                }
            }),
    {
        match self.parser.take() {
            None => {
                if is_entry_start(event) {
                    self.parser = Some(EntryParser::new());
                }
                Ok(Vec::new())
            },
            Some(mut p) => {
                if is_entry_end(event) {
                    match p.finish() {
                        Err(e) => Err(e),
                        Ok(d) => {
                            let count = d.record_count();
                            if count > (u64::MAX - self.writer.written) as u128 {
                                Err(EntryError::RecordNumbersExhausted)
                            } else {
                                let ghost w0 = self.writer.written as nat;
                                let out = d.serialize(&mut self.writer, table);
                                assert(bank_views(out@) =~= entry_texts(d@, *table, w0));
                                Ok(out)
                            }
                        },
                    }
                } else {
                    p.step(event);
                    self.parser = Some(p);
                    Ok(Vec::new())
                }
            },
        }
    }

    /// The text that closes the last bank at the end of the document, if it is open.
    pub fn finish(&self) -> (r: Option<BankText>)
        ensures
            r is Some <==> self.writer.written > 0 && !fills_bank(
                self.writer.written as nat,
            ),
            r matches Some(b) ==> b.bank as nat == bank_of(self.writer.written as nat)
                && b.text@ == "]"@,
    {
        self.writer.finish()
    }
}

/// Converts the events of a whole source document: the framed records of every entry, in
/// order and numbered from 1, then the text that closes the last bank; and the reasons of
/// the entries that were dropped.
pub fn process_jmdict(events: &Vec<EntryEvent>, table: &FrequencyTable) -> (r: (
    Vec<BankText>,
    Vec<EntryError>,
))
    requires
        table.wf(),
    ensures
        ({
            let (c, out, errs) = convert_run(start(), event_views(events@), *table);
            &&& bank_views(r.0@) == out + closing(c.written)
            &&& r.1@ == errs
        }),
{
    let ghost es = event_views(events@);
    let mut conv = Converter::new();
    let mut texts: Vec<BankText> = Vec::new();
    let mut dropped: Vec<EntryError> = Vec::new();
    let mut i: usize = 0;
    while i < events.len()
        invariant
            es == event_views(events@),
            table.wf(),
            i <= events@.len(),
            ({
                let (c, out, errs) = convert_run(start(), es.subrange(0, i as int), *table);
                &&& conv@ == c
                &&& bank_views(texts@) == out
                &&& dropped@ == errs
            }),
        decreases events@.len() - i,
    {
        let ghost before = conv@;
        let ghost texts_before = bank_views(texts@);
        let r = conv.process_event(&events[i], table);
        proof {
            let pre = es.subrange(0, i as int + 1);
            assert(pre.drop_last() =~= es.subrange(0, i as int));
            assert(pre.last() == events@[i as int]@);
        }
        match r {
            Ok(out) => {
                let ghost out_view = bank_views(out@);
                let mut out = out;
                texts.append(&mut out);
                proof {
                    assert(bank_views(texts@) =~= texts_before + out_view);
                }
            },
            Err(e) => {
                dropped.push(e);
                proof {
                    let (c2, o2, x2) = convert_step(before, events@[i as int]@, *table);
                    assert(o2 =~= Seq::<(nat, Seq<char>)>::empty());
                    assert(bank_views(texts@) =~= texts_before + o2);
                }
            },
        }
        i = i + 1;
    }
    assert(es.subrange(0, es.len() as int) =~= es);
    let ghost texts_before = bank_views(texts@);
    match conv.finish() {
        Some(last) => {
            texts.push(last);
            assert(bank_views(texts@) =~= texts_before + closing(conv.writer.written as nat));
        },
        None => {
            assert(bank_views(texts@) =~= texts_before + closing(conv.writer.written as nat));
        },
    }
    (texts, dropped)
}

} // verus!
