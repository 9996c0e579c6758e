//! Dictionary entries and their expansion into Yomichan term records.
use vstd::prelude::*;

use crate::stats::popularity_range;
use crate::text::{dec, eq_str, join, join_strings, push_dec, views};
use vstd::arithmetic::div_mod::lemma_fundamental_div_mod_converse;

verus! {

/// One numbered meaning group of an entry.
#[derive(Debug, Default)]
pub struct Sense {
    /// Part-of-speech tags, in document order.
    pub pos: Vec<String>,
    /// Miscellaneous tags, in document order.
    pub misc: Vec<String>,
    /// Glosses, in document order.
    pub gloss: Vec<String>,
}

/// What a sense holds, as text.
pub ghost struct SenseView {
    pub pos: Seq<Seq<char>>,
    pub misc: Seq<Seq<char>>,
    pub gloss: Seq<Seq<char>>,
}

impl View for Sense {
    type V = SenseView;

    open spec fn view(&self) -> SenseView {
        SenseView { pos: views(self.pos@), misc: views(self.misc@), gloss: views(self.gloss@) }
    }
}

/// One dictionary entry: its spellings, readings and senses.
#[derive(Debug, Default)]
pub struct Definition {
    /// Written forms (`keb`), in document order.
    pub term: Vec<String>,
    /// Phonetic forms (`reb`), in document order.
    pub reading: Vec<String>,
    /// Senses, in document order.
    pub senses: Vec<Sense>,
    /// Whether the entry is usually written in kana alone.
    pub uk: bool,
    /// The entry's sequence id.
    pub sequence_number: u32,
}

/// What an entry holds, as text.
pub ghost struct DefinitionView {
    pub terms: Seq<Seq<char>>,
    pub readings: Seq<Seq<char>>,
    pub senses: Seq<SenseView>,
    pub uk: bool,
    pub sequence_number: u32,
}

/// The views of a list of senses.
pub open spec fn sense_views(s: Seq<Sense>) -> Seq<SenseView> {
    s.map_values(|x: Sense| x@)
}

impl View for Definition {
    type V = DefinitionView;

    open spec fn view(&self) -> DefinitionView {
        DefinitionView {
            terms: views(self.term@),
            readings: views(self.reading@),
            senses: sense_views(self.senses@),
            uk: self.uk,
            sequence_number: self.sequence_number,
        }
    }
}

/// The position in a list of `len` senses that text for the sense with 1-based ordinal
/// `ordinal` goes to; `len` itself stands for a new sense pushed at the end.
/// An ordinal of 0 counts as 1; an existing sense takes its own text; the next ordinal
/// opens a new sense; a later one goes to the last sense.
pub open spec fn sense_slot(len: nat, ordinal: nat) -> nat {
    let k = if ordinal == 0 { 1 } else { ordinal };
    if k <= len {
        (k - 1) as nat
    } else if k == len + 1 || len == 0 {
        len
    } else {
        (len - 1) as nat
    }
}

/// Which list of a sense a piece of text belongs to.
pub enum SenseField {
    /// The part-of-speech tags.
    Pos,
    /// The miscellaneous tags.
    Misc,
    /// The glosses.
    Gloss,
}

/// `s` with `x` appended to the list `field` of sense `slot`.
pub open spec fn sense_with(s: SenseView, field: SenseField, x: Seq<char>) -> SenseView {
    match field {
        SenseField::Pos => SenseView { pos: s.pos.push(x), ..s },
        SenseField::Misc => SenseView { misc: s.misc.push(x), ..s },
        SenseField::Gloss => SenseView { gloss: s.gloss.push(x), ..s },
    }
}

/// The senses after text `x` for the sense with ordinal `ordinal` arrives.
pub open spec fn senses_with(
    s: Seq<SenseView>,
    field: SenseField,
    x: Seq<char>,
    ordinal: nat,
) -> Seq<SenseView> {
    let t = sense_slot(s.len(), ordinal);
    if t == s.len() {
        let empty = SenseView { pos: Seq::empty(), misc: Seq::empty(), gloss: Seq::empty() };
        s.push(sense_with(empty, field, x))
    } else {
        s.update(t as int, sense_with(s[t as int], field, x))
    }
}

fn slot_of(len: usize, ordinal: usize) -> (r: usize)
    ensures
        r as nat == sense_slot(len as nat, ordinal as nat),
{
    let k = if ordinal == 0 { 1 } else { ordinal };
    if k <= len {
        k - 1
    } else if k - 1 == len || len == 0 {
        len
    } else {
        len - 1
    }
}

impl Sense {
    fn add(&mut self, field: &SenseField, x: String)
        ensures
            final(self)@ == sense_with(old(self)@, *field, x@),
    {
        match field {
            SenseField::Pos => self.pos.push(x),
            SenseField::Misc => self.misc.push(x),
            SenseField::Gloss => self.gloss.push(x),
        }
        proof {
            assert(views(self.pos@) =~= sense_with(old(self)@, *field, x@).pos);
            assert(views(self.misc@) =~= sense_with(old(self)@, *field, x@).misc);
            assert(views(self.gloss@) =~= sense_with(old(self)@, *field, x@).gloss);
        }
    }
}

impl Definition {
    /// An entry with nothing in it.
    pub fn new() -> (r: Definition)
        ensures
            r@.terms.len() == 0,
            r@.readings.len() == 0,
            r@.senses.len() == 0,
            !r@.uk,
            r@.sequence_number == 0,
    {
        Definition {
            term: Vec::new(),
            reading: Vec::new(),
            senses: Vec::new(),
            uk: false,
            sequence_number: 0,
        }
    }

    /// Appends a spelling.
    pub fn add_term(&mut self, term: String)
        ensures
            final(self)@ == (DefinitionView { terms: old(self)@.terms.push(term@), ..old(self)@ }),
    {
        self.term.push(term);
        proof {
            assert(views(self.term@) =~= old(self)@.terms.push(term@));
        }
    }

    /// Appends a reading.
    pub fn add_reading(&mut self, reading: String)
        ensures
            final(self)@ == (DefinitionView {
                readings: old(self)@.readings.push(reading@),
                ..old(self)@
            }),
    {
        self.reading.push(reading);
        proof {
            assert(views(self.reading@) =~= old(self)@.readings.push(reading@));
        }
    }

    fn add_to_sense(&mut self, field: SenseField, x: String, sense: usize)
        ensures
            final(self)@ == (DefinitionView {
                senses: senses_with(old(self)@.senses, field, x@, sense as nat),
                ..old(self)@
            }),
    {
        let t = slot_of(self.senses.len(), sense);
        let ghost x_view = x@;
        if t == self.senses.len() {
            let mut s = Sense { pos: Vec::new(), misc: Vec::new(), gloss: Vec::new() };
            proof {
                assert(s@ == SenseView {
                    pos: Seq::<Seq<char>>::empty(),
                    misc: Seq::<Seq<char>>::empty(),
                    gloss: Seq::<Seq<char>>::empty(),
                }) by {
                    assert(s@.pos =~= Seq::<Seq<char>>::empty());
                    assert(s@.misc =~= Seq::<Seq<char>>::empty());
                    assert(s@.gloss =~= Seq::<Seq<char>>::empty());
                }
            }
            s.add(&field, x);
            self.senses.push(s);
        } else {
            let mut s = self.senses.remove(t);
            s.add(&field, x);
            self.senses.insert(t, s);
        }
        proof {
            assert(sense_views(self.senses@) =~= senses_with(
                old(self)@.senses,
                field,
                x_view,
                sense as nat,
            ));
        }
    }

    /// Appends a part-of-speech tag to the sense with 1-based ordinal `sense`.
    pub fn add_pos(&mut self, pos: String, sense: usize)
        ensures
            final(self)@ == (DefinitionView {
                senses: senses_with(old(self)@.senses, SenseField::Pos, pos@, sense as nat),
                ..old(self)@
            }),
    {
        self.add_to_sense(SenseField::Pos, pos, sense);
    }

    /// Appends a miscellaneous tag to the sense with 1-based ordinal `sense`.
    pub fn add_misc(&mut self, misc: String, sense: usize)
        ensures
            final(self)@ == (DefinitionView {
                senses: senses_with(old(self)@.senses, SenseField::Misc, misc@, sense as nat),
                ..old(self)@
            }),
    {
        self.add_to_sense(SenseField::Misc, misc, sense);
    }

    /// Appends a gloss to the sense with 1-based ordinal `sense`.
    pub fn add_gloss(&mut self, gloss: String, sense: usize)
        ensures
            final(self)@ == (DefinitionView {
                senses: senses_with(old(self)@.senses, SenseField::Gloss, gloss@, sense as nat),
                ..old(self)@
            }),
    {
        self.add_to_sense(SenseField::Gloss, gloss, sense);
    }

    /// Marks the entry as usually written in kana.
    pub fn set_uk(&mut self)
        ensures
            final(self)@ == (DefinitionView { uk: true, ..old(self)@ }),
    {
        self.uk = true;
    }

    /// Sets the entry's sequence id.
    pub fn sequence_number(&mut self, sequence_number: u32)
        ensures
            final(self)@ == (DefinitionView { sequence_number, ..old(self)@ }),
    {
        self.sequence_number = sequence_number;
    }
}

/// A coarse conjugation class of a verb, used by the dictionary for deinflection.
#[derive(Debug, Clone, Copy)]
pub enum Identifier {
    /// Ichidan verbs, tagged `v1`.
    Ichidan,
    /// Godan verbs, tagged `v5`.
    Godan,
}

/// Whether `t` is a part-of-speech tag of an ichidan verb.
pub open spec fn is_ichidan_tag(t: Seq<char>) -> bool {
    t == "v1"@ || t == "v1-s"@
}

/// Whether `t` is a part-of-speech tag of a godan verb.
pub open spec fn is_godan_tag(t: Seq<char>) -> bool {
    t == "v5aru"@ || t == "v5b"@ || t == "v5g"@ || t == "v5k"@ || t == "v5k-s"@ || t == "v5m"@
        || t == "v5n"@ || t == "v5r"@ || t == "v5r-i"@ || t == "v5s"@ || t == "v5t"@ || t
        == "v5u"@ || t == "v5u-s"@ || t == "v5uru"@
}

/// The conjugation class that a single part-of-speech tag names, if any.
pub open spec fn tag_class(t: Seq<char>) -> Option<Identifier> {
    if is_ichidan_tag(t) {
        Some(Identifier::Ichidan)
    } else if is_godan_tag(t) {
        Some(Identifier::Godan)
    } else {
        None
    }
}

/// The class named by the last tag of `tags` that names one.
pub open spec fn tags_class(tags: Seq<Seq<char>>) -> Option<Identifier>
    decreases tags.len(),
{
    if tags.len() == 0 {
        None
    } else {
        match tag_class(tags.last()) {
            Some(c) => Some(c),
            None => tags_class(tags.drop_last()),
        }
    }
}

/// The inflection tag written for a class: `v1`, `v5`, or empty.
pub open spec fn class_text(c: Option<Identifier>) -> Seq<char> {
    match c {
        Some(Identifier::Ichidan) => "v1"@,
        Some(Identifier::Godan) => "v5"@,
        None => ""@,
    }
}

/// The class of an entry: that of its first sense's part-of-speech tags.
pub open spec fn entry_class(senses: Seq<SenseView>) -> Option<Identifier> {
    if senses.len() == 0 {
        None
    } else {
        tags_class(senses[0].pos)
    }
}

/// An entry whose first sense has an ichidan tag and no godan tag is tagged `v1`; one with a
/// godan tag and no ichidan tag is tagged `v5`; one with neither is not tagged.
pub proof fn lemma_inflection_tag(senses: Seq<SenseView>)
    requires
        senses.len() > 0,
    ensures
        ({
            let tags = senses[0].pos;
            let ichidan = exists|i: int| 0 <= i < tags.len() && is_ichidan_tag(#[trigger] tags[i]);
            let godan = exists|i: int| 0 <= i < tags.len() && is_godan_tag(#[trigger] tags[i]);
            &&& ichidan && !godan ==> class_text(entry_class(senses)) == "v1"@
            &&& godan && !ichidan ==> class_text(entry_class(senses)) == "v5"@
            &&& !ichidan && !godan ==> class_text(entry_class(senses)) == ""@
        }),
{
    lemma_tags_class(senses[0].pos);
}

proof fn lemma_tags_class(tags: Seq<Seq<char>>)
    ensures
        ({
            let ichidan = exists|i: int| 0 <= i < tags.len() && is_ichidan_tag(#[trigger] tags[i]);
            let godan = exists|i: int| 0 <= i < tags.len() && is_godan_tag(#[trigger] tags[i]);
            &&& ichidan && !godan ==> tags_class(tags) == Some(Identifier::Ichidan)
            &&& godan && !ichidan ==> tags_class(tags) == Some(Identifier::Godan)
            &&& !ichidan && !godan ==> tags_class(tags) is None
        }),
    decreases tags.len(),
{
    if tags.len() > 0 {
        let rest = tags.drop_last();
        lemma_tags_class(rest);
        let ichidan = exists|i: int| 0 <= i < tags.len() && is_ichidan_tag(#[trigger] tags[i]);
        let godan = exists|i: int| 0 <= i < tags.len() && is_godan_tag(#[trigger] tags[i]);
        if exists|i: int| 0 <= i < rest.len() && is_ichidan_tag(#[trigger] rest[i]) {
            let i = choose|i: int| 0 <= i < rest.len() && is_ichidan_tag(#[trigger] rest[i]);
            assert(tags[i] == rest[i]);
        }
        if exists|i: int| 0 <= i < rest.len() && is_godan_tag(#[trigger] rest[i]) {
            let i = choose|i: int| 0 <= i < rest.len() && is_godan_tag(#[trigger] rest[i]);
            assert(tags[i] == rest[i]);
        }
        if ichidan && !is_ichidan_tag(tags.last()) {
            let i = choose|i: int| 0 <= i < tags.len() && is_ichidan_tag(#[trigger] tags[i]);
            assert(i < rest.len() && rest[i] == tags[i]);
        }
        if godan && !is_godan_tag(tags.last()) {
            let i = choose|i: int| 0 <= i < tags.len() && is_godan_tag(#[trigger] tags[i]);
            assert(i < rest.len() && rest[i] == tags[i]);
        }
        if !ichidan {
            assert(!is_ichidan_tag(tags[tags.len() - 1]));
        }
        if !godan {
            assert(!is_godan_tag(tags[tags.len() - 1]));
        }
    }
}

fn class_of_tag(t: &str) -> (r: Option<Identifier>)
    ensures
        r == tag_class(t@),
{
    if eq_str(t, "v1") || eq_str(t, "v1-s") {
        Some(Identifier::Ichidan)
    } else if eq_str(t, "v5aru") || eq_str(t, "v5b") || eq_str(t, "v5g") || eq_str(t, "v5k")
        || eq_str(t, "v5k-s") || eq_str(t, "v5m") || eq_str(t, "v5n") || eq_str(t, "v5r")
        || eq_str(t, "v5r-i") || eq_str(t, "v5s") || eq_str(t, "v5t") || eq_str(t, "v5u")
        || eq_str(t, "v5u-s") || eq_str(t, "v5uru") {
        Some(Identifier::Godan)
    } else {
        None
    }
}

fn class_str(c: Option<Identifier>) -> (r: &'static str)
    ensures
        r@ == class_text(c),
{
    match c {
        Some(Identifier::Ichidan) => "v1",
        Some(Identifier::Godan) => "v5",
        None => "",
    }
}

impl Identifier {
    /// The inflection tag for one part-of-speech tag: `v1`, `v5`, or empty.
    pub fn to_identifier(s: &str) -> (r: &'static str)
        ensures
            r@ == class_text(tag_class(s@)),
    {
        class_str(class_of_tag(s))
    }
}

/// The header of the gloss text: readings, then spellings in lenticular brackets.
pub open spec fn gloss_header(d: DefinitionView) -> Seq<char> {
    join(d.readings, "・"@) + "【"@ + join(d.terms, "・"@) + "】"@
}

/// A bracketed tag list, on a line of its own.
pub open spec fn tag_block(tags: Seq<Seq<char>>) -> Seq<char> {
    "\\n〘"@ + join(tags, "・"@) + "〙"@
}

/// The numbered lines of the first `n` senses.
pub open spec fn sense_lines(senses: Seq<SenseView>, n: nat) -> Seq<char>
    decreases n,
{
    if n == 0 {
        Seq::empty()
    } else {
        let s = senses[n - 1];
        sense_lines(senses, (n - 1) as nat) + "\\n"@ + dec(n) + " 〘"@ + join(s.misc, "・"@)
            + "〙 "@ + join(s.gloss, "; "@) + "."@
    }
}

/// The body of the gloss text: for a single sense its part-of-speech block, its misc block
/// where it has misc tags, and its glosses; for several senses one numbered line each,
/// without part-of-speech tags.
pub open spec fn gloss_body(senses: Seq<SenseView>) -> Seq<char> {
    if senses.len() == 1 {
        tag_block(senses[0].pos)
            + (if senses[0].misc.len() > 0 { tag_block(senses[0].misc) } else { Seq::empty() })
            + "\\n"@ + join(senses[0].gloss, "; "@) + "."@
    } else {
        sense_lines(senses, senses.len())
    }
}

/// The display text that every term record of an entry carries.
pub open spec fn gloss_text(d: DefinitionView) -> Seq<char> {
    gloss_header(d) + gloss_body(d.senses)
}

fn push_tag_block(out: &mut String, tags: &Vec<String>)
    ensures
        final(out)@ == old(out)@ + tag_block(views(tags@)),
{
    out.append("\\n〘");
    let j = join_strings(tags, "・");
    out.append(j.as_str());
    out.append("〙");
}

impl Definition {
    /// The inflection tag of the entry, from its first sense's part-of-speech tags.
    pub fn pos_to_identifier(&self) -> (r: String)
        ensures
            r@ == class_text(entry_class(self@.senses)),
    {
        let mut class: Option<Identifier> = None;
        if self.senses.len() > 0 {
            let tags = &self.senses[0].pos;
            let mut i: usize = 0;
            while i < tags.len()
                invariant
                    self.senses@.len() > 0,
                    tags == &self.senses@[0].pos,
                    i <= tags@.len(),
                    class == tags_class(views(tags@.subrange(0, i as int))),
                decreases tags@.len() - i,
            {
                let c = class_of_tag(tags[i].as_str());
                proof {
                    let a = views(tags@.subrange(0, i as int + 1));
                    assert(a.drop_last() =~= views(tags@.subrange(0, i as int)));
                    assert(a.last() == tags@[i as int]@);
                }
                if c.is_some() {
                    class = c;
                }
                i = i + 1;
            }
            assert(tags@.subrange(0, tags@.len() as int) =~= tags@);
        }
        String::from_str(class_str(class))
    }

    /// The gloss text of the entry.
    pub fn serialize_gloss(&self) -> (r: String)
        ensures
            r@ == gloss_text(self@),
    {
        let mut r = join_strings(&self.reading, "・");
        r.append("【");
        let terms = join_strings(&self.term, "・");
        r.append(terms.as_str());
        r.append("】");
        assert(r@ == gloss_header(self@));
        let n = self.senses.len();
        let ghost start = r@;
        if n == 1 {
            let s = &self.senses[0];
            push_tag_block(&mut r, &s.pos);
            if s.misc.len() > 0 {
                push_tag_block(&mut r, &s.misc);
            }
            r.append("\\n");
            let g = join_strings(&s.gloss, "; ");
            r.append(g.as_str());
            r.append(".");
        } else {
            let mut i: usize = 0;
            while i < n
                invariant
                    n == self.senses@.len(),
                    i <= n,
                    r@ == start + sense_lines(self@.senses, i as nat),
                decreases n - i,
            {
                let s = &self.senses[i];
                r.append("\\n");
                push_dec(&mut r, (i + 1) as u128);
                r.append(" 〘");
                let m = join_strings(&s.misc, "・");
                r.append(m.as_str());
                r.append("〙 ");
                let g = join_strings(&s.gloss, "; ");
                r.append(g.as_str());
                r.append(".");
                i = i + 1;
            }
        }
        r
    }
}

/// One point of popularity, in millionths.
pub const POINT: i128 = 1000000;

/// One flattened term record of an entry, before it gets its record number.
#[derive(Debug)]
pub struct TermRow {
    /// The spelling field.
    pub term: String,
    /// The reading field.
    pub reading: String,
    /// The inflection tag: `v1`, `v5`, or empty.
    pub identifier: String,
    /// The popularity, in millionths.
    pub popularity: i128,
    /// The gloss text.
    pub gloss: String,
}

/// The fields of a term row that differ between the rows of one entry.
pub ghost struct RowView {
    pub term: Seq<char>,
    pub reading: Seq<char>,
    pub popularity: int,
}

impl View for TermRow {
    type V = RowView;

    open spec fn view(&self) -> RowView {
        RowView { term: self.term@, reading: self.reading@, popularity: self.popularity as int }
    }
}

/// Whether a row carries the given inflection tag and gloss text.
pub open spec fn same_text(row: TermRow, identifier: Seq<char>, gloss: Seq<char>) -> bool {
    row.identifier@ == identifier && row.gloss@ == gloss
}

/// The views of a list of rows.
pub open spec fn row_views(rows: Seq<TermRow>) -> Seq<RowView> {
    rows.map_values(|r: TermRow| r@)
}

/// How many spelling-reading rows an entry with `t` spellings and `r` readings yields.
pub open spec fn canonical_count(t: nat, r: nat) -> nat {
    if t == 0 { r } else { t * r }
}

/// Whether the outer axis of the expansion runs over the readings.
pub open spec fn readings_outer(t: nat, r: nat) -> bool {
    r > t
}

/// The length of the inner axis of the expansion.
pub open spec fn inner_len(t: nat, r: nat) -> nat {
    if t == 0 { 1 } else if readings_outer(t, r) { t } else { r }
}

/// Row `k` of the spelling-reading rows: the outer axis is the longer list, and the row at
/// outer index `k / inner` ranks that many points below `base`.
pub open spec fn canonical_row(
    terms: Seq<Seq<char>>,
    readings: Seq<Seq<char>>,
    base: int,
    k: int,
) -> RowView {
    let t = terms.len();
    let r = readings.len();
    let n = inner_len(t, r) as int;
    let i = k / n;
    let j = k % n;
    if t == 0 {
        RowView { term: readings[k], reading: readings[k], popularity: base - k * POINT }
    } else if readings_outer(t, r) {
        RowView { term: terms[j], reading: readings[i], popularity: base - i * POINT }
    } else {
        RowView { term: terms[i], reading: readings[j], popularity: base - i * POINT }
    }
}

/// The extra row of a usually-kana entry for its `k`-th reading: an empty spelling field,
/// the reading, and one point above the base popularity.
pub open spec fn kana_row(readings: Seq<Seq<char>>, base: int, k: int) -> RowView {
    RowView { term: Seq::empty(), reading: readings[k], popularity: base + POINT }
}

/// The rows that an entry expands into, given its base popularity.
pub open spec fn expansion(d: DefinitionView, base: int) -> Seq<RowView> {
    let t = d.terms.len();
    let r = d.readings.len();
    let canonical = Seq::new(
        canonical_count(t, r),
        |k: int| canonical_row(d.terms, d.readings, base, k),
    );
    if d.uk {
        canonical + Seq::new(r, |k: int| kana_row(d.readings, base, k))
    } else {
        canonical
    }
}

/// How many rows an entry expands into.
pub open spec fn row_count(d: DefinitionView) -> nat {
    canonical_count(d.terms.len(), d.readings.len()) + if d.uk { d.readings.len() } else { 0 }
}

/// An entry with `T` spellings and `R` readings expands into `T * R` rows (`R` rows when it
/// has no spelling), followed by `R` more rows when it is usually written in kana, and no
/// more otherwise.
pub proof fn lemma_expansion_count(d: DefinitionView, base: int)
    ensures
        expansion(d, base).len() == row_count(d),
        d.terms.len() > 0 ==> canonical_count(d.terms.len(), d.readings.len()) == d.terms.len()
            * d.readings.len(),
        d.terms.len() == 0 ==> canonical_count(d.terms.len(), d.readings.len())
            == d.readings.len(),
{
}

/// The row at outer index `i` ranks `i` points below the base popularity; the extra rows
/// of a usually-kana entry rank one point above it.
pub proof fn lemma_expansion_popularity(d: DefinitionView, base: int, k: int)
    requires
        0 <= k < expansion(d, base).len(),
    ensures
        k < canonical_count(d.terms.len(), d.readings.len()) ==> expansion(d, base)[k].popularity
            == base - (k / (inner_len(d.terms.len(), d.readings.len()) as int)) * POINT,
        k >= canonical_count(d.terms.len(), d.readings.len()) ==> d.uk && expansion(
            d,
            base,
        )[k].popularity == base + POINT,
{
}

proof fn lemma_index_split(i: int, j: int, n: int)
    requires
        n > 0,
        i >= 0,
        0 <= j < n,
    ensures
        (i * n + j) / n == i,
        (i * n + j) % n == j,
{
    lemma_fundamental_div_mod_converse(i * n + j, n, i, j);
}

impl Definition {
    fn make_row(
        term: &String,
        reading: &String,
        popularity: i128,
        identifier: &String,
        gloss: &String,
    ) -> (r: TermRow)
        ensures
            r@ == (RowView { term: term@, reading: reading@, popularity: popularity as int }),
            r.identifier@ == identifier@,
            r.gloss@ == gloss@,
    {
        TermRow {
            term: term.clone(),
            reading: reading.clone(),
            identifier: identifier.clone(),
            popularity,
            gloss: gloss.clone(),
        }
    }

    /// The term rows of the entry, given its base popularity in millionths.
    pub fn expand(&self, base: i128) -> (rows: Vec<TermRow>)
        requires
            popularity_range(base as int),
        ensures
            row_views(rows@) == expansion(self@, base as int),
            forall|k: int|
                0 <= k < rows@.len() ==> same_text(
                    #[trigger] rows@[k],
                    class_text(entry_class(self@.senses)),
                    gloss_text(self@),
                ),
    {
        let identifier = self.pos_to_identifier();
        let gloss = self.serialize_gloss();
        let ghost d = self@;
        let t = self.term.len();
        let r = self.reading.len();
        let mut rows: Vec<TermRow> = Vec::new();
        let ghost canonical = Seq::new(
            canonical_count(t as nat, r as nat),
            |k: int| canonical_row(d.terms, d.readings, base as int, k),
        );
        if t == 0 {
            let mut k: usize = 0;
            while k < r
                invariant
                    canonical == Seq::new(
                        canonical_count(t as nat, r as nat),
                        |k: int| canonical_row(d.terms, d.readings, base as int, k),
                    ),
                    t == 0,
                    t == self.term@.len(),
                    r == self.reading@.len(),
                    d == self@,
                    popularity_range(base as int),
                    k <= r,
                    rows@.len() == k,
                    forall|m: int| 0 <= m < k ==> #[trigger] rows@[m]@ == canonical[m],
                    forall|m: int|
                        0 <= m < rows@.len() ==> same_text(#[trigger] rows@[m], identifier@, gloss@),
                decreases r - k,
            {
                let pop = base - k as i128 * POINT;
                let row = Self::make_row(&self.reading[k], &self.reading[k], pop, &identifier, &gloss);
                proof {
                    assert(d.readings[k as int] == self.reading@[k as int]@);
                    assert(row@ == canonical[k as int]);
                }
                rows.push(row);
                k = k + 1;
            }
        } else {
            let outer = if r > t { r } else { t };
            let inner = if r > t { t } else { r };
            proof {
                assert(canonical.len() == outer * inner) by (nonlinear_arith)
                    requires
                        canonical.len() == canonical_count(t as nat, r as nat),
                        t > 0,
                        outer == (if r > t { r } else { t }),
                        inner == (if r > t { t } else { r }),
                        canonical_count(t as nat, r as nat) == t * r;
            }
            let mut i: usize = 0;
            while i < outer
                invariant
                    canonical == Seq::new(
                        canonical_count(t as nat, r as nat),
                        |k: int| canonical_row(d.terms, d.readings, base as int, k),
                    ),
                    canonical.len() == outer * inner,
                    t > 0,
                    t == self.term@.len(),
                    r == self.reading@.len(),
                    d == self@,
                    popularity_range(base as int),
                    outer == (if r > t { r } else { t }),
                    inner == inner_len(t as nat, r as nat),
                    i <= outer,
                    rows@.len() == i * inner,
                    forall|m: int| 0 <= m < rows@.len() ==> #[trigger] rows@[m]@ == canonical[m],
                    forall|m: int|
                        0 <= m < rows@.len() ==> same_text(#[trigger] rows@[m], identifier@, gloss@),
                decreases outer - i,
            {
                let mut j: usize = 0;
                while j < inner
                    invariant
                        canonical == Seq::new(
                        canonical_count(t as nat, r as nat),
                        |k: int| canonical_row(d.terms, d.readings, base as int, k),
                    ),
                        canonical.len() == outer * inner,
                        t > 0,
                        t == self.term@.len(),
                        r == self.reading@.len(),
                        d == self@,
                        popularity_range(base as int),
                        outer == (if r > t { r } else { t }),
                        inner == inner_len(t as nat, r as nat),
                        i < outer,
                        j <= inner,
                        rows@.len() == i * inner + j,
                        forall|m: int| 0 <= m < rows@.len() ==> #[trigger] rows@[m]@ == canonical[m],
                        forall|m: int|
                            0 <= m < rows@.len() ==> same_text(#[trigger] rows@[m], identifier@, gloss@),
                    decreases inner - j,
                {
                    let pop = base - i as i128 * POINT;
                    let row = if r > t {
                        Self::make_row(&self.term[j], &self.reading[i], pop, &identifier, &gloss)
                    } else {
                        Self::make_row(&self.term[i], &self.reading[j], pop, &identifier, &gloss)
                    };
                    proof {
                        lemma_index_split(i as int, j as int, inner as int);
                        assert(i * inner + inner <= outer * inner) by (nonlinear_arith)
                            requires i < outer;
                        let m = i * inner + j;
                        if r > t {
                            assert(d.terms[j as int] == self.term@[j as int]@);
                            assert(d.readings[i as int] == self.reading@[i as int]@);
                        } else {
                            assert(d.terms[i as int] == self.term@[i as int]@);
                            assert(d.readings[j as int] == self.reading@[j as int]@);
                        }
                        assert(row@ == canonical[m]);
                    }
                    rows.push(row);
                    j = j + 1;
                }
                proof {
                    assert((i + 1) * inner == i * inner + inner) by (nonlinear_arith);
                }
                i = i + 1;
            }
        }
        assert(row_views(rows@) =~= canonical);
        assert(rows@.len() == canonical.len());
        if self.uk {
            let ghost start = rows@.len();
            let mut k: usize = 0;
            while k < r
                invariant
                    r == self.reading@.len(),
                    d == self@,
                    popularity_range(base as int),
                    k <= r,
                    start == canonical.len(),
                    rows@.len() == start + k,
                    forall|m: int| 0 <= m < start ==> #[trigger] rows@[m]@ == canonical[m],
                    forall|m: int|
                        start <= m < rows@.len() ==> #[trigger] rows@[m]@ == kana_row(
                            d.readings,
                            base as int,
                            m - start,
                        ),
                    forall|m: int|
                        0 <= m < rows@.len() ==> same_text(#[trigger] rows@[m], identifier@, gloss@),
                decreases r - k,
            {
                let row = Self::make_row(&String::new(), &self.reading[k], base + POINT, &identifier, &gloss);
                rows.push(row);
                k = k + 1;
            }
            assert(row_views(rows@) =~= expansion(d, base as int));
        }
        assert(row_views(rows@) =~= expansion(d, base as int));
        rows
    }
}

} // verus!
