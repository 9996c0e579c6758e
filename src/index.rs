//! The index record that describes the dictionary as a whole.
use vstd::prelude::*;

use crate::text::{dec, dec_padded, push_dec, push_dec_padded};

verus! {

/// Metadata of the dictionary, written once to its index file.
#[derive(Debug)]
pub struct DictIndex {
    pub title: String,
    pub format: u8,
    pub revision: String,
    pub sequenced: bool,
}

/// The JSON text of an index record.
pub open spec fn index_text(
    title: Seq<char>,
    format: nat,
    revision: Seq<char>,
    sequenced: bool,
) -> Seq<char> {
    "{\"title\":\""@ + title + "\",\"format\":"@ + dec(format) + ",\"revision\":\""@ + revision
        + "\",\"sequenced\":"@ + (if sequenced { "true"@ } else { "false"@ }) + "}"@
}

/// A date as `YYYYMMDD`; a year before the common era gets a minus sign.
pub open spec fn date_text(year: int, month: nat, day: nat) -> Seq<char> {
    (if year < 0 { "-"@ } else { Seq::empty() }) + dec_padded(
        (if year < 0 { -year } else { year }) as nat,
        4,
    ) + dec_padded(month, 2) + dec_padded(day, 2)
}

/// The title of the dictionary.
pub open spec fn dict_title() -> Seq<char> {
    "JMdict"@
}

/// The format version of the term banks.
pub const DICT_FORMAT: u8 = 3;

/// Relies on `time::OffsetDateTime::now_local` with `year`, `month` and `day`: today's
/// local date, if the local offset can be determined; a month lies in `1..=12` and a day
/// in `1..=31`.
#[verifier::external_body]
fn local_date() -> (r: Option<(i32, u8, u8)>)
    ensures
        r matches Some((y, m, d)) ==> 1 <= m <= 12 && 1 <= d <= 31,
{
    time::OffsetDateTime::now_local().ok().map(|t| (t.year(), t.month() as u8, t.day()))
}

impl DictIndex {
    /// The JSON text of the record.
    pub fn serialize(&self) -> (r: String)
        ensures
            r@ == index_text(self.title@, self.format as nat, self.revision@, self.sequenced),
    {
        let mut r = String::from_str("{\"title\":\"");
        r.append(self.title.as_str());
        r.append("\",\"format\":");
        push_dec(&mut r, self.format as u128);
        r.append(",\"revision\":\"");
        r.append(self.revision.as_str());
        r.append("\",\"sequenced\":");
        if self.sequenced {
            r.append("true");
        } else {
            r.append("false");
        }
        r.append("}");
        r
    }

    /// The index of the dictionary as revised on the given date.
    pub fn for_date(year: i32, month: u8, day: u8) -> (r: DictIndex)
        ensures
            r.title@ == dict_title(),
            r.format == DICT_FORMAT,
            r.revision@ == dict_title() + "-"@ + date_text(year as int, month as nat, day as nat),
            r.sequenced,
    {
        let mut revision = String::from_str("JMdict");
        revision.append("-");
        if year < 0 {
            revision.append("-");
        }
        let magnitude: u128 = if year < 0 { (-(year as i64)) as u128 } else { year as u128 };
        push_dec_padded(&mut revision, magnitude, 4);
        push_dec_padded(&mut revision, month as u128, 2);
        push_dec_padded(&mut revision, day as u128, 2);
        DictIndex { title: String::from_str("JMdict"), format: DICT_FORMAT, revision, sequenced: true }
    }

    /// The JSON text of the index as revised today, in local time; `None` where the local
    /// offset cannot be determined.
    pub fn default_serialize() -> (r: Option<String>)
        ensures
            r matches Some(s) ==> exists|y: i32, m: u8, d: u8|
                1 <= m <= 12 && 1 <= d <= 31 && s@ == index_text(
                    dict_title(),
                    DICT_FORMAT as nat,
                    dict_title() + "-"@ + #[trigger] date_text(y as int, m as nat, d as nat),
                    true,
                ),
    {
        match local_date() {
            Some((y, m, d)) => Some(DictIndex::for_date(y, m, d).serialize()),
            None => None,
        }
    }
}

} // verus!
