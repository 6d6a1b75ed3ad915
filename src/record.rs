use vstd::prelude::*;

use chrono::{Datelike, Timelike};
use csv::StringRecord;

use crate::author::byte_len;
use crate::message::{Message, Timestamp};
use crate::text::{
    decimal_value, parse_u128, split_on, split_spec, strip_chars, views_of, without_chars,
};

verus! {

/// How the timestamp column of a record is written.
pub const DATE_FORMAT: &'static str = "%d-%b-%y %I:%M %p";

#[verifier::external_type_specification]
#[verifier::external_body]
pub struct ExStringRecord(StringRecord);

/// The fields of a CSV record, in order.
pub uninterp spec fn record_fields(r: StringRecord) -> Seq<Seq<char>>;

/// Relies on csv's `StringRecord::get`: the field at index `i`, or `None`
/// when the record has no more than `i` fields.
#[verifier::external_body]
fn record_field(r: &StringRecord, i: usize) -> (f: Option<String>)
    ensures
        match f {
            Some(s) => i < record_fields(*r).len() && s@ == record_fields(*r)[i as int],
            None => i >= record_fields(*r).len(),
        },
{
    r.get(i).map(String::from)
}

/// Year, month, day, hour, minute and second that chrono reads from `s`
/// with format `fmt`, if it accepts `s`.
pub uninterp spec fn parsed_date_time(s: Seq<char>, fmt: Seq<char>) -> Option<
    (int, int, int, int, int, int),
>;

/// The fields of a timestamp as a tuple.
pub open spec fn stamp_fields(t: Timestamp) -> (int, int, int, int, int, int) {
    (t.year as int, t.month as int, t.day as int, t.hour as int, t.minute as int, t.second as int)
}

/// Relies on chrono's `NaiveDateTime::parse_from_str`, and on its accessors
/// `month` (1 to 12), `day` (1 to 31), `hour` (0 to 23), `minute` and
/// `second` (0 to 59).
#[verifier::external_body]
fn parse_date_time(s: &str, fmt: &str) -> (r: Option<Timestamp>)
    ensures
        match r {
            Some(t) => t.wf() && parsed_date_time(s@, fmt@) == Some(stamp_fields(t)),
            None => parsed_date_time(s@, fmt@) is None,
        },
{
    match chrono::NaiveDateTime::parse_from_str(s, fmt) {
        Ok(d) => Some(
            Timestamp {
                year: d.year(),
                month: d.month(),
                day: d.day(),
                hour: d.hour(),
                minute: d.minute(),
                second: d.second(),
            },
        ),
        Err(_) => None,
    }
}

/// Why a record could not be read as a message.
#[derive(Clone, Copy, Debug, PartialEq, Eq, Structural)]
pub enum IngestError {
    /// The record has fewer than six fields; the index of the first missing one.
    MissingField(usize),
    /// The first field is not an unsigned 64-bit number.
    BadAuthorId,
    /// The third field is not a date and time in `DATE_FORMAT`.
    BadTimestamp,
    /// A reaction is not written as a label, a space and a count.
    BadReaction,
}

/// The items of a comma-separated list field; a field of five bytes or
/// fewer is the empty marker and holds none.
pub open spec fn list_items(f: Seq<char>) -> Seq<Seq<char>> {
    if byte_len(f) > 5 {
        split_spec(f, ',')
    } else {
        Seq::empty()
    }
}

/// A reaction item splits at spaces into a label and at least a count.
pub open spec fn reaction_ok(item: Seq<char>) -> bool {
    split_spec(item, ' ').len() >= 2
}

/// The count of a reaction item: its second piece without parentheses,
/// read as a number, or zero where that fails.
pub open spec fn reaction_count(item: Seq<char>) -> u128 {
    match decimal_value(strip_chars(split_spec(item, ' ')[1], '(', ')')) {
        Some(v) => if v <= u128::MAX {
            v as u128
        } else {
            0
        },
        None => 0,
    }
}

/// The author id that a field spells, if it spells one.
pub open spec fn author_id_of(f: Seq<char>) -> Option<u64> {
    match decimal_value(f) {
        Some(v) => if v <= u64::MAX {
            Some(v as u64)
        } else {
            None
        },
        None => None,
    }
}

/// The error, if any, that reading a record with these fields gives.
pub open spec fn record_error(fields: Seq<Seq<char>>) -> Option<IngestError> {
    if fields.len() < 6 {
        Some(IngestError::MissingField(fields.len() as usize))
    } else if author_id_of(fields[0]) is None {
        Some(IngestError::BadAuthorId)
    } else if parsed_date_time(fields[2], DATE_FORMAT@) is None {
        Some(IngestError::BadTimestamp)
    } else if exists|i: int|
        0 <= i < list_items(fields[5]).len() && !reaction_ok(#[trigger] list_items(fields[5])[i]) {
        Some(IngestError::BadReaction)
    } else {
        None
    }
}

/// The reactions that a reaction field holds.
pub open spec fn reactions_read(f: Seq<char>, r: Seq<(String, u128)>) -> bool {
    &&& r.len() == list_items(f).len()
    &&& forall|i: int|
        0 <= i < r.len() ==> (#[trigger] r[i]).0@ == split_spec(list_items(f)[i], ' ')[0] && r[i].1
            == reaction_count(list_items(f)[i])
}

/// `m` is what a record with these fields, read from channel `channel_id`,
/// stands for.
pub open spec fn message_read(fields: Seq<Seq<char>>, channel_id: u64, m: Message) -> bool {
    &&& fields.len() >= 6
    &&& author_id_of(fields[0]) == Some(m.author_id)
    &&& m.author_name@ == fields[1]
    &&& m.date.wf()
    &&& parsed_date_time(fields[2], DATE_FORMAT@) == Some(stamp_fields(m.date))
    &&& m.channel_id == channel_id
    &&& m.content@ == fields[3]
    &&& views_of(m.attachments@) == list_items(fields[4])
    &&& reactions_read(fields[5], m.reactions@)
}

fn list_field(f: &String) -> (r: Vec<String>)
    ensures
        views_of(r@) == list_items(f@),
{
    if f.as_str().as_bytes().len() > 5 {
        split_on(f.as_str(), ',')
    } else {
        let r: Vec<String> = Vec::new();
        proof {
            assert(views_of(r@) =~= Seq::<Seq<char>>::empty());
        }
        r
    }
}

fn read_reactions(f: &String) -> (r: Result<Vec<(String, u128)>, IngestError>)
    ensures
        match r {
            Ok(v) => reactions_read(f@, v@) && forall|i: int|
                0 <= i < list_items(f@).len() ==> reaction_ok(#[trigger] list_items(f@)[i]),
            Err(e) => e == IngestError::BadReaction && exists|i: int|
                0 <= i < list_items(f@).len() && !reaction_ok(#[trigger] list_items(f@)[i]),
        },
{
    let items = list_field(f);
    let ghost li = list_items(f@);
    let mut out: Vec<(String, u128)> = Vec::new();
    let mut i: usize = 0;
    while i < items.len()
        invariant
            i <= items@.len(),
            views_of(items@) == li,
            li == list_items(f@),
            out@.len() == i,
            forall|j: int| 0 <= j < i ==> reaction_ok(#[trigger] li[j]),
            forall|j: int|
                0 <= j < i ==> (#[trigger] out@[j]).0@ == split_spec(li[j], ' ')[0] && out@[j].1
                    == reaction_count(li[j]),
        decreases items@.len() - i,
    {
        let parts = split_on(items[i].as_str(), ' ');
        proof {
            assert(li[i as int] == items@[i as int]@);
        }
        if parts.len() < 2 {
            return Err(IngestError::BadReaction);
        }
        let count = match parse_u128(without_chars(parts[1].as_str(), '(', ')').as_str()) {
            Some(v) => v,
            None => 0,
        };
        out.push((parts[0].clone(), count));
        i = i + 1;
    }
    Ok(out)
}

impl Message {
    /// Reads a record with the fields author id, author name, timestamp,
    /// content, attachments and reactions, in that order.
    pub fn from_csv_string(record: StringRecord, channel_id: u64) -> (r: Result<Message, IngestError>)
        ensures
            match r {
                Ok(m) => (record_error(record_fields(record)) is None) && message_read(
                    record_fields(record),
                    channel_id,
                    m,
                ),
                Err(e) => record_error(record_fields(record)) == Some(e),
            },
    {
        let ghost fields = record_fields(record);
        let f0 = match record_field(&record, 0) {
            Some(f) => f,
            None => return Err(IngestError::MissingField(0)),
        };
        let f1 = match record_field(&record, 1) {
            Some(f) => f,
            None => return Err(IngestError::MissingField(1)),
        };
        let f2 = match record_field(&record, 2) {
            Some(f) => f,
            None => return Err(IngestError::MissingField(2)),
        };
        let f3 = match record_field(&record, 3) {
            Some(f) => f,
            None => return Err(IngestError::MissingField(3)),
        };
        let f4 = match record_field(&record, 4) {
            Some(f) => f,
            None => return Err(IngestError::MissingField(4)),
        };
        let f5 = match record_field(&record, 5) {
            Some(f) => f,
            None => return Err(IngestError::MissingField(5)),
        };
        let author_id: u64 = match parse_u128(f0.as_str()) {
            Some(v) => {
                if v > u64::MAX as u128 {
                    return Err(IngestError::BadAuthorId);
                }
                v as u64
            },
            None => return Err(IngestError::BadAuthorId),
        };
        let date = match parse_date_time(f2.as_str(), DATE_FORMAT) {
            Some(d) => d,
            None => return Err(IngestError::BadTimestamp),
        };
        let attachments = list_field(&f4);
        let reactions = match read_reactions(&f5) {
            Ok(v) => v,
            Err(e) => return Err(e),
        };
        Ok(
            Message {
                author_id,
                author_name: f1,
                date,
                channel_id,
                content: f3,
                attachments,
                reactions,
            },
        )
    }

    /// Reads every record in turn; the first record that cannot be read
    /// ends the work with its error.
    pub fn from_csv_records(records: Vec<StringRecord>, channel_id: u64) -> (r: Result<
        Vec<Message>,
        IngestError,
    >)
        ensures
            match r {
                Ok(v) => v@.len() == records@.len() && forall|i: int|
                    0 <= i < v@.len() ==> read_as(records@[i], channel_id, #[trigger] v@[i]),
                Err(e) => exists|i: int|
                    0 <= i < records@.len() && record_error(record_fields(#[trigger] records@[i]))
                        == Some(e) && forall|j: int|
                        0 <= j < i ==> (record_error(record_fields(#[trigger] records@[j])) is None),
            },
    {
        let ghost all = records@;
        let mut out: Vec<Message> = Vec::new();
        for record in it: records.into_iter()
            invariant
                it.seq() == all,
                all == records@,
                out@.len() == it.index(),
                forall|i: int| 0 <= i < out@.len() ==> read_as(all[i], channel_id, #[trigger] out@[i]),
        {
            let ghost k = it.index();
            let ghost before = out@;
            proof {
                assert(record == all[k]);
            }
            match Message::from_csv_string(record, channel_id) {
                Ok(m) => {
                    out.push(m);
                    proof {
                        assert forall|i: int| 0 <= i < out@.len() implies read_as(
                            all[i],
                            channel_id,
                            #[trigger] out@[i],
                        ) by {
                            if i < k {
                                assert(out@[i] == before[i]);
                            }
                        }
                    }
                },
                Err(e) => {
                    proof {
                        assert(record_error(record_fields(all[k])) == Some(e));
                        assert forall|j: int| 0 <= j < k implies (record_error(
                            record_fields(#[trigger] all[j]),
                        ) is None) by {
                            assert(read_as(all[j], channel_id, out@[j]));
                        }
                    }
                    return Err(e);
                },
            }
        }
        proof {
            assert(out@.len() == all.len());
        }
        Ok(out)
    }
}

/// `m` is what `record`, read from channel `channel_id`, stands for.
pub open spec fn read_as(record: StringRecord, channel_id: u64, m: Message) -> bool {
    &&& record_error(record_fields(record)) is None
    &&& message_read(record_fields(record), channel_id, m)
}

} // verus!
