use csv::StringRecord;

use chat_stats::message::{Message, Timestamp};
use chat_stats::record::IngestError;

fn record(fields: &[&str]) -> StringRecord {
    StringRecord::from(fields.to_vec())
}

#[test]
fn reads_a_full_record() {
    let r = record(&[
        "123456789012345678",
        "alice#0001",
        "05-Mar-21 02:30 PM",
        "hello there",
        "https://x/a.png,https://x/b.png",
        "👍 (3),tada (12)",
    ]);
    let m = Message::from_csv_string(r, 99).unwrap();
    assert_eq!(m.author_id, 123456789012345678);
    assert_eq!(m.author_name, "alice#0001");
    assert_eq!(
        m.date,
        Timestamp { year: 2021, month: 3, day: 5, hour: 14, minute: 30, second: 0 }
    );
    assert_eq!(m.channel_id, 99);
    assert_eq!(m.content, "hello there");
    assert_eq!(m.attachments, vec!["https://x/a.png".to_string(), "https://x/b.png".to_string()]);
    assert_eq!(m.reactions, vec![("👍".to_string(), 3), ("tada".to_string(), 12)]);
}

#[test]
fn short_list_fields_are_empty_markers() {
    let r = record(&["1", "bob", "31-Dec-99 12:05 AM", "", "None", ""]);
    let m = Message::from_csv_string(r, 1).unwrap();
    assert!(m.attachments.is_empty());
    assert!(m.reactions.is_empty());
    assert_eq!(m.date, Timestamp { year: 1999, month: 12, day: 31, hour: 0, minute: 5, second: 0 });
}

#[test]
fn unreadable_reaction_count_is_zero() {
    let r = record(&["1", "bob", "01-Jan-20 01:00 AM", "x", "", "smile (lots)"]);
    let m = Message::from_csv_string(r, 1).unwrap();
    assert_eq!(m.reactions, vec![("smile".to_string(), 0)]);
}

#[test]
fn missing_field_is_reported() {
    let r = record(&["1", "bob", "01-Jan-20 01:00 AM"]);
    assert_eq!(Message::from_csv_string(r, 1).err(), Some(IngestError::MissingField(3)));
    assert_eq!(Message::from_csv_string(record(&[]), 1).err(), Some(IngestError::MissingField(0)));
}

#[test]
fn bad_author_id_is_reported() {
    let r = record(&["-5", "bob", "01-Jan-20 01:00 AM", "x", "", ""]);
    assert_eq!(Message::from_csv_string(r, 1).err(), Some(IngestError::BadAuthorId));
    let big = record(&["18446744073709551616", "bob", "01-Jan-20 01:00 AM", "x", "", ""]);
    assert_eq!(Message::from_csv_string(big, 1).err(), Some(IngestError::BadAuthorId));
    let plus = record(&["+18446744073709551615", "bob", "01-Jan-20 01:00 AM", "x", "", ""]);
    assert_eq!(Message::from_csv_string(plus, 1).unwrap().author_id, u64::MAX);
}

#[test]
fn bad_timestamp_is_reported() {
    let r = record(&["1", "bob", "2020-01-01 10:00", "x", "", ""]);
    assert_eq!(Message::from_csv_string(r, 1).err(), Some(IngestError::BadTimestamp));
}

#[test]
fn bad_reaction_is_reported() {
    let r = record(&["1", "bob", "01-Jan-20 01:00 AM", "x", "", "nospacehere"]);
    assert_eq!(Message::from_csv_string(r, 1).err(), Some(IngestError::BadReaction));
}

#[test]
fn first_bad_record_stops_reading() {
    let good = record(&["1", "bob", "01-Jan-20 01:00 AM", "x", "", ""]);
    let bad = record(&["1", "bob", "nope", "x", "", ""]);
    let also_good = record(&["2", "eve", "01-Jan-20 01:00 AM", "y", "", ""]);
    let all = Message::from_csv_records(vec![good.clone(), also_good.clone()], 3).unwrap();
    assert_eq!(all.len(), 2);
    assert_eq!(all[1].author_name, "eve");
    assert_eq!(
        Message::from_csv_records(vec![good, bad, also_good], 3).err(),
        Some(IngestError::BadTimestamp)
    );
}
