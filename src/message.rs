use vstd::prelude::*;

verus! {

/// A local date and time, with no time zone.
#[derive(Clone, Copy, Debug, PartialEq, Eq, Structural, Hash, PartialOrd, Ord)]
pub struct Timestamp {
    pub year: i32,
    pub month: u32,
    pub day: u32,
    pub hour: u32,
    pub minute: u32,
    pub second: u32,
}

impl Timestamp {
    /// Every field lies in the range of a calendar date and a time of day.
    pub open spec fn wf(&self) -> bool {
        &&& 1 <= self.month <= 12
        &&& 1 <= self.day <= 31
        &&& self.hour < 24
        &&& self.minute < 60
        &&& self.second < 60
    }
}

/// One chat record.
pub struct Message {
    pub author_id: u64,
    pub author_name: String,
    pub date: Timestamp,
    /// The channel that the record came from.
    pub channel_id: u64,
    pub content: String,
    pub attachments: Vec<String>,
    /// Reaction labels with their counts, in record order; carried along,
    /// not aggregated.
    pub reactions: Vec<(String, u128)>,
}

} // verus!
