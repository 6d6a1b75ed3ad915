use vstd::prelude::*;

pub mod tally;
pub mod text;
pub mod message;
pub mod author;
pub mod algebra;
pub mod aggregate;
pub mod record;
pub mod report;
pub mod channel;

verus! {

} // verus!
