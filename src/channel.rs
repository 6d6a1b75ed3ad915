use vstd::prelude::*;

use crate::text::{
    decimal_value, lemma_split_len, parse_u128, split_on, split_spec, strip_chars, without_chars,
};

verus! {

/// The tag of a channel in an export file name: its 18-digit id in brackets.
pub const CHANNEL_TAG: &'static str = "(\\[[0-9]{18}\\])";

/// The leftmost-first match of regular expression `pattern` in `s`; `None`
/// where nothing matches or `pattern` is not a valid expression.
pub uninterp spec fn first_match(pattern: Seq<char>, s: Seq<char>) -> Option<Seq<char>>;

/// Relies on regex's `Regex::new` and `Regex::find`: the text of the
/// leftmost-first match of `pattern` in `s`.
#[verifier::external_body]
fn find_first(pattern: &str, s: &str) -> (r: Option<String>)
    ensures
        match r {
            Some(t) => first_match(pattern@, s@) == Some(t@),
            None => first_match(pattern@, s@) is None,
        },
{
    match regex::Regex::new(pattern) {
        Ok(re) => re.find(s).map(|m| m.as_str().to_string()),
        Err(_) => None,
    }
}

/// The channel id that a matched tag spells once its brackets are gone.
pub open spec fn tag_id(tag: Seq<char>) -> Option<u64> {
    match decimal_value(strip_chars(tag, '[', ']')) {
        Some(v) => if v <= u64::MAX {
            Some(v as u64)
        } else {
            None
        },
        None => None,
    }
}

/// Reads the channel id from the tag in `tag` once the brackets are gone.
pub fn channel_id_from_tag(tag: &str) -> (r: Option<u64>)
    ensures
        r == tag_id(tag@),
{
    let digits = without_chars(tag, '[', ']');
    match parse_u128(digits.as_str()) {
        Some(v) => {
            if v > u64::MAX as u128 {
                None
            } else {
                Some(v as u64)
            }
        },
        None => None,
    }
}

/// The channel id in the name of an export file, if the name holds a tag.
pub fn channel_id_of(path: &str) -> (r: Option<u64>)
    ensures
        r == (match first_match(CHANNEL_TAG@, path@) {
            Some(t) => tag_id(t),
            None => None,
        }),
{
    match find_first(CHANNEL_TAG, path) {
        Some(t) => channel_id_from_tag(t.as_str()),
        None => None,
    }
}

/// Each piece followed by a dash, all run together.
pub open spec fn join_dashed(pieces: Seq<Seq<char>>) -> Seq<char>
    decreases pieces.len(),
{
    if pieces.len() == 0 {
        Seq::empty()
    } else {
        join_dashed(pieces.drop_last()) + pieces.last() + seq!['-']
    }
}

/// The channel name in the name of an export file: with spaces removed,
/// the dash-separated pieces from the third on, each followed by a dash,
/// up to the first `[`.
pub open spec fn channel_name_spec(path: Seq<char>) -> Seq<char> {
    let pieces = split_spec(strip_chars(path, ' ', ' '), '-');
    let tail = if pieces.len() > 2 {
        pieces.subrange(2, pieces.len() as int)
    } else {
        Seq::empty()
    };
    split_spec(join_dashed(tail), '[')[0]
}

/// The channel name in the name of an export file.
pub fn channel_name_of(path: &str) -> (r: String)
    ensures
        r@ == channel_name_spec(path@),
{
    let squeezed = without_chars(path, ' ', ' ');
    let pieces = split_on(squeezed.as_str(), '-');
    let ghost pv = split_spec(strip_chars(path@, ' ', ' '), '-');
    let ghost tail = if pv.len() > 2 {
        pv.subrange(2, pv.len() as int)
    } else {
        Seq::<Seq<char>>::empty()
    };
    let mut joined = String::new();
    let mut i: usize = 2;
    proof {
        assert(crate::text::views_of(pieces@) == pv);
        assert(tail.take(0) =~= Seq::<Seq<char>>::empty());
    }
    while i < pieces.len()
        invariant
            2 <= i,
            crate::text::views_of(pieces@) == pv,
            pv.len() > 2 ==> i <= pv.len(),
            tail == (if pv.len() > 2 {
                pv.subrange(2, pv.len() as int)
            } else {
                Seq::<Seq<char>>::empty()
            }),
            pv.len() > 2 ==> joined@ == join_dashed(tail.take(i - 2)),
            pv.len() <= 2 ==> joined@ == Seq::<char>::empty(),
        decreases pieces@.len() - i,
    {
        proof {
            assert(tail.take(i - 1).drop_last() =~= tail.take(i - 2));
            assert(tail.take(i - 1).last() == pv[i as int]);
            assert(pieces@[i as int]@ == pv[i as int]);
        }
        joined.append(pieces[i].as_str());
        joined.append("-");
        proof {
            reveal_strlit("-");
            assert(joined@ =~= join_dashed(tail.take(i - 1)));
        }
        i = i + 1;
    }
    proof {
        if pv.len() > 2 {
            assert(tail.take(pv.len() - 2) =~= tail);
        } else {
            assert(tail.len() == 0);
        }
    }
    let parts = split_on(joined.as_str(), '[');
    proof {
        lemma_split_len(joined@, '[');
    }
    parts[0].clone()
}

} // verus!
