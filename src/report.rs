use vstd::prelude::*;

use std::collections::HashMap;

use crate::aggregate::authors_wf;
use crate::author::{Author, AuthorView};
use crate::message::Timestamp;
use crate::tally::Tally;

verus! {

broadcast use vstd::std_specs::hash::group_hash_axioms;

/// Positions of `v` in non-increasing order of count.
pub open spec fn ranked(v: Seq<(u64, u128)>) -> bool {
    forall|i: int, j: int| 0 <= i < j < v.len() ==> v[i].1 >= v[j].1
}

/// `r` lists distinct positions of `v`, at most `n` of them, in
/// non-increasing order of count, and no position left out has a larger
/// count than one taken.
pub open spec fn picks_top<T>(v: Seq<(T, u128)>, n: nat, r: Seq<usize>) -> bool {
    &&& r.len() == if n < v.len() {
        n
    } else {
        v.len()
    }
    &&& forall|i: int| 0 <= i < r.len() ==> #[trigger] r[i] < v.len()
    &&& forall|i: int, j: int| 0 <= i < j < r.len() ==> r[i] != r[j]
    &&& forall|i: int, j: int| 0 <= i < j < r.len() ==> v[r[i] as int].1 >= v[r[j] as int].1
    &&& forall|q: int, i: int|
        #![trigger v[q], r[i]]
        0 <= q < v.len() && 0 <= i < r.len() && !r.contains(q as usize) ==> v[q].1 <= v[r[i] as int].1
}

/// Picks the positions of the `n` largest counts of `v`, largest first.
pub fn top_indices<T>(v: &Vec<(T, u128)>, n: usize) -> (r: Vec<usize>)
    ensures
        picks_top(v@, n as nat, r@),
{
    let len = v.len();
    let mut taken: Vec<bool> = Vec::new();
    let mut t: usize = 0;
    while t < len
        invariant
            t <= len,
            len == v@.len(),
            taken@.len() == t,
            forall|p: int| 0 <= p < t ==> !taken@[p],
        decreases len - t,
    {
        taken.push(false);
        t = t + 1;
    }
    let limit = if n < len {
        n
    } else {
        len
    };
    let mut out: Vec<usize> = Vec::new();
    while out.len() < limit
        invariant
            len == v@.len(),
            limit <= len,
            limit == (if n < len { n } else { len }),
            taken@.len() == len,
            out@.len() <= limit,
            forall|i: int| 0 <= i < out@.len() ==> #[trigger] out@[i] < len,
            forall|i: int, j: int| 0 <= i < j < out@.len() ==> out@[i] != out@[j],
            forall|p: int| 0 <= p < len ==> (taken@[p] <==> out@.contains(p as usize)),
            forall|i: int, j: int|
                0 <= i < j < out@.len() ==> v@[out@[i] as int].1 >= v@[out@[j] as int].1,
            forall|q: int, i: int|
                #![trigger v@[q], out@[i]]
                0 <= q < len && 0 <= i < out@.len() && !taken@[q] ==> v@[q].1 <= v@[out@[i] as int].1,
        decreases limit - out@.len(),
    {
        proof {
            assert(exists|p: int| 0 <= p < len && !taken@[p]) by {
                lemma_all_taken(out@, len as int);
                let p = choose|p: usize| p < len && !out@.contains(p);
                assert(!taken@[p as int]);
            }
        }
        let mut best: usize = len;
        let mut p: usize = 0;
        while p < len
            invariant
                p <= len,
                len == v@.len(),
                taken@.len() == len,
                best == len || (best < p && !taken@[best as int]),
                best == len ==> forall|q: int| 0 <= q < p ==> taken@[q],
                best < len ==> forall|q: int| 0 <= q < p && !taken@[q] ==> v@[q].1 <= v@[best as int].1,
            decreases len - p,
        {
            if !taken[p] && (best == len || v[p].1 > v[best].1) {
                best = p;
            }
            p = p + 1;
        }
        proof {
            if best == len {
                let w = choose|w: int| 0 <= w < len && !taken@[w];
                assert(taken@[w]);
            }
        }
        let ghost before = out@;
        taken.set(best, true);
        out.push(best);
        proof {
            assert forall|q: int| 0 <= q < len implies (taken@[q] <==> out@.contains(q as usize)) by {
                if out@.contains(q as usize) {
                    let i = choose|i: int| 0 <= i < out@.len() && out@[i] == q as usize;
                    if i < before.len() {
                        assert(before[i] == q as usize);
                    }
                }
                if q != best && taken@[q] {
                    assert(before.contains(q as usize));
                    let i = choose|i: int| 0 <= i < before.len() && before[i] == q as usize;
                    assert(out@[i] == q as usize);
                }
                if q == best {
                    assert(out@[before.len() as int] == best);
                }
            }
            assert forall|i: int, j: int| 0 <= i < j < out@.len() implies out@[i] != out@[j] by {
                if j == before.len() {
                    assert(before.contains(before[i]));
                    assert(taken@[before[i] as int]);
                }
            }
        }
    }
    proof {
        assert forall|q: int, i: int|
            #![trigger v@[q], out@[i]]
            0 <= q < v@.len() && 0 <= i < out@.len() && !out@.contains(q as usize) implies v@[q].1
            <= v@[out@[i] as int].1 by {
            assert(!taken@[q]);
        }
    }
    out
}

proof fn lemma_all_taken(out: Seq<usize>, len: int)
    requires
        out.len() < len,
        len <= usize::MAX,
        forall|i: int, j: int| 0 <= i < j < out.len() ==> out[i] != out[j],
        forall|i: int| 0 <= i < out.len() ==> #[trigger] out[i] < len,
    ensures
        exists|p: usize| p < len && !out.contains(p),
{
    let s = Set::new(|p: int| 0 <= p < len);
    let o = out.to_set().map(|x: usize| x as int);
    assert(out.no_duplicates());
    out.unique_seq_to_set();
    assert(o.subset_of(s));
    vstd::set_lib::lemma_int_range(0, len);
    assert(s =~= vstd::set_lib::set_int_range(0, len));
    vstd::set_lib::lemma_map_size(out.to_set(), o, |x: usize| x as int);
    if forall|p: usize| p < len ==> out.contains(p) {
        assert(s.subset_of(o)) by {
            assert forall|p: int| s.contains(p) implies o.contains(p) by {
                assert((p as usize) < len);
                assert(out.contains(p as usize));
                assert(out.to_set().contains(p as usize));
                assert(p as usize as int == p);
            }
        }
        vstd::set_lib::lemma_len_subset(s, o);
    }
}

/// The figures that authors are ranked by.
#[derive(Clone, Copy, Debug, PartialEq, Eq, Structural)]
pub enum Statistic {
    Messages,
    Words,
    Characters,
    Attachments,
    Questions,
    Vocabulary,
}

/// The value of statistic `s` for an author.
pub open spec fn statistic_of(a: AuthorView, s: Statistic) -> nat {
    match s {
        Statistic::Messages => a.message_count,
        Statistic::Words => a.word_count,
        Statistic::Characters => a.character_count,
        Statistic::Attachments => a.attachments_ledger.len(),
        Statistic::Questions => a.question_count,
        Statistic::Vocabulary => a.vocab.dom().len(),
    }
}

impl Author {
    /// The value of statistic `s`.
    pub fn statistic(&self, s: Statistic) -> (r: u128)
        requires
            self.wf(),
        ensures
            r as nat == statistic_of(self@, s),
    {
        match s {
            Statistic::Messages => self.message_count,
            Statistic::Words => self.word_count,
            Statistic::Characters => self.character_count,
            Statistic::Attachments => self.attachments_ledger.len() as u128,
            Statistic::Questions => self.question_count,
            Statistic::Vocabulary => self.vocab_dict.len() as u128,
        }
    }
}

/// Every author of `authors` with its value of `s`, largest first.
pub fn rank_authors(authors: &HashMap<u64, Author>, s: Statistic) -> (r: Vec<(u64, u128)>)
    requires
        authors_wf(authors@),
    ensures
        r@.len() == authors@.dom().len(),
        ranked(r@),
        forall|i: int, j: int| 0 <= i < j < r@.len() ==> r@[i].0 != r@[j].0,
        forall|i: int|
            0 <= i < r@.len() ==> authors@.contains_key(#[trigger] r@[i].0) && r@[i].1 as nat
                == statistic_of(authors@[r@[i].0]@, s),
        forall|id: u64| #[trigger] authors@.contains_key(id) ==> exists|i: int| 0 <= i < r@.len() && r@[i].0 == id,
{
    let keys = crate::aggregate::keys_of(authors);
    let mut values: Vec<(u64, u128)> = Vec::new();
    let mut j: usize = 0;
    while j < keys.len()
        invariant
            j <= keys@.len(),
            keys@.to_set() == authors@.dom(),
            authors_wf(authors@),
            values@.len() == j,
            forall|i: int| 0 <= i < j ==> (#[trigger] values@[i]).0 == keys@[i],
            forall|i: int|
                0 <= i < j ==> authors@.contains_key(keys@[i]) && (#[trigger] values@[i]).1 as nat
                    == statistic_of(authors@[keys@[i]]@, s),
        decreases keys@.len() - j,
    {
        let key = keys[j];
        proof {
            assert(keys@.to_set().contains(key));
        }
        match authors.get(&key) {
            Some(a) => {
                let x = a.statistic(s);
                values.push((key, x));
            },
            None => {
                values.push((key, 0));
            },
        }
        j = j + 1;
    }
    let order = top_indices(&values, values.len());
    let mut r: Vec<(u64, u128)> = Vec::new();
    let mut i: usize = 0;
    while i < order.len()
        invariant
            i <= order@.len(),
            picks_top(values@, values@.len(), order@),
            r@.len() == i,
            forall|k: int| 0 <= k < i ==> #[trigger] r@[k] == values@[order@[k] as int],
        decreases order@.len() - i,
    {
        r.push(values[order[i]]);
        i = i + 1;
    }
    proof {
        keys@.unique_seq_to_set();
        assert forall|id: u64| #[trigger] authors@.contains_key(id) implies exists|i: int|
            0 <= i < r@.len() && r@[i].0 == id by {
            assert(keys@.to_set().contains(id));
            let t = choose|t: int| 0 <= t < keys@.len() && keys@[t] == id;
            lemma_pick_all(order@, values@.len() as int, t);
            let i = choose|i: int| 0 <= i < order@.len() && order@[i] == t as usize;
            assert(r@[i] == values@[t]);
        }
        assert forall|a: int, b: int| 0 <= a < b < r@.len() implies r@[a].0 != r@[b].0 by {
            assert(keys@[order@[a] as int] != keys@[order@[b] as int]);
        }
    }
    r
}

proof fn lemma_pick_all(order: Seq<usize>, len: int, t: int)
    requires
        order.len() == len,
        0 <= t < len,
        forall|i: int, j: int| 0 <= i < j < order.len() ==> order[i] != order[j],
        forall|i: int| 0 <= i < order.len() ==> #[trigger] order[i] < len,
    ensures
        order.contains(t as usize),
{
    if !order.contains(t as usize) {
        let s = order.to_set().map(|x: usize| x as int);
        let full = vstd::set_lib::set_int_range(0, len);
        order.unique_seq_to_set();
        vstd::set_lib::lemma_int_range(0, len);
        vstd::set_lib::lemma_map_size(order.to_set(), s, |x: usize| x as int);
        assert(s.subset_of(full.remove(t))) by {
            assert forall|p: int| s.contains(p) implies full.remove(t).contains(p) by {
                let x = choose|x: usize| order.to_set().contains(x) && x as int == p;
                assert(order.contains(x));
                if p == t {
                    assert(x == t as usize);
                }
            }
        }
        vstd::set_lib::lemma_len_subset(s, full.remove(t));
    }
}

/// `r` holds the entries of `t` whose keys `allowed` admits, as many of
/// them as `n` lets, the largest counts first; no admitted entry left out
/// has a larger count than one kept.
pub open spec fn top_of(
    t: Map<Seq<char>, nat>,
    allowed: spec_fn(Seq<char>) -> bool,
    n: nat,
    r: Seq<(String, u128)>,
) -> bool {
    &&& r.len() <= n
    &&& forall|i: int|
        0 <= i < r.len() ==> allowed((#[trigger] r[i]).0@) && t.contains_key(r[i].0@) && t[r[i].0@]
            == r[i].1 as nat
    &&& forall|i: int, j: int| 0 <= i < j < r.len() ==> r[i].0@ != r[j].0@
    &&& forall|i: int, j: int| 0 <= i < j < r.len() ==> r[i].1 >= r[j].1
    &&& forall|k: Seq<char>|
        #![trigger t.contains_key(k)]
        t.contains_key(k) && allowed(k) && !(exists|i: int| 0 <= i < r.len() && r[i].0@ == k) ==> r.len()
            == n && forall|i: int| 0 <= i < r.len() ==> t[k] <= (#[trigger] r[i]).1
}

/// The entries of `v` at the `n` largest counts, largest first.
fn top_entries(v: &Vec<(String, u128)>, n: usize) -> (r: Vec<(String, u128)>)
    ensures
        v@.len() <= usize::MAX,
        exists|order: Seq<usize>|
            picks_top(v@, n as nat, order) && r@.len() == order.len() && forall|i: int|
                0 <= i < order.len() ==> #[trigger] r@[i] == v@[order[i] as int],
{
    let order = top_indices(v, n);
    let _len = v.len();
    let mut r: Vec<(String, u128)> = Vec::new();
    let mut i: usize = 0;
    while i < order.len()
        invariant
            i <= order@.len(),
            picks_top(v@, n as nat, order@),
            r@.len() == i,
            forall|k: int| 0 <= k < i ==> #[trigger] r@[k] == v@[order@[k] as int],
        decreases order@.len() - i,
    {
        let e = &v[order[i]];
        r.push((e.0.clone(), e.1));
        i = i + 1;
    }
    r
}

/// Entries with distinct keys, each a true entry of `t` that `allowed`
/// admits, and every such entry of `t` among them.
pub open spec fn entries_of(
    t: Map<Seq<char>, nat>,
    allowed: spec_fn(Seq<char>) -> bool,
    v: Seq<(String, u128)>,
) -> bool {
    &&& forall|i: int, j: int| 0 <= i < j < v.len() ==> v[i].0@ != v[j].0@
    &&& forall|i: int|
        0 <= i < v.len() ==> allowed((#[trigger] v[i]).0@) && t.contains_key(v[i].0@) && t[v[i].0@]
            == v[i].1 as nat
    &&& forall|k: Seq<char>|
        #![trigger t.contains_key(k)]
        t.contains_key(k) && allowed(k) ==> exists|i: int| 0 <= i < v.len() && v[i].0@ == k
}

proof fn lemma_top_of_entries(
    t: Map<Seq<char>, nat>,
    allowed: spec_fn(Seq<char>) -> bool,
    v: Seq<(String, u128)>,
    n: nat,
    order: Seq<usize>,
    r: Seq<(String, u128)>,
)
    requires
        v.len() <= usize::MAX,
        entries_of(t, allowed, v),
        picks_top(v, n, order),
        r.len() == order.len(),
        forall|i: int| 0 <= i < order.len() ==> #[trigger] r[i] == v[order[i] as int],
    ensures
        top_of(t, allowed, n, r),
{
    assert forall|i: int| 0 <= i < r.len() implies allowed((#[trigger] r[i]).0@) && t.contains_key(
        r[i].0@,
    ) && t[r[i].0@] == r[i].1 as nat by {
        assert(order[i] < v.len());
        assert(r[i] == v[order[i] as int]);
    }
    assert forall|i: int, j: int| 0 <= i < j < r.len() implies r[i].0@ != r[j].0@ by {
        assert(r[i] == v[order[i] as int]);
        assert(r[j] == v[order[j] as int]);
        assert(order[i] < v.len() && order[j] < v.len());
        assert(order[i] != order[j]);
        if order[i] < order[j] {
            assert(v[order[i] as int].0@ != v[order[j] as int].0@);
        } else {
            assert(v[order[j] as int].0@ != v[order[i] as int].0@);
        }
    }
    assert forall|i: int, j: int| 0 <= i < j < r.len() implies r[i].1 >= r[j].1 by {
        assert(r[i] == v[order[i] as int]);
        assert(r[j] == v[order[j] as int]);
    }
    assert forall|k: Seq<char>|
        #![trigger t.contains_key(k)]
        t.contains_key(k) && allowed(k) && !(exists|i: int| 0 <= i < r.len() && r[i].0@ == k) implies r.len()
            == n && forall|i: int| 0 <= i < r.len() ==> t[k] <= (#[trigger] r[i]).1 by {
        let q = choose|q: int| 0 <= q < v.len() && v[q].0@ == k;
        if order.contains(q as usize) {
            let i = choose|i: int| 0 <= i < order.len() && order[i] == q as usize;
            assert(r[i] == v[q]);
            assert(r[i].0@ == k);
        }
        assert forall|i: int| 0 <= i < r.len() implies t[k] <= (#[trigger] r[i]).1 by {
            assert(r[i] == v[order[i] as int]);
            assert(v[q].1 <= v[order[i] as int].1);
        }
        if r.len() < n {
            assert(order.len() == v.len());
            lemma_pick_all(order, v.len() as int, q);
        }
    }
}

/// The `n` most used keys of `t`, with their counts, largest first.
pub fn top_words(t: &Tally, n: usize) -> (r: Vec<(String, u128)>)
    requires
        t.wf(),
    ensures
        top_of(t@, |k: Seq<char>| true, n as nat, r@),
{
    let entries = t.to_vec();
    let r = top_entries(&entries, n);
    proof {
        let order = choose|order: Seq<usize>|
            picks_top(entries@, n as nat, order) && r@.len() == order.len() && forall|i: int|
                0 <= i < order.len() ==> #[trigger] r@[i] == entries@[order[i] as int];
        lemma_top_of_entries(t@, |k: Seq<char>| true, entries@, n as nat, order, r@);
    }
    r
}

/// Whether `k` is the key of some entry of `list`.
pub open spec fn listed(list: Seq<(String, u128)>, k: Seq<char>) -> bool {
    exists|i: int| 0 <= i < list.len() && list[i].0@ == k
}

fn is_listed(list: &Vec<(String, u128)>, k: &String) -> (r: bool)
    ensures
        r == listed(list@, k@),
{
    let mut i: usize = 0;
    while i < list.len()
        invariant
            i <= list@.len(),
            forall|j: int| 0 <= j < i ==> list@[j].0@ != k@,
        decreases list@.len() - i,
    {
        if list[i].0 == *k {
            return true;
        }
        i = i + 1;
    }
    false
}

/// The `n` most used keys of `t` that `common` does not list, with their
/// counts, largest first: what sets one author apart from the whole.
pub fn distinctive_words(t: &Tally, common: &Vec<(String, u128)>, n: usize) -> (r: Vec<(String, u128)>)
    requires
        t.wf(),
    ensures
        top_of(t@, |k: Seq<char>| !listed(common@, k), n as nat, r@),
{
    let entries = t.to_vec();
    let ghost allowed = |k: Seq<char>| !listed(common@, k);
    let mut kept: Vec<(String, u128)> = Vec::new();
    let ghost mut from: Seq<int> = Seq::empty();
    let mut i: usize = 0;
    while i < entries.len()
        invariant
            i <= entries@.len(),
            allowed == (|k: Seq<char>| !listed(common@, k)),
            kept@.len() == from.len(),
            forall|a: int, b: int| 0 <= a < b < from.len() ==> from[a] < from[b],
            forall|a: int| 0 <= a < from.len() ==> 0 <= #[trigger] from[a] < i,
            forall|a: int| 0 <= a < from.len() ==> #[trigger] kept@[a] == entries@[from[a]],
            forall|a: int| 0 <= a < kept@.len() ==> allowed((#[trigger] kept@[a]).0@),
            forall|q: int| 0 <= q < i && allowed(entries@[q].0@) ==> exists|a: int|
                0 <= a < from.len() && from[a] == q,
        decreases entries@.len() - i,
    {
        if !is_listed(common, &entries[i].0) {
            let ghost before = from;
            kept.push((entries[i].0.clone(), entries[i].1));
            proof {
                from = from.push(i as int);
                assert forall|q: int| 0 <= q < i + 1 && allowed(entries@[q].0@) implies exists|a: int|
                    0 <= a < from.len() && from[a] == q by {
                    if q < i {
                        let a = choose|a: int| 0 <= a < before.len() && before[a] == q;
                        assert(from[a] == q);
                    } else {
                        assert(from[from.len() - 1] == q);
                    }
                }
            }
        }
        i = i + 1;
    }
    proof {
        assert forall|a: int, b: int| 0 <= a < b < kept@.len() implies kept@[a].0@ != kept@[b].0@ by {
            assert(kept@[a] == entries@[from[a]]);
            assert(kept@[b] == entries@[from[b]]);
        }
        assert forall|k: Seq<char>|
            #![trigger t@.contains_key(k)]
            t@.contains_key(k) && allowed(k) implies exists|a: int| 0 <= a < kept@.len() && kept@[a].0@ == k by {
            let q = choose|q: int| 0 <= q < entries@.len() && entries@[q].0@ == k;
            let a = choose|a: int| 0 <= a < from.len() && from[a] == q;
            assert(kept@[a] == entries@[q]);
        }
        assert forall|a: int| 0 <= a < kept@.len() implies allowed((#[trigger] kept@[a]).0@) && t@.contains_key(
            kept@[a].0@,
        ) && t@[kept@[a].0@] == kept@[a].1 as nat by {
            assert(kept@[a] == entries@[from[a]]);
        }
        assert(entries_of(t@, allowed, kept@));
    }
    let r = top_entries(&kept, n);
    proof {
        let order = choose|order: Seq<usize>|
            picks_top(kept@, n as nat, order) && r@.len() == order.len() && forall|i: int|
                0 <= i < order.len() ==> #[trigger] r@[i] == kept@[order[i] as int];
        lemma_top_of_entries(t@, allowed, kept@, n as nat, order, r@);
    }
    r
}

/// How many entries of `ledger` fall in minute `m` of the day, counting
/// only those from channel `channel` where one is given.
pub open spec fn minute_count(ledger: Seq<(Timestamp, u64)>, channel: Option<u64>, m: int) -> nat
    decreases ledger.len(),
{
    if ledger.len() == 0 {
        0
    } else {
        let e = ledger.last();
        minute_count(ledger.drop_last(), channel, m) + if e.0.hour < 24 && e.0.minute < 60 && e.0.hour
            * 60 + e.0.minute == m && (channel is None || channel == Some(e.1)) {
            1nat
        } else {
            0nat
        }
    }
}

/// Messages per minute of the day, over the 1440 minutes from midnight.
pub fn minute_histogram(ledger: &Vec<(Timestamp, u64)>, channel: Option<u64>) -> (r: Vec<u128>)
    ensures
        r@.len() == 1440,
        forall|m: int| 0 <= m < 1440 ==> #[trigger] r@[m] as nat == minute_count(ledger@, channel, m),
{
    let mut buckets: Vec<u128> = Vec::new();
    let mut m: usize = 0;
    while m < 1440
        invariant
            m <= 1440,
            buckets@.len() == m,
            forall|j: int| 0 <= j < m ==> buckets@[j] == 0,
        decreases 1440 - m,
    {
        buckets.push(0);
        m = m + 1;
    }
    let n = ledger.len();
    let mut i: usize = 0;
    proof {
        assert(ledger@.take(0) =~= Seq::<(Timestamp, u64)>::empty());
    }
    while i < n
        invariant
            i <= n,
            n == ledger@.len(),
            buckets@.len() == 1440,
            forall|j: int| 0 <= j < 1440 ==> #[trigger] buckets@[j] as nat == minute_count(
                ledger@.take(i as int),
                channel,
                j,
            ),
            forall|j: int| 0 <= j < 1440 ==> #[trigger] buckets@[j] <= i,
        decreases n - i,
    {
        let e = ledger[i];
        proof {
            assert(ledger@.take(i as int + 1).drop_last() =~= ledger@.take(i as int));
            assert(ledger@.take(i as int + 1).last() == e);
        }
        let wanted = match channel {
            Some(c) => c == e.1,
            None => true,
        };
        if e.0.hour < 24 && e.0.minute < 60 && wanted {
            let idx = (e.0.hour * 60 + e.0.minute) as usize;
            let c = buckets[idx];
            buckets.set(idx, c + 1);
        }
        i = i + 1;
    }
    proof {
        assert(ledger@.take(n as int) =~= ledger@);
    }
    buckets
}

/// A character that a file name must not hold: a path or shell
/// metacharacter, or a control character.
pub open spec fn forbidden_in_file_name(c: char) -> bool {
    c == '/' || c == '?' || c == '<' || c == '>' || c == '\\' || c == ':' || c == '*' || c == '|'
        || c == '"' || c <= '\u{1f}' || ('\u{80}' <= c && c <= '\u{9f}')
}

/// Relies on sanitize-filename's `sanitize`: it deletes those characters
/// and cuts the name to at most 255 bytes. What more it deletes depends on
/// the platform, so nothing more is said.
#[verifier::external_body]
fn sanitize(name: &str) -> (r: String)
    ensures
        forall|i: int| 0 <= i < r@.len() ==> !forbidden_in_file_name(#[trigger] r@[i]),
        vstd::utf8::encode_utf8(r@).len() <= 255,
{
    sanitize_filename::sanitize(name)
}

/// The path of an export file: `dir`, then `title` made safe for a file
/// name, then `suffix`.
pub fn export_path(dir: &str, title: &str, suffix: &str) -> (r: String)
    ensures
        exists|safe: Seq<char>|
            r@ == dir@ + safe + suffix@ && forall|i: int|
                0 <= i < safe.len() ==> !forbidden_in_file_name(#[trigger] safe[i]),
{
    let safe = sanitize(title);
    let mut r = String::from_str(dir);
    r.append(safe.as_str());
    r.append(suffix);
    proof {
        assert(r@ == dir@ + safe@ + suffix@);
    }
    r
}

/// Where a downloaded attachment goes: `dir`, the separator, the prefix, a
/// dash, and the last segment of the attachment's address, or
/// `untitled.bin` where that segment is missing or empty.
pub fn download_path(dir: &str, sep: &str, prefix: &str, last_segment: Option<String>) -> (r: String)
    ensures
        r@ == dir@ + sep@ + prefix@ + seq!['-'] + (match last_segment {
            Some(s) => if s@.len() > 0 {
                s@
            } else {
                "untitled.bin"@
            },
            None => "untitled.bin"@,
        }),
{
    let mut r = String::from_str(dir);
    r.append(sep);
    r.append(prefix);
    r.append("-");
    proof {
        reveal_strlit("-");
    }
    match last_segment {
        Some(s) => {
            if s.as_str().is_empty() {
                r.append("untitled.bin");
            } else {
                r.append(s.as_str());
            }
        },
        None => {
            r.append("untitled.bin");
        },
    }
    r
}

} // verus!
