use vstd::prelude::*;

use crate::text::{chars_of, compare_chars, lemma_lex_irreflexive, lemma_lex_transitive, lex_lt};

verus! {

/// Count of `k` in `m`, zero where `m` has no entry for `k`.
pub open spec fn count_in(m: Map<Seq<char>, nat>, k: Seq<char>) -> nat {
    if m.contains_key(k) {
        m[k]
    } else {
        0
    }
}

/// `m` with `n` more occurrences of `k`.
pub open spec fn add_count(m: Map<Seq<char>, nat>, k: Seq<char>, n: nat) -> Map<Seq<char>, nat> {
    m.insert(k, count_in(m, k) + n)
}

/// Key-wise sum of two count maps.
pub open spec fn map_sum(a: Map<Seq<char>, nat>, b: Map<Seq<char>, nat>) -> Map<Seq<char>, nat> {
    Map::new(
        |k: Seq<char>| a.contains_key(k) || b.contains_key(k),
        |k: Seq<char>| count_in(a, k) + count_in(b, k),
    )
}

/// Occurrence counts of the tokens of `toks`, added to `m` one token at a time.
pub open spec fn add_tokens(m: Map<Seq<char>, nat>, toks: Seq<Seq<char>>) -> Map<
    Seq<char>,
    nat,
>
    decreases toks.len(),
{
    if toks.len() == 0 {
        m
    } else {
        add_count(add_tokens(m, toks.drop_last()), toks.last(), 1)
    }
}

/// The map that a sequence of entries with distinct keys stands for.
pub open spec fn entries_map(s: Seq<(String, u128)>) -> Map<Seq<char>, nat>
    decreases s.len(),
{
    if s.len() == 0 {
        Map::empty()
    } else {
        entries_map(s.drop_last()).insert(s.last().0@, s.last().1 as nat)
    }
}

/// Sum of the counts of a sequence of entries.
pub open spec fn entries_total(s: Seq<(String, u128)>) -> nat
    decreases s.len(),
{
    if s.len() == 0 {
        0
    } else {
        entries_total(s.drop_last()) + s.last().1 as nat
    }
}

pub open spec fn keys_distinct(s: Seq<(String, u128)>) -> bool {
    forall|i: int, j: int| 0 <= i < j < s.len() ==> s[i].0@ != s[j].0@
}

pub proof fn lemma_entries_map_has(s: Seq<(String, u128)>, k: Seq<char>)
    requires
        keys_distinct(s),
    ensures
        entries_map(s).contains_key(k) <==> exists|i: int| 0 <= i < s.len() && s[i].0@ == k,
        forall|i: int| 0 <= i < s.len() && s[i].0@ == k ==> entries_map(s)[k] == s[i].1 as nat,
    decreases s.len(),
{
    if s.len() > 0 {
        let p = s.drop_last();
        let n = s.len() - 1;
        assert(keys_distinct(p));
        lemma_entries_map_has(p, k);
        if s[n].0@ == k {
            assert(entries_map(s).contains_key(k));
            assert forall|i: int| 0 <= i < s.len() && s[i].0@ == k implies entries_map(s)[k]
                == s[i].1 as nat by {
                if i < n {
                    assert(s[i].0@ != s[n].0@);
                }
            }
        } else {
            if entries_map(s).contains_key(k) {
                assert(entries_map(p).contains_key(k));
                let i = choose|i: int| 0 <= i < p.len() && p[i].0@ == k;
                assert(s[i].0@ == k);
            }
            if exists|i: int| 0 <= i < s.len() && s[i].0@ == k {
                let i = choose|i: int| 0 <= i < s.len() && s[i].0@ == k;
                assert(p[i].0@ == k);
            }
            assert forall|i: int| 0 <= i < s.len() && s[i].0@ == k implies entries_map(s)[k]
                == s[i].1 as nat by {
                assert(p[i].0@ == k);
            }
        }
    }
}

pub proof fn lemma_entries_total_bounds(s: Seq<(String, u128)>, i: int)
    requires
        0 <= i < s.len(),
    ensures
        s[i].1 as nat <= entries_total(s),
    decreases s.len(),
{
    if i < s.len() - 1 {
        lemma_entries_total_bounds(s.drop_last(), i);
    }
}

pub proof fn lemma_entries_update(s: Seq<(String, u128)>, i: int, k: String, v: u128)
    requires
        0 <= i < s.len(),
        keys_distinct(s),
        k@ == s[i].0@,
    ensures
        entries_map(s.update(i, (k, v))) == entries_map(s).insert(k@, v as nat),
        entries_total(s.update(i, (k, v))) + s[i].1 as nat == entries_total(s) + v as nat,
        keys_distinct(s.update(i, (k, v))),
    decreases s.len(),
{
    let t = s.update(i, (k, v));
    if i == s.len() - 1 {
        assert(t.drop_last() == s.drop_last());
        lemma_entries_map_has(s.drop_last(), s[i].0@);
        assert(entries_map(t) =~= entries_map(s).insert(s[i].0@, v as nat));
    } else {
        let p = s.drop_last();
        assert(t.drop_last() == p.update(i, (k, v)));
        lemma_entries_update(p, i, k, v);
        assert(s.last().0@ != s[i].0@);
        assert(entries_map(t) =~= entries_map(s).insert(s[i].0@, v as nat));
    }
}

/// Keys in strictly increasing order.
pub open spec fn keys_sorted(s: Seq<(String, u128)>) -> bool {
    forall|i: int, j: int| 0 <= i < j < s.len() ==> lex_lt(s[i].0@, s[j].0@)
}

pub proof fn lemma_sorted_distinct(s: Seq<(String, u128)>)
    requires
        keys_sorted(s),
    ensures
        keys_distinct(s),
{
    assert forall|i: int, j: int| 0 <= i < j < s.len() implies s[i].0@ != s[j].0@ by {
        lemma_lex_irreflexive(s[i].0@);
    }
}

pub proof fn lemma_entries_insert(s: Seq<(String, u128)>, p: int, e: (String, u128))
    requires
        0 <= p <= s.len(),
        forall|i: int| 0 <= i < s.len() ==> s[i].0@ != e.0@,
    ensures
        entries_map(s.insert(p, e)) == entries_map(s).insert(e.0@, e.1 as nat),
        entries_total(s.insert(p, e)) == entries_total(s) + e.1 as nat,
    decreases s.len(),
{
    let t = s.insert(p, e);
    if p == s.len() {
        assert(t.drop_last() =~= s);
    } else {
        let q = s.drop_last();
        assert(t.drop_last() =~= q.insert(p, e));
        assert(t.last() == s.last());
        lemma_entries_insert(q, p, e);
        assert(s.last().0@ != e.0@) by {
            assert(s[s.len() - 1].0@ != e.0@);
        }
        assert(entries_map(t) =~= entries_map(s).insert(e.0@, e.1 as nat));
    }
}

/// A table of counts keyed by strings, each key held once.
pub struct Tally {
    entries: Vec<(String, u128)>,
}

impl View for Tally {
    type V = Map<Seq<char>, nat>;

    closed spec fn view(&self) -> Map<Seq<char>, nat> {
        entries_map(self.entries@)
    }
}

impl Tally {
    /// Keys are distinct, kept in increasing order, and every count is
    /// positive.
    pub closed spec fn wf(&self) -> bool {
        &&& keys_sorted(self.entries@)
        &&& forall|i: int| 0 <= i < self.entries@.len() ==> self.entries@[i].1 > 0
    }

    /// The sum of all counts.
    pub closed spec fn total(&self) -> nat {
        entries_total(self.entries@)
    }

    pub fn new() -> (r: Tally)
        ensures
            r.wf(),
            r@ == Map::<Seq<char>, nat>::empty(),
            r.total() == 0,
    {
        Tally { entries: Vec::new() }
    }

    /// Number of distinct keys.
    pub fn len(&self) -> (r: usize)
        requires
            self.wf(),
        ensures
            r as nat == self@.dom().len(),
    {
        proof {
            self.lemma_dom_len();
        }
        self.entries.len()
    }

    proof fn lemma_dom_len(&self)
        requires
            self.wf(),
        ensures
            self@.dom().len() == self.entries@.len(),
            self@.dom().finite(),
    {
        lemma_sorted_distinct(self.entries@);
        lemma_dom_len_of(self.entries@);
    }

    /// Where `key` stands among the entries, or where it would go.
    fn locate(&self, key: &Vec<char>) -> (r: (bool, usize))
        requires
            self.wf(),
        ensures
            r.1 <= self.entries@.len(),
            r.0 ==> r.1 < self.entries@.len() && self.entries@[r.1 as int].0@ == key@,
            !r.0 ==> forall|i: int| 0 <= i < r.1 ==> lex_lt(#[trigger] self.entries@[i].0@, key@),
            !r.0 ==> forall|i: int|
                r.1 <= i < self.entries@.len() ==> lex_lt(key@, #[trigger] self.entries@[i].0@),
    {
        let mut lo: usize = 0;
        let mut hi: usize = self.entries.len();
        while lo < hi
            invariant
                lo <= hi <= self.entries@.len(),
                self.wf(),
                forall|i: int| 0 <= i < lo ==> lex_lt(#[trigger] self.entries@[i].0@, key@),
                forall|i: int| hi <= i < self.entries@.len() ==> lex_lt(key@, #[trigger] self.entries@[i].0@),
            decreases hi - lo,
        {
            let mid = lo + (hi - lo) / 2;
            let c = compare_chars(&chars_of(self.entries[mid].0.as_str()), key);
            if c == 0 {
                return (true, mid);
            } else if c < 0 {
                proof {
                    assert forall|i: int| 0 <= i < mid + 1 implies lex_lt(#[trigger] self.entries@[i].0@, key@) by {
                        if i < mid {
                            lemma_lex_transitive(self.entries@[i].0@, self.entries@[mid as int].0@, key@);
                        }
                    }
                }
                lo = mid + 1;
            } else {
                proof {
                    assert forall|i: int| mid <= i < self.entries@.len() implies lex_lt(key@, #[trigger] self.entries@[i].0@) by {
                        if i > mid {
                            lemma_lex_transitive(key@, self.entries@[mid as int].0@, self.entries@[i].0@);
                        }
                    }
                }
                hi = mid;
            }
        }
        (false, lo)
    }

    /// The count held for `key`, zero where there is none.
    pub fn get(&self, key: &String) -> (r: u128)
        requires
            self.wf(),
        ensures
            r as nat == count_in(self@, key@),
    {
        proof {
            lemma_sorted_distinct(self.entries@);
            lemma_entries_map_has(self.entries@, key@);
        }
        let (found, pos) = self.locate(&chars_of(key.as_str()));
        if found {
            self.entries[pos].1
        } else {
            proof {
                assert forall|i: int| 0 <= i < self.entries@.len() implies self.entries@[i].0@ != key@ by {
                    lemma_lex_irreflexive(key@);
                }
            }
            0
        }
    }

    /// Adds `n` occurrences of `key`.
    pub fn add(&mut self, key: String, n: u128)
        requires
            old(self).wf(),
            n > 0,
            old(self).total() + n <= u128::MAX,
        ensures
            final(self).wf(),
            final(self)@ == add_count(old(self)@, key@, n as nat),
            final(self).total() == old(self).total() + n,
    {
        proof {
            lemma_sorted_distinct(self.entries@);
            lemma_entries_map_has(self.entries@, key@);
        }
        let (found, pos) = self.locate(&chars_of(key.as_str()));
        if found {
            let c = self.entries[pos].1;
            proof {
                lemma_entries_total_bounds(self.entries@, pos as int);
                lemma_entries_update(self.entries@, pos as int, key, (c + n) as u128);
                assert(count_in(self@, key@) == c);
            }
            self.entries.set(pos, (key, c + n));
            proof {
                assert(self@ =~= add_count(old(self)@, key@, n as nat));
                assert(keys_sorted(self.entries@)) by {
                    assert forall|i: int, j: int| 0 <= i < j < self.entries@.len() implies lex_lt(
                        self.entries@[i].0@,
                        self.entries@[j].0@,
                    ) by {
                        assert(old(self).entries@[i].0@ == self.entries@[i].0@);
                        assert(old(self).entries@[j].0@ == self.entries@[j].0@);
                    }
                }
            }
        } else {
            proof {
                assert forall|i: int| 0 <= i < self.entries@.len() implies self.entries@[i].0@ != key@ by {
                    lemma_lex_irreflexive(key@);
                }
                lemma_entries_insert(self.entries@, pos as int, (key, n));
            }
            self.entries.insert(pos, (key, n));
            proof {
                assert(!old(self)@.contains_key(key@));
                assert(self@ =~= add_count(old(self)@, key@, n as nat));
                let e = self.entries@;
                let o = old(self).entries@;
                assert forall|i: int, j: int| 0 <= i < j < e.len() implies lex_lt(e[i].0@, e[j].0@) by {
                    if j < pos {
                        assert(e[i] == o[i] && e[j] == o[j]);
                    } else if j == pos {
                        assert(e[i] == o[i]);
                    } else if i < pos {
                        assert(e[i] == o[i] && e[j] == o[j - 1]);
                        lemma_lex_transitive(o[i].0@, key@, o[j - 1].0@);
                    } else if i == pos {
                        assert(e[j] == o[j - 1]);
                    } else {
                        assert(e[i] == o[i - 1] && e[j] == o[j - 1]);
                    }
                }
            }
        }
    }

    /// Adds every count of `other` to this table.
    pub fn absorb(&mut self, other: &Tally)
        requires
            old(self).wf(),
            other.wf(),
            old(self).total() + other.total() <= u128::MAX,
        ensures
            final(self).wf(),
            final(self)@ == map_sum(old(self)@, other@),
            final(self).total() == old(self).total() + other.total(),
    {
        let mut i: usize = 0;
        while i < other.entries.len()
            invariant
                i <= other.entries@.len(),
                other.wf(),
                self.wf(),
                old(self).total() + other.total() <= u128::MAX,
                self@ == map_sum(old(self)@, entries_map(other.entries@.take(i as int))),
                self.total() == old(self).total() + entries_total(other.entries@.take(i as int)),
            decreases other.entries@.len() - i,
        {
            let ghost t = other.entries@.take(i as int);
            let ghost t2 = other.entries@.take(i as int + 1);
            proof {
                lemma_sorted_distinct(other.entries@);
                assert(t2.drop_last() == t);
                assert(keys_distinct(t));
                lemma_entries_map_has(t, other.entries@[i as int].0@);
                lemma_entries_total_prefix(other.entries@, i as int + 1);
            }
            let key = other.entries[i].0.clone();
            let n = other.entries[i].1;
            self.add(key, n);
            proof {
                assert(self@ =~= map_sum(old(self)@, entries_map(t2)));
            }
            i = i + 1;
        }
        proof {
            assert(other.entries@.take(other.entries@.len() as int) == other.entries@);
        }
    }

    /// The entries as key and count pairs, each key once.
    pub fn to_vec(&self) -> (r: Vec<(String, u128)>)
        requires
            self.wf(),
        ensures
            r@.len() == self@.dom().len(),
            forall|i: int, j: int| 0 <= i < j < r@.len() ==> r@[i].0@ != r@[j].0@,
            forall|i: int| 0 <= i < r@.len() ==> #[trigger] self@.contains_key(r@[i].0@) && self@[r@[i].0@]
                == r@[i].1 as nat,
            forall|k: Seq<char>| #[trigger] self@.contains_key(k) ==> exists|i: int|
                0 <= i < r@.len() && r@[i].0@ == k,
    {
        let mut out: Vec<(String, u128)> = Vec::new();
        let mut i: usize = 0;
        while i < self.entries.len()
            invariant
                i <= self.entries@.len(),
                out@.len() == i,
                forall|j: int| 0 <= j < i ==> #[trigger] out@[j] == self.entries@[j],
            decreases self.entries@.len() - i,
        {
            out.push((self.entries[i].0.clone(), self.entries[i].1));
            i = i + 1;
        }
        assert(out@ =~= self.entries@);
        proof {
            lemma_sorted_distinct(self.entries@);
        }
        proof {
            self.lemma_dom_len();
            assert forall|i: int| 0 <= i < self.entries@.len() implies #[trigger] self@.contains_key(
                self.entries@[i].0@,
            ) && self@[self.entries@[i].0@] == self.entries@[i].1 as nat by {
                lemma_entries_map_has(self.entries@, self.entries@[i].0@);
            }
            assert forall|k: Seq<char>| #[trigger] self@.contains_key(k) implies exists|i: int|
                0 <= i < self.entries@.len() && self.entries@[i].0@ == k by {
                lemma_entries_map_has(self.entries@, k);
            }
        }
        out
    }
}

proof fn lemma_entries_total_prefix(s: Seq<(String, u128)>, i: int)
    requires
        0 < i <= s.len(),
    ensures
        entries_total(s.take(i)) == entries_total(s.take(i - 1)) + s[i - 1].1 as nat,
        entries_total(s.take(i)) <= entries_total(s),
    decreases s.len(),
{
    assert(s.take(i).drop_last() == s.take(i - 1));
    if i < s.len() {
        assert(s.drop_last().take(i) == s.take(i));
        assert(s.drop_last().take(i - 1) == s.take(i - 1));
        lemma_entries_total_prefix(s.drop_last(), i);
    } else {
        assert(s.take(i) == s);
    }
}

proof fn lemma_dom_len_of(s: Seq<(String, u128)>)
    requires
        keys_distinct(s),
    ensures
        entries_map(s).dom().len() == s.len(),
        entries_map(s).dom().finite(),
    decreases s.len(),
{
    if s.len() > 0 {
        let p = s.drop_last();
        lemma_dom_len_of(p);
        lemma_entries_map_has(p, s.last().0@);
        assert(!entries_map(p).contains_key(s.last().0@)) by {
            if entries_map(p).contains_key(s.last().0@) {
                let i = choose|i: int| 0 <= i < p.len() && p[i].0@ == s.last().0@;
                assert(s[i].0@ == s[s.len() - 1].0@);
            }
        }
    }
}

} // verus!
