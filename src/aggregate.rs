use vstd::prelude::*;

use std::collections::HashMap;
use vstd::std_specs::iter::IteratorSpec;

use crate::algebra::{law_fold_concat, law_merge_empty, lemma_fold_id, lemma_fold_names_distinct};
use crate::author::{Author, AuthorView, combine, empty_view, fold_author};
use crate::message::Message;

verus! {

broadcast use vstd::std_specs::hash::group_hash_axioms;

/// The author ids that occur in `msgs`.
pub open spec fn author_ids(msgs: Seq<Message>) -> Set<u64>
    decreases msgs.len(),
{
    if msgs.len() == 0 {
        Set::empty()
    } else {
        author_ids(msgs.drop_last()).insert(msgs.last().author_id)
    }
}

/// What a map from id to author must hold: each author is well formed and
/// carries the id it is filed under.
pub open spec fn authors_wf(m: Map<u64, Author>) -> bool {
    forall|id: u64| #[trigger] m.contains_key(id) ==> m[id].wf() && m[id].id == id
}

/// An author map that holds, for each author of `msgs`, exactly the fold of
/// that author's messages.
pub open spec fn folds_of(m: Map<u64, Author>, msgs: Seq<Message>) -> bool {
    &&& authors_wf(m)
    &&& m.dom() == author_ids(msgs)
    &&& forall|id: u64| #[trigger] m.contains_key(id) ==> m[id]@ == fold_author(id, msgs)
}

pub proof fn lemma_fold_count(id: u64, s: Seq<Message>)
    ensures
        fold_author(id, s).message_count <= s.len(),
        !author_ids(s).contains(id) ==> fold_author(id, s) == empty_view(id),
    decreases s.len(),
{
    if s.len() > 0 {
        lemma_fold_count(id, s.drop_last());
    }
}

/// Folds a run of messages into one accumulator per author.
pub fn create_authors(messages: Vec<Message>) -> (r: HashMap<u64, Author>)
    ensures
        folds_of(r@, messages@),
{
    let mut map: HashMap<u64, Author> = HashMap::new();
    let mut i: usize = 0;
    proof {
        assert(messages@.take(0) =~= Seq::<Message>::empty());
        assert(map@.dom() =~= author_ids(messages@.take(0)));
    }
    while i < messages.len()
        invariant
            i <= messages@.len(),
            folds_of(map@, messages@.take(i as int)),
            forall|id: u64| #[trigger]
                map@.contains_key(id) ==> map@[id].message_count <= i,
        decreases messages@.len() - i,
    {
        let ghost pre = messages@.take(i as int);
        let ghost post = messages@.take(i as int + 1);
        proof {
            assert(post.drop_last() =~= pre);
            assert(post.last() == messages@[i as int]);
        }
        let id = messages[i].author_id;
        let ghost before = map@;
        let mut a = match map.remove(&id) {
            Some(a) => a,
            None => Author::new(id),
        };
        proof {
            lemma_fold_count(id, pre);
            assert(a.wf() && a.id == id);
            assert(a@ == fold_author(id, pre));
        }
        a.absorb_message(&messages[i]);
        map.insert(id, a);
        proof {
            assert(map@.dom() =~= author_ids(post));
            assert forall|k: u64| #[trigger] map@.contains_key(k) implies map@[k].wf() && map@[k].id
                == k && map@[k]@ == fold_author(k, post) && map@[k].message_count <= i + 1 by {
                if k != id {
                    assert(map@[k] == before[k]);
                }
            }
        }
        i = i + 1;
    }
    proof {
        assert(messages@.take(messages@.len() as int) =~= messages@);
    }
    map
}

/// The messages of all shards, shard after shard.
pub open spec fn flatten(shards: Seq<Seq<Message>>) -> Seq<Message>
    decreases shards.len(),
{
    if shards.len() == 0 {
        Seq::empty()
    } else {
        flatten(shards.drop_last()) + shards.last()
    }
}

/// The views of a sequence of message vectors.
pub open spec fn shard_views(v: Seq<Vec<Message>>) -> Seq<Seq<Message>> {
    v.map_values(|x: Vec<Message>| x@)
}

/// Size of each shard when `n` messages go to `workers` shards.
pub open spec fn shard_size(n: nat, workers: nat) -> nat
    recommends
        workers > 0,
{
    if n % workers == 0 {
        n / workers
    } else {
        n / workers + 1
    }
}

/// Splits `messages` into `workers` consecutive shards of at most
/// `shard_size` messages each; laid end to end they are the input.
pub fn partition(messages: Vec<Message>, workers: usize) -> (r: Vec<Vec<Message>>)
    requires
        workers >= 1,
    ensures
        r@.len() == workers,
        flatten(shard_views(r@)) == messages@,
        forall|k: int| 0 <= k < r@.len() ==> #[trigger] r@[k]@.len() <= shard_size(
            messages@.len(),
            workers as nat,
        ),
{
    let n = messages.len();
    let size: usize = if n % workers == 0 {
        n / workers
    } else {
        proof {
            let w = workers as int;
            assert(w > 1);
            assert((n as int / w) * w <= n as int) by (nonlinear_arith)
                requires
                    w > 1,
            ;
            assert((n as int / w) * 2 <= (n as int / w) * w) by (nonlinear_arith)
                requires
                    w > 1,
                    n as int / w >= 0,
            ;
        }
        n / workers + 1
    };
    proof {
        let w = workers as int;
        let q = n as int / w;
        let rm = n as int % w;
        assert(n as int == w * q + rm && 0 <= rm < w) by (nonlinear_arith)
            requires
                w >= 1,
                q == n as int / w,
                rm == n as int % w,
        ;
        if rm == 0 {
            assert(size == q);
        } else {
            assert(size == q + 1);
            assert(w * (q + 1) == w * q + w) by (nonlinear_arith);
        }
        assert(n <= workers * size);
    }
    let mut rest = messages;
    let mut shards: Vec<Vec<Message>> = Vec::new();
    let mut k: usize = 0;
    while k < workers
        invariant
            k <= workers,
            shards@.len() == k,
            flatten(shard_views(shards@)) + rest@ == messages@,
            rest@.len() <= (workers - k) * size,
            size == shard_size(n as nat, workers as nat),
            n == messages@.len(),
            forall|j: int| 0 <= j < shards@.len() ==> #[trigger] shards@[j]@.len() <= size,
        decreases workers - k,
    {
        let take = if size < rest.len() {
            size
        } else {
            rest.len()
        };
        let tail = rest.split_off(take);
        let ghost before = shards@;
        let ghost head = rest@;
        shards.push(rest);
        rest = tail;
        proof {
            assert(shard_views(shards@).drop_last() =~= shard_views(before));
            assert(shard_views(shards@).last() == head);
            assert((workers - k) * size == (workers - (k + 1)) * size + size) by (nonlinear_arith);
            assert(flatten(shard_views(shards@)) + rest@ =~= flatten(shard_views(before)) + head
                + rest@);
        }
        k = k + 1;
    }
    proof {
        assert(k == workers);
        assert((workers - k) * size == 0) by (nonlinear_arith)
            requires
                k == workers,
        ;
        assert(rest@.len() == 0);
        assert(flatten(shard_views(shards@)) + rest@ =~= flatten(shard_views(shards@)));
    }
    shards
}

/// The views of a sequence of author maps.
pub open spec fn part_views(v: Seq<HashMap<u64, Author>>) -> Seq<Map<u64, Author>> {
    v.map_values(|x: HashMap<u64, Author>| x@)
}

/// Whether some map of `parts` holds `id`.
pub open spec fn in_parts(parts: Seq<Map<u64, Author>>, id: u64) -> bool
    decreases parts.len(),
{
    parts.len() > 0 && (in_parts(parts.drop_last(), id) || parts.last().contains_key(id))
}

/// The accumulator for `id` after combining, map after map, the entries
/// for `id` of `parts`.
pub open spec fn merged_view(parts: Seq<Map<u64, Author>>, id: u64) -> AuthorView
    decreases parts.len(),
{
    if parts.len() == 0 {
        empty_view(id)
    } else {
        let prev = merged_view(parts.drop_last(), id);
        if parts.last().contains_key(id) {
            combine(prev, parts.last()[id]@)
        } else {
            prev
        }
    }
}

pub proof fn lemma_merged_absent(parts: Seq<Map<u64, Author>>, id: u64)
    requires
        !in_parts(parts, id),
    ensures
        merged_view(parts, id) == empty_view(id),
    decreases parts.len(),
{
    if parts.len() > 0 {
        lemma_merged_absent(parts.drop_last(), id);
    }
}

pub proof fn lemma_merged_prefix_count(parts: Seq<Map<u64, Author>>, k: int, id: u64)
    requires
        0 <= k <= parts.len(),
    ensures
        merged_view(parts.take(k), id).message_count <= merged_view(parts, id).message_count,
    decreases parts.len(),
{
    if k < parts.len() {
        assert(parts.drop_last().take(k) =~= parts.take(k));
        lemma_merged_prefix_count(parts.drop_last(), k, id);
    } else {
        assert(parts.take(k) =~= parts);
    }
}

/// The keys of `m`, each once.
pub(crate) fn keys_of<V>(m: &HashMap<u64, V>) -> (r: Vec<u64>)
    ensures
        r@.to_set() == m@.dom(),
        r@.no_duplicates(),
{
    let mut out: Vec<u64> = Vec::new();
    for k in it: m.keys()
        invariant
            out@ == it.seq().take(it.index() as int).map_values(|x: &u64| *x),
            it.seq() == vstd::std_specs::hash::spec_keys_iter(m).remaining(),
    {
        out.push(*k);
    }
    assert(out@ =~= vstd::std_specs::hash::spec_keys_iter(m).remaining().unref());
    out
}

/// Combines per-shard author maps into one: an id met for the first time is
/// filed as it is, and an id met again is merged into what is filed.
pub fn merge_maps(parts: Vec<HashMap<u64, Author>>) -> (r: HashMap<u64, Author>)
    requires
        forall|k: int| 0 <= k < parts@.len() ==> authors_wf(#[trigger] parts@[k]@),
        forall|id: u64| #[trigger]
            merged_view(part_views(parts@), id).message_count <= u64::MAX,
    ensures
        authors_wf(r@),
        forall|id: u64| #[trigger]
            r@.contains_key(id) <==> in_parts(part_views(parts@), id),
        forall|id: u64| #[trigger]
            r@.contains_key(id) ==> r@[id]@ == merged_view(part_views(parts@), id),
{
    let ghost pv = part_views(parts@);
    let mut master: HashMap<u64, Author> = HashMap::new();
    let mut k: usize = 0;
    proof {
        assert(pv.take(0) =~= Seq::<Map<u64, Author>>::empty());
    }
    while k < parts.len()
        invariant
            k <= parts@.len(),
            pv == part_views(parts@),
            forall|k: int| 0 <= k < parts@.len() ==> authors_wf(#[trigger] parts@[k]@),
            forall|id: u64| #[trigger] merged_view(pv, id).message_count <= u64::MAX,
            authors_wf(master@),
            forall|id: u64| #[trigger]
                master@.contains_key(id) <==> in_parts(pv.take(k as int), id),
            forall|id: u64| #[trigger]
                master@.contains_key(id) ==> master@[id]@ == merged_view(pv.take(k as int), id),
        decreases parts@.len() - k,
    {
        let ghost pre = pv.take(k as int);
        let ghost post = pv.take(k as int + 1);
        proof {
            assert(post.drop_last() =~= pre);
            assert(post.last() == parts@[k as int]@);
        }
        let part = &parts[k];
        let keys = keys_of(part);
        let mut j: usize = 0;
        while j < keys.len()
            invariant
                j <= keys@.len(),
                keys@.to_set() == part@.dom(),
                keys@.no_duplicates(),
                part@ == post.last(),
                post.drop_last() == pre,
                pre == pv.take(k as int),
                post == pv.take(k as int + 1),
                k < parts@.len(),
                pv == part_views(parts@),
                authors_wf(part@),
                forall|id: u64| #[trigger] merged_view(pv, id).message_count <= u64::MAX,
                authors_wf(master@),
                forall|id: u64| #[trigger]
                    master@.contains_key(id) <==> (in_parts(pre, id) || keys@.take(j as int).contains(id)),
                forall|id: u64| #[trigger]
                    master@.contains_key(id) ==> master@[id]@ == (if keys@.take(j as int).contains(id) {
                        merged_view(post, id)
                    } else {
                        merged_view(pre, id)
                    }),
            decreases keys@.len() - j,
        {
            let key = keys[j];
            proof {
                assert(keys@.to_set().contains(key));
                assert(!keys@.take(j as int).contains(key)) by {
                    if keys@.take(j as int).contains(key) {
                        let t = choose|t: int| 0 <= t < j && keys@.take(j as int)[t] == key;
                        assert(keys@[t] == keys@[j as int]);
                    }
                }
                assert forall|id: u64| #[trigger] keys@.take(j as int + 1).contains(id) <==> (
                keys@.take(j as int).contains(id) || id == key) by {
                    let a = keys@.take(j as int);
                    let b = keys@.take(j as int + 1);
                    assert(b =~= a.push(key));
                    if a.contains(id) {
                        let t = choose|t: int| 0 <= t < a.len() && a[t] == id;
                        assert(b[t] == id);
                    }
                    if id == key {
                        assert(b[j as int] == id);
                    }
                    if b.contains(id) {
                        let t = choose|t: int| 0 <= t < b.len() && b[t] == id;
                        if t < j {
                            assert(a[t] == id);
                        }
                    }
                }
            }
            let ghost before = master@;
            match part.get(&key) {
                Some(p) => {
                    let mut a = match master.remove(&key) {
                        Some(a) => a,
                        None => Author::new(key),
                    };
                    proof {
                        if !in_parts(pre, key) {
                            lemma_merged_absent(pre, key);
                        }
                        assert(a@ == merged_view(pre, key));
                        assert(merged_view(post, key) == combine(a@, p@));
                        lemma_merged_prefix_count(pv, k as int + 1, key);
                    }
                    a.merge_from(p);
                    master.insert(key, a);
                },
                None => {},
            }
            proof {
                assert forall|id: u64| #[trigger] master@.contains_key(id) implies master@[id].wf()
                    && master@[id].id == id by {
                    if id != key {
                        assert(master@[id] == before[id]);
                    }
                }
                assert forall|id: u64| #[trigger] master@.contains_key(id) implies master@[id]@ == (
                if keys@.take(j as int + 1).contains(id) {
                    merged_view(post, id)
                } else {
                    merged_view(pre, id)
                }) by {
                    if id != key {
                        assert(master@[id] == before[id]);
                    }
                }
            }
            j = j + 1;
        }
        proof {
            assert(keys@.take(keys@.len() as int) =~= keys@);
            assert forall|id: u64| #[trigger] master@.contains_key(id) implies master@[id]@
                == merged_view(post, id) by {
                if !keys@.contains(id) {
                    assert(!keys@.to_set().contains(id));
                }
            }
            assert forall|id: u64| #[trigger] master@.contains_key(id) <==> in_parts(post, id) by {
                assert(keys@.contains(id) <==> keys@.to_set().contains(id));
            }
        }
        k = k + 1;
    }
    proof {
        assert(pv.take(parts@.len() as int) =~= pv);
    }
    master
}

/// The accumulator for `id` after folding each shard on its own and
/// combining the results, shard after shard.
pub open spec fn merge_folds(id: u64, shards: Seq<Seq<Message>>) -> AuthorView
    decreases shards.len(),
{
    if shards.len() == 0 {
        empty_view(id)
    } else {
        combine(merge_folds(id, shards.drop_last()), fold_author(id, shards.last()))
    }
}

/// Folding each shard separately and combining the results gives exactly
/// the fold of all messages, however the messages were cut into shards.
pub proof fn law_partition_independence(id: u64, shards: Seq<Seq<Message>>)
    ensures
        merge_folds(id, shards) == fold_author(id, flatten(shards)),
    decreases shards.len(),
{
    if shards.len() > 0 {
        law_partition_independence(id, shards.drop_last());
        law_fold_concat(id, flatten(shards.drop_last()), shards.last());
    }
}

/// Two ways of cutting the same messages into shards, with any numbers of
/// shards, give the same accumulator for every author.
pub proof fn law_two_partitions(id: u64, shards1: Seq<Seq<Message>>, shards2: Seq<Seq<Message>>)
    requires
        flatten(shards1) == flatten(shards2),
    ensures
        merge_folds(id, shards1) == merge_folds(id, shards2),
{
    law_partition_independence(id, shards1);
    law_partition_independence(id, shards2);
}

pub proof fn lemma_author_ids_concat(s1: Seq<Message>, s2: Seq<Message>)
    ensures
        author_ids(s1 + s2) == author_ids(s1).union(author_ids(s2)),
    decreases s2.len(),
{
    if s2.len() == 0 {
        assert(s1 + s2 =~= s1);
        assert(author_ids(s1).union(author_ids(s2)) =~= author_ids(s1));
    } else {
        lemma_author_ids_concat(s1, s2.drop_last());
        assert((s1 + s2).drop_last() =~= s1 + s2.drop_last());
        assert((s1 + s2).last() == s2.last());
        assert(author_ids(s1 + s2) =~= author_ids(s1).union(author_ids(s2)));
    }
}

/// Maps that each hold the folds of one shard merge into the fold of all
/// the messages.
pub proof fn lemma_merged_is_fold(pv: Seq<Map<u64, Author>>, shards: Seq<Seq<Message>>, id: u64)
    requires
        pv.len() == shards.len(),
        forall|k: int| 0 <= k < pv.len() ==> folds_of(#[trigger] pv[k], shards[k]),
    ensures
        merged_view(pv, id) == fold_author(id, flatten(shards)),
        in_parts(pv, id) <==> author_ids(flatten(shards)).contains(id),
    decreases pv.len(),
{
    if pv.len() > 0 {
        let pp = pv.drop_last();
        let sp = shards.drop_last();
        assert forall|k: int| 0 <= k < pp.len() implies folds_of(#[trigger] pp[k], sp[k]) by {
            assert(folds_of(pv[k], shards[k]));
        }
        lemma_merged_is_fold(pp, sp, id);
        let last = shards.last();
        assert(folds_of(pv[pv.len() - 1], shards[shards.len() - 1]));
        law_fold_concat(id, flatten(sp), last);
        lemma_author_ids_concat(flatten(sp), last);
        if !pv.last().contains_key(id) {
            lemma_fold_count(id, last);
            lemma_fold_id(id, flatten(sp));
            lemma_fold_names_distinct(id, flatten(sp));
            law_merge_empty(fold_author(id, flatten(sp)));
        }
    }
}

/// How many messages of `msgs` the authors of `ks` wrote.
pub open spec fn count_sum(ks: Seq<u64>, msgs: Seq<Message>) -> nat
    decreases ks.len(),
{
    if ks.len() == 0 {
        0
    } else {
        count_sum(ks.drop_last(), msgs) + fold_author(ks.last(), msgs).message_count
    }
}

/// Number of places at which `x` stands in `ks`.
pub open spec fn occurrences(ks: Seq<u64>, x: u64) -> nat
    decreases ks.len(),
{
    if ks.len() == 0 {
        0
    } else {
        occurrences(ks.drop_last(), x) + (if ks.last() == x {
            1nat
        } else {
            0nat
        })
    }
}

pub proof fn lemma_occurrences_distinct(ks: Seq<u64>, x: u64)
    requires
        ks.no_duplicates(),
    ensures
        occurrences(ks, x) <= 1,
        !ks.contains(x) ==> occurrences(ks, x) == 0,
    decreases ks.len(),
{
    if ks.len() > 0 {
        let p = ks.drop_last();
        lemma_occurrences_distinct(p, x);
        if ks.last() == x && p.contains(x) {
            let i = choose|i: int| 0 <= i < p.len() && p[i] == x;
            assert(ks[i] == ks[ks.len() - 1]);
        }
        if p.contains(x) {
            let i = choose|i: int| 0 <= i < p.len() && p[i] == x;
            assert(ks[i] == x);
        }
        if ks.last() == x {
            assert(ks[ks.len() - 1] == x);
        }
    }
}

pub proof fn lemma_count_sum_push(ks: Seq<u64>, s: Seq<Message>, m: Message)
    ensures
        count_sum(ks, s.push(m)) == count_sum(ks, s) + occurrences(ks, m.author_id),
    decreases ks.len(),
{
    if ks.len() > 0 {
        lemma_count_sum_push(ks.drop_last(), s, m);
        assert(s.push(m).drop_last() =~= s);
    }
}

/// Distinct authors together wrote no more messages than there are.
pub proof fn lemma_count_sum_bound(ks: Seq<u64>, msgs: Seq<Message>)
    requires
        ks.no_duplicates(),
    ensures
        count_sum(ks, msgs) <= msgs.len(),
    decreases msgs.len(),
{
    if msgs.len() == 0 {
        lemma_count_sum_empty(ks);
        assert(msgs =~= Seq::<Message>::empty());
    } else {
        let p = msgs.drop_last();
        lemma_count_sum_bound(ks, p);
        lemma_count_sum_push(ks, p, msgs.last());
        lemma_occurrences_distinct(ks, msgs.last().author_id);
        assert(p.push(msgs.last()) =~= msgs);
    }
}

pub proof fn lemma_count_sum_empty(ks: Seq<u64>)
    ensures
        count_sum(ks, Seq::empty()) == 0,
    decreases ks.len(),
{
    if ks.len() > 0 {
        lemma_count_sum_empty(ks.drop_last());
    }
}

/// The authors of `ks`, looked up in `m`, combined in order into an
/// accumulator with id zero.
pub open spec fn combine_all(ks: Seq<u64>, m: Map<u64, Author>) -> AuthorView
    decreases ks.len(),
{
    if ks.len() == 0 {
        empty_view(0)
    } else {
        combine(combine_all(ks.drop_last(), m), m[ks.last()]@)
    }
}

/// Sum of the message counts of the authors of `ks` in `m`.
pub open spec fn message_total(ks: Seq<u64>, m: Map<u64, Author>) -> nat
    decreases ks.len(),
{
    if ks.len() == 0 {
        0
    } else {
        message_total(ks.drop_last(), m) + m[ks.last()].message_count as nat
    }
}

pub proof fn lemma_combine_all_count(ks: Seq<u64>, m: Map<u64, Author>)
    ensures
        combine_all(ks, m).message_count == message_total(ks, m),
        combine_all(ks, m).id == 0,
    decreases ks.len(),
{
    if ks.len() > 0 {
        lemma_combine_all_count(ks.drop_last(), m);
    }
}

/// Every key of `m` but zero, each once, in some order.
pub open spec fn real_ids(ks: Seq<u64>, m: Map<u64, Author>) -> bool {
    &&& ks.no_duplicates()
    &&& ks.to_set() == m.dom().remove(0)
}

/// The server aggregate: every author of `authors` but the one filed under
/// zero, merged into one accumulator with id zero.
pub fn server_aggregate(authors: &HashMap<u64, Author>) -> (r: Author)
    requires
        authors_wf(authors@),
        forall|ks: Seq<u64>|
            ks.no_duplicates() && ks.to_set().subset_of(authors@.dom()) ==> #[trigger] message_total(
                ks,
                authors@,
            ) <= u64::MAX,
    ensures
        r.wf(),
        r.id == 0,
        exists|ks: Seq<u64>| real_ids(ks, authors@) && r@ == combine_all(ks, authors@),
{
    let keys = keys_of(authors);
    let mut server = Author::new(0);
    let ghost mut chosen: Seq<u64> = Seq::empty();
    let mut j: usize = 0;
    proof {
        assert(keys@.take(0).to_set().remove(0) =~= chosen.to_set());
    }
    while j < keys.len()
        invariant
            j <= keys@.len(),
            keys@.to_set() == authors@.dom(),
            keys@.no_duplicates(),
            authors_wf(authors@),
            forall|ks: Seq<u64>|
                ks.no_duplicates() && ks.to_set().subset_of(authors@.dom())
                    ==> #[trigger] message_total(ks, authors@) <= u64::MAX,
            server.wf(),
            server.id == 0,
            server@ == combine_all(chosen, authors@),
            chosen.no_duplicates(),
            chosen.to_set() == keys@.take(j as int).to_set().remove(0),
        decreases keys@.len() - j,
    {
        let key = keys[j];
        let ghost before = chosen;
        proof {
            assert(keys@.take(j as int + 1) =~= keys@.take(j as int).push(key));
            assert(!keys@.take(j as int).contains(key)) by {
                if keys@.take(j as int).contains(key) {
                    let t = choose|t: int| 0 <= t < j && keys@.take(j as int)[t] == key;
                    assert(keys@[t] == keys@[j as int]);
                }
            }
            assert(keys@.to_set().contains(key));
        }
        if key != 0 {
            match authors.get(&key) {
                Some(a) => {
                    proof {
                        chosen = chosen.push(key);
                        assert(!before.contains(key)) by {
                            if before.contains(key) {
                                assert(before.to_set().contains(key));
                            }
                        }
                        assert(chosen.to_set().subset_of(authors@.dom())) by {
                            assert forall|x: u64| chosen.to_set().contains(x) implies authors@.dom().contains(x) by {
                                if x != key {
                                    assert(before.contains(x)) by {
                                        let t = choose|t: int| 0 <= t < chosen.len() && chosen[t] == x;
                                        assert(before[t] == x);
                                    }
                                    assert(before.to_set().contains(x));
                                }
                            }
                        }
                        assert(chosen.drop_last() =~= before);
                        lemma_combine_all_count(chosen, authors@);
                        assert(message_total(chosen, authors@) <= u64::MAX);
                    }
                    server.merge_from(a);
                },
                None => {},
            }
        }
        proof {
            assert(chosen.to_set() =~= keys@.take(j as int + 1).to_set().remove(0)) by {
                assert forall|x: u64| chosen.to_set().contains(x) <==> keys@.take(j as int + 1).to_set().remove(0).contains(x) by {
                    if chosen.contains(x) && x != key {
                        let t = choose|t: int| 0 <= t < chosen.len() && chosen[t] == x;
                        if t < before.len() {
                            assert(before[t] == x);
                            assert(before.to_set().contains(x));
                        } else {
                            assert(chosen[t] == key);
                        }
                    }
                    if keys@.take(j as int + 1).contains(x) && x != 0 && x != key {
                        let kt = keys@.take(j as int + 1);
                        let t = choose|t: int| 0 <= t < kt.len() && kt[t] == x;
                        assert(keys@.take(j as int)[t] == x);
                        assert(keys@.take(j as int).to_set().contains(x));
                        assert(before.to_set().contains(x));
                        let u = choose|u: int| 0 <= u < before.len() && before[u] == x;
                        assert(chosen[u] == x);
                    }
                    if x == key && x != 0 {
                        assert(chosen[chosen.len() - 1] == x);
                        assert(keys@.take(j as int + 1)[j as int] == x);
                    }
                    if x != key && before.contains(x) {
                        let u = choose|u: int| 0 <= u < before.len() && before[u] == x;
                        assert(chosen[u] == x);
                    }
                }
            }
            if chosen != before {
                assert forall|a: int, b: int| 0 <= a < b < chosen.len() implies chosen[a] != chosen[b] by {
                    if b == chosen.len() - 1 {
                        assert(before[a] == chosen[a]);
                        assert(before.contains(chosen[a]));
                    }
                }
            }
        }
        j = j + 1;
    }
    proof {
        assert(keys@.take(keys@.len() as int) =~= keys@);
    }
    server
}

pub proof fn lemma_message_total_is_count(ks: Seq<u64>, m: Map<u64, Author>, msgs: Seq<Message>)
    requires
        folds_of(m, msgs),
        ks.to_set().subset_of(m.dom()),
    ensures
        message_total(ks, m) == count_sum(ks, msgs),
    decreases ks.len(),
{
    if ks.len() > 0 {
        let p = ks.drop_last();
        assert(p.to_set().subset_of(m.dom())) by {
            assert forall|x: u64| p.to_set().contains(x) implies m.dom().contains(x) by {
                let t = choose|t: int| 0 <= t < p.len() && p[t] == x;
                assert(ks[t] == x);
                assert(ks.to_set().contains(x));
            }
        }
        lemma_message_total_is_count(p, m, msgs);
        assert(ks.to_set().contains(ks.last())) by {
            assert(ks[ks.len() - 1] == ks.last());
        }
        assert(m.contains_key(ks.last()));
    }
}

/// The result of a run: one accumulator per author, and the server
/// aggregate, which is all of them merged.
pub struct Statistics {
    pub authors: HashMap<u64, Author>,
    pub server: Author,
}

/// Aggregates `messages` with the work cut into `workers` shards: each shard
/// is folded on its own, the per-shard maps are merged, and the server
/// aggregate is built from the merged authors.
pub fn aggregate(messages: Vec<Message>, workers: usize) -> (r: Statistics)
    requires
        workers >= 1,
    ensures
        folds_of(r.authors@, messages@),
        r.server.wf(),
        r.server.id == 0,
        exists|ks: Seq<u64>| real_ids(ks, r.authors@) && r.server@ == combine_all(ks, r.authors@),
{
    let n = messages.len();
    let ghost all = messages@;
    let shards = partition(messages, workers);
    let parts = aggregate_shards(shards);
    let ghost sv = shard_views(shards@);
    let ghost pv = part_views(parts@);
    proof {
        assert forall|id: u64| #[trigger] merged_view(pv, id).message_count <= u64::MAX by {
            lemma_merged_is_fold(pv, sv, id);
            lemma_fold_count(id, all);
        }
    }
    let authors = merge_maps(parts);
    proof {
        assert(authors@.dom() =~= author_ids(all)) by {
            assert forall|id: u64| authors@.dom().contains(id) <==> author_ids(all).contains(id) by {
                lemma_merged_is_fold(pv, sv, id);
            }
        }
        assert forall|id: u64| #[trigger] authors@.contains_key(id) implies authors@[id]@
            == fold_author(id, all) by {
            lemma_merged_is_fold(pv, sv, id);
        }
        assert forall|ks: Seq<u64>|
            ks.no_duplicates() && ks.to_set().subset_of(authors@.dom()) implies #[trigger] message_total(
            ks,
            authors@,
        ) <= u64::MAX by {
            lemma_message_total_is_count(ks, authors@, all);
            lemma_count_sum_bound(ks, all);
        }
    }
    let server = server_aggregate(&authors);
    let r = Statistics { authors, server };
    proof {
        let ks = choose|ks: Seq<u64>| real_ids(ks, authors@) && server@ == combine_all(ks, authors@);
        assert(real_ids(ks, r.authors@) && r.server@ == combine_all(ks, r.authors@));
    }
    r
}

/// Folds each shard into its own author map, keeping the order of the shards.
pub fn aggregate_shards(shards: Vec<Vec<Message>>) -> (r: Vec<HashMap<u64, Author>>)
    ensures
        r@.len() == shards@.len(),
        forall|k: int| 0 <= k < r@.len() ==> folds_of(#[trigger] r@[k]@, shards@[k]@),
{
    let ghost sv = shard_views(shards@);
    let ghost total = shards@.len();
    let mut rest = shards;
    let mut parts: Vec<HashMap<u64, Author>> = Vec::new();
    proof {
        assert(shard_views(rest@) =~= sv.subrange(0, total as int));
    }
    while rest.len() > 0
        invariant
            parts@.len() + rest@.len() == total,
            sv.len() == total,
            shard_views(rest@) == sv.subrange(parts@.len() as int, total as int),
            forall|k: int| 0 <= k < parts@.len() ==> folds_of(#[trigger] parts@[k]@, sv[k]),
        decreases rest@.len(),
    {
        let ghost before = rest@;
        let shard = rest.remove(0);
        proof {
            assert(shard@ == shard_views(before)[0]);
            assert(shard_views(rest@) =~= shard_views(before).subrange(1, before.len() as int));
        }
        let part = create_authors(shard);
        parts.push(part);
    }
    parts
}

/// Sum of `f` over the authors of `ks` in `m`.
pub open spec fn sum_over(ks: Seq<u64>, m: Map<u64, Author>, f: spec_fn(AuthorView) -> nat) -> nat
    decreases ks.len(),
{
    if ks.len() == 0 {
        0
    } else {
        sum_over(ks.drop_last(), m, f) + f(m[ks.last()]@)
    }
}

pub proof fn lemma_sum_over_remove(ks: Seq<u64>, m: Map<u64, Author>, f: spec_fn(AuthorView) -> nat, i: int)
    requires
        0 <= i < ks.len(),
    ensures
        sum_over(ks, m, f) == sum_over(ks.remove(i), m, f) + f(m[ks[i]]@),
    decreases ks.len(),
{
    if i < ks.len() - 1 {
        let p = ks.drop_last();
        lemma_sum_over_remove(p, m, f, i);
        assert(ks.remove(i).drop_last() =~= p.remove(i));
        assert(ks.remove(i).last() == ks.last());
    } else {
        assert(ks.remove(i) =~= ks.drop_last());
    }
}

/// A sum over distinct keys does not depend on their order.
pub proof fn lemma_sum_over_permutation(
    ks1: Seq<u64>,
    ks2: Seq<u64>,
    m: Map<u64, Author>,
    f: spec_fn(AuthorView) -> nat,
)
    requires
        ks1.no_duplicates(),
        ks2.no_duplicates(),
        ks1.to_set() == ks2.to_set(),
    ensures
        sum_over(ks1, m, f) == sum_over(ks2, m, f),
    decreases ks1.len(),
{
    ks1.unique_seq_to_set();
    ks2.unique_seq_to_set();
    if ks1.len() > 0 {
        let x = ks1.last();
        assert(ks1.to_set().contains(x)) by {
            assert(ks1[ks1.len() - 1] == x);
        }
        assert(ks2.contains(x));
        let i = choose|i: int| 0 <= i < ks2.len() && ks2[i] == x;
        let rest1 = ks1.drop_last();
        let rest2 = ks2.remove(i);
        assert(rest1.to_set() =~= rest2.to_set()) by {
            assert forall|y: u64| rest1.to_set().contains(y) <==> rest2.to_set().contains(y) by {
                if rest1.contains(y) {
                    let t = choose|t: int| 0 <= t < rest1.len() && rest1[t] == y;
                    assert(ks1[t] == y);
                    assert(ks1.to_set().contains(y));
                    assert(y != x);
                    let u = choose|u: int| 0 <= u < ks2.len() && ks2[u] == y;
                    assert(u != i);
                    if u < i {
                        assert(rest2[u] == y);
                    } else {
                        assert(rest2[u - 1] == y);
                    }
                }
                if rest2.contains(y) {
                    let t = choose|t: int| 0 <= t < rest2.len() && rest2[t] == y;
                    let u = if t < i { t } else { t + 1 };
                    assert(ks2[u] == y);
                    assert(u != i);
                    assert(y != x);
                    assert(ks2.to_set().contains(y));
                    let v = choose|v: int| 0 <= v < ks1.len() && ks1[v] == y;
                    assert(v != ks1.len() - 1);
                    assert(rest1[v] == y);
                }
            }
        }
        assert(rest2.no_duplicates()) by {
            assert forall|a: int, b: int| 0 <= a < b < rest2.len() implies rest2[a] != rest2[b] by {
                let a2 = if a < i { a } else { a + 1 };
                let b2 = if b < i { b } else { b + 1 };
                assert(rest2[a] == ks2[a2]);
                assert(rest2[b] == ks2[b2]);
            }
        }
        lemma_sum_over_permutation(rest1, rest2, m, f);
        lemma_sum_over_remove(ks2, m, f, i);
    }
}

/// The server aggregate holds, in each counter, the sum of that counter over
/// all the authors it was built from, and the sum is the same for every
/// order of the authors.
pub proof fn law_server_totals(ks: Seq<u64>, m: Map<u64, Author>)
    ensures
        combine_all(ks, m).message_count == sum_over(ks, m, |a: AuthorView| a.message_count),
        combine_all(ks, m).word_count == sum_over(ks, m, |a: AuthorView| a.word_count),
        combine_all(ks, m).character_count == sum_over(ks, m, |a: AuthorView| a.character_count),
        combine_all(ks, m).question_count == sum_over(ks, m, |a: AuthorView| a.question_count),
        forall|ks2: Seq<u64>, f: spec_fn(AuthorView) -> nat|
            ks.no_duplicates() && ks2.no_duplicates() && ks.to_set() == ks2.to_set()
                ==> #[trigger] sum_over(ks2, m, f) == sum_over(ks, m, f),
    decreases ks.len(),
{
    if ks.len() > 0 {
        law_server_totals(ks.drop_last(), m);
    }
    assert forall|ks2: Seq<u64>, f: spec_fn(AuthorView) -> nat|
        ks.no_duplicates() && ks2.no_duplicates() && ks.to_set() == ks2.to_set()
            implies #[trigger] sum_over(ks2, m, f) == sum_over(ks, m, f) by {
        lemma_sum_over_permutation(ks2, ks, m, f);
    }
}

/// Aggregating no messages gives no authors and a server aggregate with
/// every counter at zero.
pub proof fn law_empty_input(r: Statistics, ks: Seq<u64>)
    requires
        folds_of(r.authors@, Seq::empty()),
        real_ids(ks, r.authors@),
        r.server@ == combine_all(ks, r.authors@),
    ensures
        r.authors@.dom().is_empty(),
        r.server@ == empty_view(0),
{
    assert(r.authors@.dom() =~= Set::<u64>::empty());
    ks.unique_seq_to_set();
    assert(ks.to_set() =~= Set::<u64>::empty());
    assert(ks.len() == 0);
}

/// Two author maps that both hold the folds of the same messages, such as
/// the results of runs with different numbers of workers, hold the same ids
/// and the same accumulators.
pub proof fn law_worker_count_invariance(m1: Map<u64, Author>, m2: Map<u64, Author>, msgs: Seq<Message>)
    requires
        folds_of(m1, msgs),
        folds_of(m2, msgs),
    ensures
        m1.dom() == m2.dom(),
        forall|id: u64| #[trigger] m1.contains_key(id) ==> m1[id]@ == m2[id]@,
{
}

/// Whether a message falls in the years from `start_year` to `end_year`;
/// two zeros stand for no bound.
pub open spec fn in_years(m: Message, start_year: i32, end_year: i32) -> bool {
    (start_year == 0 && end_year == 0) || (start_year <= m.date.year && m.date.year <= end_year)
}

/// The messages of `msgs` that fall in the years, in order.
pub open spec fn keep_years(msgs: Seq<Message>, start_year: i32, end_year: i32) -> Seq<Message>
    decreases msgs.len(),
{
    if msgs.len() == 0 {
        msgs
    } else {
        let prev = keep_years(msgs.drop_last(), start_year, end_year);
        if in_years(msgs.last(), start_year, end_year) {
            prev.push(msgs.last())
        } else {
            prev
        }
    }
}

/// Keeps the messages sent in the years from `start_year` to `end_year`,
/// both included; with both at zero every message is kept.
pub fn filter_years(messages: Vec<Message>, start_year: i32, end_year: i32) -> (r: Vec<Message>)
    ensures
        r@ == keep_years(messages@, start_year, end_year),
{
    let ghost all = messages@;
    let mut out: Vec<Message> = Vec::new();
    proof {
        assert(all.take(0) =~= Seq::<Message>::empty());
    }
    for m in it: messages.into_iter()
        invariant
            it.seq() == all,
            out@ == keep_years(all.take(it.index() as int), start_year, end_year),
    {
        proof {
            assert(all.take(it.index() as int + 1).drop_last() =~= all.take(it.index() as int));
        }
        if (start_year == 0 && end_year == 0) || (start_year <= m.date.year && m.date.year <= end_year) {
            out.push(m);
        }
    }
    proof {
        assert(all.take(all.len() as int) =~= all);
    }
    out
}

} // verus!
