use vstd::prelude::*;

use crate::author::{
    Author, AuthorView, add_name, combine, empty_view, fold_author, step, union_names,
};
use crate::message::Message;
use crate::tally::{add_count, add_tokens, count_in, map_sum};

verus! {

pub proof fn lemma_union_contains(a: Seq<Seq<char>>, b: Seq<Seq<char>>, x: Seq<char>)
    ensures
        union_names(a, b).contains(x) <==> (a.contains(x) || b.contains(x)),
    decreases b.len(),
{
    if b.len() > 0 {
        let p = b.drop_last();
        lemma_union_contains(a, p, x);
        let u = union_names(a, p);
        if u.contains(x) {
            assert(union_names(a, b).contains(x)) by {
                let i = choose|i: int| 0 <= i < u.len() && u[i] == x;
                assert(union_names(a, b)[i] == x);
            }
        }
        if p.contains(x) {
            let i = choose|i: int| 0 <= i < p.len() && p[i] == x;
            assert(b[i] == x);
        }
        if b.contains(x) && !p.contains(x) {
            let i = choose|i: int| 0 <= i < b.len() && b[i] == x;
            if i < p.len() {
                assert(p[i] == x);
            }
            assert(b.last() == x);
            if !u.contains(x) {
                assert(union_names(a, b)[u.len() as int] == x);
            }
        }
        if union_names(a, b).contains(x) && !u.contains(x) {
            let i = choose|i: int| 0 <= i < union_names(a, b).len() && union_names(a, b)[i] == x;
            assert(b.last() == x);
            assert(b[b.len() - 1] == x);
        }
    }
}

pub proof fn lemma_union_empty_left(b: Seq<Seq<char>>)
    requires
        b.no_duplicates(),
    ensures
        union_names(Seq::empty(), b) == b,
    decreases b.len(),
{
    if b.len() > 0 {
        let p = b.drop_last();
        assert(p.no_duplicates());
        lemma_union_empty_left(p);
        assert(!p.contains(b.last())) by {
            if p.contains(b.last()) {
                let i = choose|i: int| 0 <= i < p.len() && p[i] == b.last();
                assert(b[i] == b[b.len() - 1]);
            }
        }
        assert(p.push(b.last()) =~= b);
    }
}

pub proof fn lemma_union_add(a: Seq<Seq<char>>, y: Seq<Seq<char>>, x: Seq<char>)
    ensures
        union_names(a, add_name(y, x)) == add_name(union_names(a, y), x),
{
    lemma_union_contains(a, y, x);
    if !y.contains(x) {
        assert(y.push(x).drop_last() =~= y);
    }
}

pub proof fn lemma_union_assoc(a: Seq<Seq<char>>, b: Seq<Seq<char>>, c: Seq<Seq<char>>)
    ensures
        union_names(union_names(a, b), c) == union_names(a, union_names(b, c)),
    decreases c.len(),
{
    if c.len() > 0 {
        lemma_union_assoc(a, b, c.drop_last());
        lemma_union_add(a, union_names(b, c.drop_last()), c.last());
    }
}

pub proof fn lemma_sum_add_tokens(
    a: Map<Seq<char>, nat>,
    b: Map<Seq<char>, nat>,
    toks: Seq<Seq<char>>,
)
    ensures
        map_sum(a, add_tokens(b, toks)) == add_tokens(map_sum(a, b), toks),
    decreases toks.len(),
{
    if toks.len() > 0 {
        let p = toks.drop_last();
        lemma_sum_add_tokens(a, b, p);
        let x = add_tokens(b, p);
        assert(map_sum(a, add_count(x, toks.last(), 1)) =~= add_count(map_sum(a, x), toks.last(), 1));
    }
}

pub proof fn lemma_combine_step(a: AuthorView, b: AuthorView, m: Message)
    ensures
        combine(a, step(b, m)) == step(combine(a, b), m),
{
    lemma_union_add(a.names, b.names, m.author_name@);
    lemma_sum_add_tokens(a.vocab, b.vocab, crate::author::words(m.content@));
    assert(a.time_ledger + b.time_ledger.push((m.date, m.channel_id)) =~= (a.time_ledger
        + b.time_ledger).push((m.date, m.channel_id)));
    assert(a.attachments_ledger + (b.attachments_ledger + crate::text::views_of(m.attachments@))
        =~= (a.attachments_ledger + b.attachments_ledger) + crate::text::views_of(m.attachments@));
}

pub proof fn lemma_fold_id(id: u64, s: Seq<Message>)
    ensures
        fold_author(id, s).id == id,
    decreases s.len(),
{
    if s.len() > 0 {
        lemma_fold_id(id, s.drop_last());
    }
}

pub proof fn lemma_fold_names_distinct(id: u64, s: Seq<Message>)
    ensures
        fold_author(id, s).names.no_duplicates(),
    decreases s.len(),
{
    if s.len() > 0 {
        lemma_fold_names_distinct(id, s.drop_last());
        let n = fold_author(id, s.drop_last()).names;
        let x = s.last().author_name@;
        if !n.contains(x) {
            assert forall|i: int, j: int| 0 <= i < j < n.push(x).len() implies n.push(x)[i] != n.push(
                x,
            )[j] by {
                if j == n.len() {
                    assert(n[i] == n.push(x)[i]);
                }
            }
        }
    }
}

/// An accumulator combined with a fresh accumulator of its own id, on
/// either side, is unchanged.
pub proof fn law_merge_empty(a: AuthorView)
    requires
        a.names.no_duplicates(),
    ensures
        combine(a, empty_view(a.id)) == a,
        combine(empty_view(a.id), a) == a,
{
    lemma_union_empty_left(a.names);
    assert(a.time_ledger + Seq::empty() =~= a.time_ledger);
    assert(Seq::empty() + a.time_ledger =~= a.time_ledger);
    assert(a.attachments_ledger + Seq::empty() =~= a.attachments_ledger);
    assert(Seq::empty() + a.attachments_ledger =~= a.attachments_ledger);
    assert(map_sum(a.vocab, Map::empty()) =~= a.vocab);
    assert(map_sum(Map::empty(), a.vocab) =~= a.vocab);
    assert(map_sum(a.agreement, Map::empty()) =~= a.agreement);
    assert(map_sum(Map::empty(), a.agreement) =~= a.agreement);
}

/// `Author::merge` with a fresh `Author::new` of the same id, on either
/// side, leaves a well-formed author unchanged.
pub proof fn law_merge_new_identity(a: Author, fresh: Author)
    requires
        a.wf(),
        fresh@ == empty_view(a.id),
    ensures
        combine(a@, fresh@) == a@,
        combine(fresh@, a@) == a@,
{
    law_merge_empty(a@);
}

/// Combining is associative, in every field and ledger order included.
pub proof fn law_merge_associative(a: AuthorView, b: AuthorView, c: AuthorView)
    ensures
        combine(combine(a, b), c) == combine(a, combine(b, c)),
{
    lemma_union_assoc(a.names, b.names, c.names);
    assert(map_sum(map_sum(a.vocab, b.vocab), c.vocab) =~= map_sum(a.vocab, map_sum(b.vocab, c.vocab)));
    assert(map_sum(map_sum(a.agreement, b.agreement), c.agreement) =~= map_sum(
        a.agreement,
        map_sum(b.agreement, c.agreement),
    ));
    assert((a.time_ledger + b.time_ledger) + c.time_ledger =~= a.time_ledger + (b.time_ledger
        + c.time_ledger));
    assert((a.attachments_ledger + b.attachments_ledger) + c.attachments_ledger
        =~= a.attachments_ledger + (b.attachments_ledger + c.attachments_ledger));
}

/// Combining is commutative in every counter and table; the ledgers agree
/// as multisets and the names as sets.
pub proof fn law_merge_commutative(a: AuthorView, b: AuthorView)
    ensures
        ({
            let ab = combine(a, b);
            let ba = combine(b, a);
            &&& ab.message_count == ba.message_count
            &&& ab.word_count == ba.word_count
            &&& ab.character_count == ba.character_count
            &&& ab.question_count == ba.question_count
            &&& ab.times_majority == ba.times_majority
            &&& ab.times_minority == ba.times_minority
            &&& ab.vocab == ba.vocab
            &&& ab.agreement == ba.agreement
            &&& ab.time_ledger.to_multiset() == ba.time_ledger.to_multiset()
            &&& ab.attachments_ledger.to_multiset() == ba.attachments_ledger.to_multiset()
            &&& ab.names.to_set() == ba.names.to_set()
        }),
{
    let ab = combine(a, b);
    let ba = combine(b, a);
    assert(ab.vocab =~= ba.vocab);
    assert(ab.agreement =~= ba.agreement);
    vstd::seq_lib::lemma_multiset_commutative(a.time_ledger, b.time_ledger);
    vstd::seq_lib::lemma_multiset_commutative(b.time_ledger, a.time_ledger);
    vstd::seq_lib::lemma_multiset_commutative(a.attachments_ledger, b.attachments_ledger);
    vstd::seq_lib::lemma_multiset_commutative(b.attachments_ledger, a.attachments_ledger);
    assert forall|x: Seq<char>| ab.names.to_set().contains(x) <==> ba.names.to_set().contains(x) by {
        lemma_union_contains(a.names, b.names, x);
        lemma_union_contains(b.names, a.names, x);
    }
    assert(ab.names.to_set() =~= ba.names.to_set());
}

/// Folding two runs of messages separately and combining the results gives
/// exactly what folding their concatenation gives.
pub proof fn law_fold_concat(id: u64, s1: Seq<Message>, s2: Seq<Message>)
    ensures
        combine(fold_author(id, s1), fold_author(id, s2)) == fold_author(id, s1 + s2),
    decreases s2.len(),
{
    if s2.len() == 0 {
        lemma_fold_id(id, s1);
        lemma_fold_names_distinct(id, s1);
        law_merge_empty(fold_author(id, s1));
        assert(s1 + s2 =~= s1);
    } else {
        let p = s2.drop_last();
        let m = s2.last();
        law_fold_concat(id, s1, p);
        assert((s1 + s2).drop_last() =~= s1 + p);
        assert((s1 + s2).last() == m);
        if m.author_id == id {
            lemma_combine_step(fold_author(id, s1), fold_author(id, p), m);
        }
    }
}

/// In a well-formed author the message count is the length of the time
/// ledger and the word count is the sum of the vocabulary's counts; every
/// operation that builds or changes an author keeps it well formed.
pub proof fn law_count_consistency(a: &Author)
    requires
        a.wf(),
    ensures
        a.message_count == a.time_ledger@.len(),
        a.word_count == a.vocab_dict.total(),
{
}

/// The same holds of the model: folding messages adds one ledger entry per
/// message.
pub proof fn law_fold_count_consistency(id: u64, s: Seq<Message>)
    ensures
        fold_author(id, s).message_count == fold_author(id, s).time_ledger.len(),
    decreases s.len(),
{
    if s.len() > 0 {
        law_fold_count_consistency(id, s.drop_last());
    }
}

} // verus!
