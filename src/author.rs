use vstd::prelude::*;

use crate::message::{Message, Timestamp};
use crate::tally::{Tally, add_tokens, map_sum};
use crate::text::{has_char, split_on, split_spec, views_of};

verus! {

/// Upper bound on what one message adds to the word or the character count.
pub open spec fn per_message_bound() -> nat {
    0x1_0000_0000_0000_0000
}

/// What an `Author` holds, as mathematical values.
pub struct AuthorView {
    pub id: u64,
    pub names: Seq<Seq<char>>,
    pub message_count: nat,
    pub word_count: nat,
    pub character_count: nat,
    pub question_count: nat,
    pub times_majority: nat,
    pub times_minority: nat,
    pub time_ledger: Seq<(Timestamp, u64)>,
    pub attachments_ledger: Seq<Seq<char>>,
    pub vocab: Map<Seq<char>, nat>,
    pub agreement: Map<Seq<char>, nat>,
}

/// The accumulator of an author that has seen nothing yet.
pub open spec fn empty_view(id: u64) -> AuthorView {
    AuthorView {
        id,
        names: Seq::empty(),
        message_count: 0,
        word_count: 0,
        character_count: 0,
        question_count: 0,
        times_majority: 0,
        times_minority: 0,
        time_ledger: Seq::empty(),
        attachments_ledger: Seq::empty(),
        vocab: Map::empty(),
        agreement: Map::empty(),
    }
}

/// `names` with `n` appended, unless it is there already.
pub open spec fn add_name(names: Seq<Seq<char>>, n: Seq<char>) -> Seq<Seq<char>> {
    if names.contains(n) {
        names
    } else {
        names.push(n)
    }
}

/// `a` followed by the names of `b` that are new, in the order of `b`.
pub open spec fn union_names(a: Seq<Seq<char>>, b: Seq<Seq<char>>) -> Seq<Seq<char>>
    decreases b.len(),
{
    if b.len() == 0 {
        a
    } else {
        add_name(union_names(a, b.drop_last()), b.last())
    }
}

/// The words of a message body: the pieces between single spaces.
pub open spec fn words(content: Seq<char>) -> Seq<Seq<char>> {
    split_spec(content, ' ')
}

/// Length of the UTF-8 encoding of `content`.
pub open spec fn byte_len(content: Seq<char>) -> nat {
    vstd::utf8::encode_utf8(content).len()
}

/// One when `content` holds a question mark, else zero.
pub open spec fn question_of(content: Seq<char>) -> nat {
    if content.contains('?') {
        1
    } else {
        0
    }
}

/// The accumulator `a` after folding in message `m`.
pub open spec fn step(a: AuthorView, m: Message) -> AuthorView {
    AuthorView {
        id: a.id,
        names: add_name(a.names, m.author_name@),
        message_count: a.message_count + 1,
        word_count: a.word_count + words(m.content@).len(),
        character_count: a.character_count + byte_len(m.content@),
        question_count: a.question_count + question_of(m.content@),
        times_majority: a.times_majority,
        times_minority: a.times_minority,
        time_ledger: a.time_ledger.push((m.date, m.channel_id)),
        attachments_ledger: a.attachments_ledger + views_of(m.attachments@),
        vocab: add_tokens(a.vocab, words(m.content@)),
        agreement: a.agreement,
    }
}

/// Two accumulators combined into one, keeping the id of `a`.
pub open spec fn combine(a: AuthorView, b: AuthorView) -> AuthorView {
    AuthorView {
        id: a.id,
        names: union_names(a.names, b.names),
        message_count: a.message_count + b.message_count,
        word_count: a.word_count + b.word_count,
        character_count: a.character_count + b.character_count,
        question_count: a.question_count + b.question_count,
        times_majority: a.times_majority + b.times_majority,
        times_minority: a.times_minority + b.times_minority,
        time_ledger: a.time_ledger + b.time_ledger,
        attachments_ledger: a.attachments_ledger + b.attachments_ledger,
        vocab: map_sum(a.vocab, b.vocab),
        agreement: map_sum(a.agreement, b.agreement),
    }
}

/// The accumulator for `id` after folding in, in order, the messages of
/// `msgs` whose author is `id`.
pub open spec fn fold_author(id: u64, msgs: Seq<Message>) -> AuthorView
    decreases msgs.len(),
{
    if msgs.len() == 0 {
        empty_view(id)
    } else {
        let prev = fold_author(id, msgs.drop_last());
        if msgs.last().author_id == id {
            step(prev, msgs.last())
        } else {
            prev
        }
    }
}

/// Running statistics of one author.
pub struct Author {
    pub id: u64,
    /// Every display name seen, once each, in order of first appearance.
    pub names: Vec<String>,
    pub message_count: u128,
    pub word_count: u128,
    pub character_count: u128,
    pub question_count: u128,
    /// Reserved for poll results.
    pub times_majority: u128,
    /// Reserved for poll results.
    pub times_minority: u128,
    /// Time and channel of each message.
    pub time_ledger: Vec<(Timestamp, u64)>,
    pub attachments_ledger: Vec<String>,
    /// Word to number of uses.
    pub vocab_dict: Tally,
    /// Reserved for poll results.
    pub agreement_dict: Tally,
}

impl View for Author {
    type V = AuthorView;

    open spec fn view(&self) -> AuthorView {
        AuthorView {
            id: self.id,
            names: views_of(self.names@),
            message_count: self.message_count as nat,
            word_count: self.word_count as nat,
            character_count: self.character_count as nat,
            question_count: self.question_count as nat,
            times_majority: self.times_majority as nat,
            times_minority: self.times_minority as nat,
            time_ledger: self.time_ledger@,
            attachments_ledger: views_of(self.attachments_ledger@),
            vocab: self.vocab_dict@,
            agreement: self.agreement_dict@,
        }
    }
}

/// Whether `v` holds a string equal to `s`.
fn contains_string(v: &Vec<String>, s: &String) -> (r: bool)
    ensures
        r == views_of(v@).contains(s@),
{
    let mut i: usize = 0;
    while i < v.len()
        invariant
            i <= v@.len(),
            forall|j: int| 0 <= j < i ==> v@[j]@ != s@,
        decreases v@.len() - i,
    {
        if v[i] == *s {
            proof {
                assert(views_of(v@)[i as int] == s@);
            }
            return true;
        }
        i = i + 1;
    }
    proof {
        if views_of(v@).contains(s@) {
            let j = choose|j: int| 0 <= j < views_of(v@).len() && views_of(v@)[j] == s@;
            assert(v@[j]@ == s@);
        }
    }
    false
}

/// Appends the entries of `src` to `dst`.
fn extend_ledger(dst: &mut Vec<(Timestamp, u64)>, src: &Vec<(Timestamp, u64)>)
    ensures
        final(dst)@ == old(dst)@ + src@,
{
    let mut j: usize = 0;
    while j < src.len()
        invariant
            j <= src@.len(),
            dst@ == old(dst)@ + src@.take(j as int),
        decreases src@.len() - j,
    {
        dst.push(src[j]);
        proof {
            assert(src@.take(j as int + 1) =~= src@.take(j as int).push(src@[j as int]));
        }
        j = j + 1;
    }
    proof {
        assert(src@.take(src@.len() as int) =~= src@);
    }
}

/// Appends copies of the strings of `src` to `dst`.
fn extend_strings(dst: &mut Vec<String>, src: &Vec<String>)
    ensures
        views_of(final(dst)@) == views_of(old(dst)@) + views_of(src@),
{
    let mut i: usize = 0;
    while i < src.len()
        invariant
            i <= src@.len(),
            views_of(dst@) == views_of(old(dst)@) + views_of(src@).take(i as int),
        decreases src@.len() - i,
    {
        let ghost before = dst@;
        dst.push(src[i].clone());
        proof {
            assert(views_of(dst@) =~= views_of(before).push(src@[i as int]@));
            assert(views_of(src@).take(i as int + 1) =~= views_of(src@).take(i as int).push(
                src@[i as int]@,
            ));
        }
        i = i + 1;
    }
    proof {
        assert(views_of(src@).take(src@.len() as int) =~= views_of(src@));
    }
}

/// Adds one use of each word of `toks` to `t`.
fn tally_words(t: &mut Tally, toks: &Vec<String>)
    requires
        old(t).wf(),
        old(t).total() + toks@.len() <= u128::MAX,
    ensures
        final(t).wf(),
        final(t)@ == add_tokens(old(t)@, views_of(toks@)),
        final(t).total() == old(t).total() + toks@.len(),
{
    let ghost ws = views_of(toks@);
    let mut i: usize = 0;
    proof {
        assert(ws.take(0) =~= Seq::<Seq<char>>::empty());
    }
    while i < toks.len()
        invariant
            i <= toks@.len(),
            ws == views_of(toks@),
            old(t).total() + toks@.len() <= u128::MAX,
            t.wf(),
            t@ == add_tokens(old(t)@, ws.take(i as int)),
            t.total() == old(t).total() + i,
        decreases toks@.len() - i,
    {
        proof {
            assert(ws.take(i as int + 1).drop_last() =~= ws.take(i as int));
        }
        t.add(toks[i].clone(), 1);
        i = i + 1;
    }
    proof {
        assert(ws.take(toks@.len() as int) =~= ws);
    }
}

proof fn lemma_bound_step(mc: nat)
    requires
        mc < u64::MAX,
    ensures
        (mc + 1) * per_message_bound() == mc * per_message_bound() + per_message_bound(),
        (mc + 1) * per_message_bound() <= u128::MAX,
{
    assert((mc + 1) * per_message_bound() == mc * per_message_bound() + per_message_bound())
        by (nonlinear_arith);
    assert((mc + 1) * per_message_bound() <= u64::MAX * per_message_bound()) by (nonlinear_arith)
        requires
            mc + 1 <= u64::MAX,
    ;
}

impl Author {
    /// Counters agree with the ledgers and stay within what the messages
    /// folded in could produce; names are distinct.
    pub open spec fn wf(&self) -> bool {
        &&& self.vocab_dict.wf()
        &&& self.agreement_dict.wf()
        &&& self.message_count <= u64::MAX
        &&& self.message_count == self.time_ledger@.len()
        &&& self.word_count == self.vocab_dict.total()
        &&& self.word_count <= self.message_count * per_message_bound()
        &&& self.character_count <= self.message_count * per_message_bound()
        &&& self.question_count <= self.message_count
        &&& self.times_majority <= self.message_count
        &&& self.times_minority <= self.message_count
        &&& self.agreement_dict.total() <= self.message_count
        &&& views_of(self.names@).no_duplicates()
    }

    /// A fresh accumulator for `id`.
    pub fn new(id: u64) -> (r: Author)
        ensures
            r.wf(),
            r@ == empty_view(id),
    {
        let r = Author {
            id,
            names: Vec::new(),
            message_count: 0,
            word_count: 0,
            character_count: 0,
            question_count: 0,
            times_majority: 0,
            times_minority: 0,
            time_ledger: Vec::new(),
            attachments_ledger: Vec::new(),
            vocab_dict: Tally::new(),
            agreement_dict: Tally::new(),
        };
        proof {
            assert(views_of(r.names@) =~= Seq::<Seq<char>>::empty());
            assert(views_of(r.attachments_ledger@) =~= Seq::<Seq<char>>::empty());
        }
        r
    }

    /// Folds one message into this accumulator.
    pub fn absorb_message(&mut self, msg: &Message)
        requires
            old(self).wf(),
            old(self).message_count < u64::MAX,
        ensures
            final(self).wf(),
            final(self)@ == step(old(self)@, *msg),
    {
        if !contains_string(&self.names, &msg.author_name) {
            let ghost before = self.names@;
            self.names.push(msg.author_name.clone());
            proof {
                assert(views_of(self.names@) =~= views_of(before).push(msg.author_name@));
            }
        }
        let toks = split_on(msg.content.as_str(), ' ');
        let n_toks = toks.len();
        proof {
            lemma_bound_step(self.message_count as nat);
            assert(views_of(toks@).len() == toks@.len());
        }
        tally_words(&mut self.vocab_dict, &toks);
        let n_words = n_toks as u128;
        let n_bytes = msg.content.as_str().as_bytes().len() as u128;
        self.message_count = self.message_count + 1;
        self.word_count = self.word_count + n_words;
        self.character_count = self.character_count + n_bytes;
        if has_char(msg.content.as_str(), '?') {
            self.question_count = self.question_count + 1;
        }
        self.time_ledger.push((msg.date, msg.channel_id));
        extend_strings(&mut self.attachments_ledger, &msg.attachments);
    }

    /// The accumulator after folding in `msg`.
    pub fn process_message(self, msg: Message) -> (r: Author)
        requires
            self.wf(),
            self.message_count < u64::MAX,
        ensures
            r.wf(),
            r@ == step(self@, msg),
    {
        let mut a = self;
        a.absorb_message(&msg);
        a
    }

    /// Combines another accumulator into this one.
    pub fn merge_from(&mut self, other: &Author)
        requires
            old(self).wf(),
            other.wf(),
            old(self).message_count + other.message_count <= u64::MAX,
        ensures
            final(self).wf(),
            final(self)@ == combine(old(self)@, other@),
    {
        let ghost b = views_of(other.names@);
        let mut i: usize = 0;
        proof {
            assert(b.take(0) =~= Seq::<Seq<char>>::empty());
        }
        while i < other.names.len()
            invariant
                i <= other.names@.len(),
                b == views_of(other.names@),
                views_of(self.names@) == union_names(views_of(old(self).names@), b.take(i as int)),
                views_of(self.names@).no_duplicates(),
                self.id == old(self).id,
                self.message_count == old(self).message_count,
                self.word_count == old(self).word_count,
                self.character_count == old(self).character_count,
                self.question_count == old(self).question_count,
                self.times_majority == old(self).times_majority,
                self.times_minority == old(self).times_minority,
                self.time_ledger == old(self).time_ledger,
                self.attachments_ledger == old(self).attachments_ledger,
                self.vocab_dict == old(self).vocab_dict,
                self.agreement_dict == old(self).agreement_dict,
            decreases other.names@.len() - i,
        {
            proof {
                assert(b.take(i as int + 1).drop_last() =~= b.take(i as int));
            }
            if !contains_string(&self.names, &other.names[i]) {
                let ghost before = self.names@;
                self.names.push(other.names[i].clone());
                proof {
                    assert(views_of(self.names@) =~= views_of(before).push(b[i as int]));
                }
            }
            i = i + 1;
        }
        proof {
            assert(b.take(other.names@.len() as int) =~= b);
        }
        self.message_count = self.message_count + other.message_count;
        self.word_count = self.word_count + other.word_count;
        self.character_count = self.character_count + other.character_count;
        self.question_count = self.question_count + other.question_count;
        self.times_majority = self.times_majority + other.times_majority;
        self.times_minority = self.times_minority + other.times_minority;
        extend_ledger(&mut self.time_ledger, &other.time_ledger);
        extend_strings(&mut self.attachments_ledger, &other.attachments_ledger);
        self.vocab_dict.absorb(&other.vocab_dict);
        self.agreement_dict.absorb(&other.agreement_dict);
    }

    /// The combination of two accumulators; keeps the id of `self`.
    pub fn merge(self, other: Author) -> (r: Author)
        requires
            self.wf(),
            other.wf(),
            self.message_count + other.message_count <= u64::MAX,
        ensures
            r.wf(),
            r@ == combine(self@, other@),
    {
        let mut a = self;
        a.merge_from(&other);
        a
    }
}

} // verus!
