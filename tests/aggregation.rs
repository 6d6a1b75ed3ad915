use std::collections::HashMap;

use chat_stats::aggregate::{aggregate, create_authors, merge_maps, partition, server_aggregate};
use chat_stats::author::Author;
use chat_stats::message::{Message, Timestamp};

fn stamp(day: u32, hour: u32, minute: u32) -> Timestamp {
    Timestamp { year: 2021, month: 3, day, hour, minute, second: 0 }
}

fn msg(author_id: u64, name: &str, content: &str, date: Timestamp) -> Message {
    Message {
        author_id,
        author_name: name.to_string(),
        date,
        channel_id: 7,
        content: content.to_string(),
        attachments: Vec::new(),
        reactions: Vec::new(),
    }
}

fn alice_messages() -> Vec<Message> {
    vec![
        msg(42, "alice", "hello world", stamp(1, 10, 0)),
        msg(42, "alice", "hello?", stamp(1, 11, 30)),
    ]
}

fn mixed_messages() -> Vec<Message> {
    let mut v = Vec::new();
    for i in 0..25u32 {
        let id = (i % 4) as u64 + 1;
        let name = if i % 7 == 0 { "renamed" } else { "user" };
        let content = match i % 3 {
            0 => "one two three",
            1 => "why?  really??",
            _ => "héllo",
        };
        let mut m = msg(id, name, content, stamp(1 + i % 28, i % 24, i % 60));
        if i % 5 == 0 {
            m.attachments.push(format!("file{}.png", i));
        }
        v.push(m);
    }
    v
}

fn vocab_of(a: &Author) -> Vec<(String, u128)> {
    let mut v = a.vocab_dict.to_vec();
    v.sort();
    v
}

#[test]
fn concrete_scenario_alice() {
    let map = create_authors(alice_messages());
    assert_eq!(map.len(), 1);
    let a = &map[&42];
    assert_eq!(a.id, 42);
    assert_eq!(a.names, vec!["alice".to_string()]);
    assert_eq!(a.message_count, 2);
    assert_eq!(a.word_count, 3);
    assert_eq!(a.question_count, 1);
    assert_eq!(a.character_count, 17);
    // Words are cut at single spaces with no normalization, so the question
    // mark stays part of its word.
    assert_eq!(
        vocab_of(a),
        vec![("hello".to_string(), 1), ("hello?".to_string(), 1), ("world".to_string(), 1)]
    );
    assert_eq!(a.time_ledger, vec![(stamp(1, 10, 0), 7), (stamp(1, 11, 30), 7)]);
}

#[test]
fn partition_size_invariance() {
    let one = aggregate(alice_messages(), 1);
    let eight = aggregate(alice_messages(), 8);
    let a = &one.authors[&42];
    let b = &eight.authors[&42];
    assert_eq!(a.message_count, b.message_count);
    assert_eq!(a.word_count, b.word_count);
    assert_eq!(a.character_count, b.character_count);
    assert_eq!(a.question_count, b.question_count);
    assert_eq!(vocab_of(a), vocab_of(b));
    assert_eq!(a.time_ledger, b.time_ledger);
}

#[test]
fn worker_counts_agree_on_mixed_input() {
    let base = aggregate(mixed_messages(), 1);
    for workers in 2..10usize {
        let other = aggregate(mixed_messages(), workers);
        assert_eq!(base.authors.len(), other.authors.len());
        for (id, a) in base.authors.iter() {
            let b = &other.authors[id];
            assert_eq!(a.names, b.names);
            assert_eq!(a.message_count, b.message_count);
            assert_eq!(a.word_count, b.word_count);
            assert_eq!(a.character_count, b.character_count);
            assert_eq!(a.question_count, b.question_count);
            assert_eq!(a.time_ledger, b.time_ledger);
            assert_eq!(a.attachments_ledger, b.attachments_ledger);
            assert_eq!(vocab_of(a), vocab_of(b));
        }
        assert_eq!(base.server.message_count, other.server.message_count);
        assert_eq!(vocab_of(&base.server), vocab_of(&other.server));
    }
}

#[test]
fn empty_input_gives_empty_result() {
    let r = aggregate(Vec::new(), 4);
    assert!(r.authors.is_empty());
    assert_eq!(r.server.id, 0);
    assert_eq!(r.server.message_count, 0);
    assert_eq!(r.server.word_count, 0);
    assert_eq!(r.server.character_count, 0);
    assert_eq!(r.server.question_count, 0);
    assert_eq!(r.server.vocab_dict.len(), 0);
    assert!(r.server.time_ledger.is_empty());
}

#[test]
fn counts_stay_consistent() {
    let r = aggregate(mixed_messages(), 3);
    let mut all: Vec<&Author> = r.authors.values().collect();
    all.push(&r.server);
    for a in all {
        assert_eq!(a.message_count, a.time_ledger.len() as u128);
        let total: u128 = a.vocab_dict.to_vec().iter().map(|e| e.1).sum();
        assert_eq!(total, a.word_count);
    }
}

#[test]
fn server_sums_authors() {
    let r = aggregate(mixed_messages(), 4);
    let mut messages = 0;
    let mut words = 0;
    let mut chars = 0;
    let mut questions = 0;
    for a in r.authors.values() {
        messages += a.message_count;
        words += a.word_count;
        chars += a.character_count;
        questions += a.question_count;
    }
    assert_eq!(r.server.message_count, messages);
    assert_eq!(r.server.message_count, 25);
    assert_eq!(r.server.word_count, words);
    assert_eq!(r.server.character_count, chars);
    assert_eq!(r.server.question_count, questions);
}

#[test]
fn merge_with_fresh_author_is_identity() {
    let map = create_authors(mixed_messages());
    let a = &map[&2];
    let left = Author::new(2).merge(create_authors(mixed_messages()).remove(&2).unwrap());
    let right = create_authors(mixed_messages()).remove(&2).unwrap().merge(Author::new(2));
    for m in [&left, &right] {
        assert_eq!(m.id, a.id);
        assert_eq!(m.names, a.names);
        assert_eq!(m.message_count, a.message_count);
        assert_eq!(m.word_count, a.word_count);
        assert_eq!(m.character_count, a.character_count);
        assert_eq!(m.question_count, a.question_count);
        assert_eq!(m.time_ledger, a.time_ledger);
        assert_eq!(m.attachments_ledger, a.attachments_ledger);
        assert_eq!(vocab_of(m), vocab_of(a));
    }
}

#[test]
fn merge_commutes_in_counts() {
    let msgs = mixed_messages();
    let (first, second): (Vec<Message>, Vec<Message>) = msgs.into_iter().enumerate().fold(
        (Vec::new(), Vec::new()),
        |(mut x, mut y), (i, m)| {
            if i % 3 == 0 { x.push(m) } else { y.push(m) }
            (x, y)
        },
    );
    let a = || create_authors(first.iter().map(copy_message).collect()).remove(&1).unwrap();
    let b = || create_authors(second.iter().map(copy_message).collect()).remove(&1).unwrap();
    let ab = a().merge(b());
    let ba = b().merge(a());
    assert_eq!(ab.message_count, ba.message_count);
    assert_eq!(ab.word_count, ba.word_count);
    assert_eq!(ab.character_count, ba.character_count);
    assert_eq!(ab.question_count, ba.question_count);
    assert_eq!(vocab_of(&ab), vocab_of(&ba));
    let mut l1 = ab.time_ledger.clone();
    let mut l2 = ba.time_ledger.clone();
    l1.sort();
    l2.sort();
    assert_eq!(l1, l2);
}

fn copy_message(m: &Message) -> Message {
    Message {
        author_id: m.author_id,
        author_name: m.author_name.clone(),
        date: m.date,
        channel_id: m.channel_id,
        content: m.content.clone(),
        attachments: m.attachments.clone(),
        reactions: m.reactions.clone(),
    }
}

#[test]
fn partition_cuts_consecutive_chunks() {
    let msgs: Vec<Message> = (0..10u32).map(|i| msg(i as u64, "n", &i.to_string(), stamp(1, 0, 0))).collect();
    let shards = partition(msgs, 3);
    let sizes: Vec<usize> = shards.iter().map(|s| s.len()).collect();
    assert_eq!(sizes, vec![4, 4, 2]);
    let order: Vec<u64> = shards.iter().flat_map(|s| s.iter().map(|m| m.author_id)).collect();
    assert_eq!(order, (0..10u64).collect::<Vec<_>>());
    let more = partition(Vec::new(), 5);
    assert_eq!(more.len(), 5);
    assert!(more.iter().all(|s| s.is_empty()));
}

#[test]
fn words_split_on_single_spaces() {
    let map = create_authors(vec![msg(5, "bob", "a  b", stamp(2, 3, 4))]);
    let a = &map[&5];
    assert_eq!(a.word_count, 3);
    assert_eq!(vocab_of(a), vec![("".to_string(), 1), ("a".to_string(), 1), ("b".to_string(), 1)]);
    let empty = create_authors(vec![msg(5, "bob", "", stamp(2, 3, 4))]);
    assert_eq!(empty[&5].word_count, 1);
    assert_eq!(empty[&5].vocab_dict.get(&String::new()), 1);
}

#[test]
fn characters_are_bytes_and_questions_count_once() {
    let map = create_authors(vec![msg(9, "c", "héllo??", stamp(2, 3, 4))]);
    let a = &map[&9];
    assert_eq!(a.character_count, 8);
    assert_eq!(a.question_count, 1);
}

#[test]
fn names_kept_once_in_order_of_first_use() {
    let map = create_authors(vec![
        msg(3, "x", "a", stamp(1, 0, 0)),
        msg(3, "y", "b", stamp(1, 0, 1)),
        msg(3, "x", "c", stamp(1, 0, 2)),
    ]);
    assert_eq!(map[&3].names, vec!["x".to_string(), "y".to_string()]);
}

#[test]
fn process_message_appends_attachments() {
    let mut m = msg(4, "d", "pic", stamp(1, 0, 0));
    m.attachments = vec!["a.png".to_string(), "b.png".to_string()];
    let a = Author::new(4).process_message(m);
    assert_eq!(a.attachments_ledger, vec!["a.png".to_string(), "b.png".to_string()]);
    assert_eq!(a.message_count, 1);
}

#[test]
fn merger_combines_shard_maps() {
    let first_part = create_authors(vec![msg(1, "a", "x y", stamp(1, 0, 0)), msg(2, "b", "z", stamp(1, 0, 0))]);
    let second_part = create_authors(vec![msg(1, "a2", "x", stamp(1, 0, 1))]);
    let m = merge_maps(vec![first_part, second_part]);
    assert_eq!(m.len(), 2);
    assert_eq!(m[&1].message_count, 2);
    assert_eq!(m[&1].names, vec!["a".to_string(), "a2".to_string()]);
    assert_eq!(m[&1].vocab_dict.get(&"x".to_string()), 2);
    assert_eq!(m[&2].word_count, 1);
}

#[test]
fn server_aggregate_skips_id_zero() {
    let mut map: HashMap<u64, Author> = create_authors(vec![msg(6, "e", "q?", stamp(1, 0, 0))]);
    map.insert(0, Author::new(0).process_message(msg(0, "srv", "ignored words here", stamp(1, 0, 0))));
    let s = server_aggregate(&map);
    assert_eq!(s.id, 0);
    assert_eq!(s.message_count, 1);
    assert_eq!(s.word_count, 1);
    assert_eq!(s.question_count, 1);
    assert_eq!(s.names, vec!["e".to_string()]);
}
