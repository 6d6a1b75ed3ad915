use std::collections::HashMap;

use chat_stats::aggregate::{create_authors, filter_years};
use chat_stats::author::Author;
use chat_stats::channel::{channel_id_from_tag, channel_id_of, channel_name_of};
use chat_stats::message::{Message, Timestamp};
use chat_stats::report::{
    distinctive_words, download_path, export_path, minute_histogram, rank_authors, top_indices,
    top_words, Statistic,
};

fn at(year: i32, hour: u32, minute: u32) -> Timestamp {
    Timestamp { year, month: 6, day: 15, hour, minute, second: 0 }
}

fn msg(author_id: u64, content: &str, date: Timestamp, channel_id: u64) -> Message {
    Message {
        author_id,
        author_name: format!("user{}", author_id),
        date,
        channel_id,
        content: content.to_string(),
        attachments: Vec::new(),
        reactions: Vec::new(),
    }
}

fn sample() -> HashMap<u64, Author> {
    create_authors(vec![
        msg(1, "a a a b", at(2020, 1, 0), 10),
        msg(2, "c", at(2020, 1, 0), 10),
        msg(2, "c d", at(2021, 2, 5), 11),
        msg(3, "e f g h i j", at(2022, 23, 59), 11),
    ])
}

#[test]
fn ranks_authors_largest_first() {
    let authors = sample();
    assert_eq!(rank_authors(&authors, Statistic::Messages)[0], (2, 2));
    let words = rank_authors(&authors, Statistic::Words);
    assert_eq!(words, vec![(3, 6), (1, 4), (2, 3)]);
    let vocab = rank_authors(&authors, Statistic::Vocabulary);
    assert_eq!(vocab[0], (3, 6));
    assert_eq!(vocab[1].1, 2);
    assert_eq!(vocab[2].1, 2);
}

#[test]
fn top_words_takes_largest_counts() {
    let authors = sample();
    let a = &authors[&1];
    assert_eq!(top_words(&a.vocab_dict, 1), vec![("a".to_string(), 3)]);
    assert_eq!(top_words(&a.vocab_dict, 5), vec![("a".to_string(), 3), ("b".to_string(), 1)]);
    assert!(top_words(&a.vocab_dict, 0).is_empty());
}

#[test]
fn distinctive_words_skip_common_ones() {
    let authors = sample();
    let a = &authors[&1];
    let common = vec![("a".to_string(), 100)];
    assert_eq!(distinctive_words(&a.vocab_dict, &common, 3), vec![("b".to_string(), 1)]);
}

#[test]
fn top_indices_orders_positions() {
    let v = vec![("x", 5u128), ("y", 9), ("z", 7)];
    assert_eq!(top_indices(&v, 2), vec![1, 2]);
    assert_eq!(top_indices(&v, 10), vec![1, 2, 0]);
}

#[test]
fn histogram_counts_minutes_and_channels() {
    let ledger = vec![(at(2020, 1, 0), 10), (at(2020, 1, 0), 11), (at(2020, 23, 59), 10)];
    let all = minute_histogram(&ledger, None);
    assert_eq!(all.len(), 1440);
    assert_eq!(all[60], 2);
    assert_eq!(all[1439], 1);
    assert_eq!(all.iter().sum::<u128>(), 3);
    let one = minute_histogram(&ledger, Some(11));
    assert_eq!(one[60], 1);
    assert_eq!(one[1439], 0);
}

#[test]
fn year_filter_keeps_range() {
    let msgs = vec![
        msg(1, "x", at(2019, 0, 0), 1),
        msg(1, "y", at(2020, 0, 0), 1),
        msg(1, "z", at(2022, 0, 0), 1),
    ];
    let kept = filter_years(msgs, 2020, 2021);
    assert_eq!(kept.len(), 1);
    assert_eq!(kept[0].content, "y");
    let all = filter_years(vec![msg(1, "x", at(1990, 0, 0), 1)], 0, 0);
    assert_eq!(all.len(), 1);
}

#[test]
fn channel_id_and_name_from_file_name() {
    let path = "/data/Guild - Text Channels - general [123456789012345678].csv";
    assert_eq!(channel_id_of(path), Some(123456789012345678));
    assert_eq!(channel_name_of(path), "general");
    assert_eq!(channel_id_of("/data/no tag here.csv"), None);
    assert_eq!(channel_id_from_tag("[42]"), Some(42));
    assert_eq!(channel_name_of("a-b"), "");
}

#[test]
fn export_paths_are_sanitized() {
    assert_eq!(export_path("out/", "a/b:c", ".csv"), "out/abc.csv");
    assert_eq!(export_path("g/", "Time Map for x", "-timemap.html"), "g/Time Map for x-timemap.html");
}

#[test]
fn download_paths_fall_back_to_untitled() {
    assert_eq!(download_path("d", "/", "7", Some("cat.png".to_string())), "d/7-cat.png");
    assert_eq!(download_path("d", "/", "7", Some(String::new())), "d/7-untitled.bin");
    assert_eq!(download_path("d", "/", "7", None), "d/7-untitled.bin");
}

#[test]
fn author_statistic_reads_each_figure() {
    let authors = sample();
    let a = &authors[&2];
    assert_eq!(a.statistic(Statistic::Messages), 2);
    assert_eq!(a.statistic(Statistic::Words), 3);
    assert_eq!(a.statistic(Statistic::Characters), 4);
    assert_eq!(a.statistic(Statistic::Attachments), 0);
    assert_eq!(a.statistic(Statistic::Questions), 0);
    assert_eq!(a.statistic(Statistic::Vocabulary), 2);
}
