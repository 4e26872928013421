use garfeo::corpus::{parse_posts, PostFolder};
use garfeo::order::{less, sort_order};
use garfeo::stats::{all_names, first_occurrences, posts_names, sorted_bucket};

fn folder(index: usize, transcript: Option<&str>) -> PostFolder {
    PostFolder {
        name: format!("{:04}", index),
        title: Some(format!("Garfildo {}", index)),
        date: Some(format!("2021-02-{:02}", index + 1)),
        transcript: transcript.map(|text| text.to_string()),
        esperanto_png: Some(1),
        english_png: true,
        ..PostFolder::default()
    }
}

fn pair(name: &str, uncommon: bool) -> (String, bool) {
    (name.to_string(), uncommon)
}

#[test]
fn names_are_grouped_and_sorted() {
    let folders = vec![
        folder(0, Some("Odio:\nBoj\nJono:\nHo\n---\n~Zorgisto:\nVenu\n---\nJono:\nNe\n")),
        folder(1, None),
        folder(2, Some("~Araneo:\nHm\n---\nJono:\nHo\nĈevalo:\nHi\n---\n~jono:\nHo\narlino:\nJes")),
    ];
    let list = parse_posts(&folders, &vec![]).unwrap();
    assert_eq!(
        all_names(&list),
        vec![
            pair("odio", false),
            pair("jono", false),
            pair("zorgisto", true),
            pair("jono", false),
            pair("araneo", true),
            pair("jono", false),
            pair("ĉevalo", false),
            pair("jono", true),
            pair("arlino", false),
        ]
    );
    let [common, uncommon] = posts_names(&list);
    assert_eq!(
        common,
        vec![pair("arlino", false), pair("jono", false), pair("odio", false), pair("ĉevalo", false)]
    );
    assert_eq!(uncommon, vec![pair("araneo", true), pair("jono", true), pair("zorgisto", true)]);
}

#[test]
fn a_corpus_without_transcripts_has_no_names() {
    let list = parse_posts(&vec![folder(0, None)], &vec![]).unwrap();
    let [common, uncommon] = posts_names(&list);
    assert!(common.is_empty());
    assert!(uncommon.is_empty());
}

#[test]
fn the_first_of_equal_names_stays() {
    let names = vec![pair("b", false), pair("a", true), pair("b", false), pair("b", true), pair("a", true)];
    assert_eq!(first_occurrences(&names), vec![pair("b", false), pair("a", true), pair("b", true)]);
    assert_eq!(sorted_bucket(&names, true), vec![pair("a", true), pair("a", true), pair("b", true)]);
    assert_eq!(sorted_bucket(&names, false), vec![pair("b", false), pair("b", false)]);
}

fn chars(text: &str) -> Vec<char> {
    text.chars().collect()
}

#[test]
fn texts_are_ordered_as_strings_are() {
    let words = ["", "a", "ab", "b", "B", "0010", "0009", "ĉ", "z", "~", "a\u{10000}", "a\u{ffff}"];
    for a in words {
        for b in words {
            assert_eq!(less(&chars(a), &chars(b)), a < b);
        }
    }
}

#[test]
fn the_order_of_names_is_stable() {
    let names: Vec<Vec<char>> = ["b", "a", "c", "a", "", "b"].iter().map(|name| chars(name)).collect();
    assert_eq!(sort_order(&names), vec![4, 1, 3, 0, 5, 2]);
    assert_eq!(sort_order(&vec![]), Vec::<usize>::new());
    let mut folders: Vec<String> = (0..30).rev().map(|n| format!("{:04}", n * 37 % 30)).collect();
    let order = sort_order(&folders.iter().map(|name| chars(name)).collect());
    let by_order: Vec<String> = order.iter().map(|&at| folders[at].clone()).collect();
    folders.sort();
    assert_eq!(by_order, folders);
}
