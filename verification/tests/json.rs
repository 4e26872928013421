use garfeo::corpus::{parse_posts, PostFolder};
use garfeo::json::{json_index, json_post, quoted_of};

fn folder(index: usize) -> PostFolder {
    PostFolder {
        name: format!("{:04}", index),
        title: Some(format!("Garfildo {}", index)),
        date: Some(format!("2022-03-{:02}", index + 1)),
        esperanto_png: Some(2048),
        english_png: true,
        ..PostFolder::default()
    }
}

const FIRST: &str = "{\"previous\":null,\"next\":\"0001\",\"index\":\"0000\",\"title\":\"Garfildo 0\",\"date\":\"2022-03-01\",\"is_sunday\":false,\"transcript\":null,\"props\":{\"nogarfield\":false,\"notext\":false,\"good\":false,\"earsback\":false},\"special\":null,\"is_revised\":false,\"version\":0,\"errata\":[],\"is_old\":true,\"image_bytes\":2048}";

const SECOND: &str = "{\"previous\":\"0000\",\"next\":\"0002\",\"index\":\"0001\",\"title\":\"Garfildo 1\",\"date\":\"2022-03-02\",\"is_sunday\":false,\"transcript\":[[[\"JONO\",\"Saluton\"],[\"[sono]\",\"bum\"]],[],[[\"[skribo]\",\"Fino\"],[\"ĈEVALO\",\"hi\"]]],\"props\":{\"nogarfield\":true,\"notext\":false,\"good\":true,\"earsback\":false},\"special\":\"haloveno\",\"is_revised\":true,\"version\":1,\"errata\":[[\"kat\",\"kato\"],[\"a\",\"b\"]],\"is_old\":false,\"image_bytes\":0}";

const THIRD: &str = "{\"previous\":\"0001\",\"next\":null,\"index\":\"0002\",\"title\":\"Garfildo 2\",\"date\":\"2022-03-03\",\"is_sunday\":false,\"transcript\":null,\"props\":{\"nogarfield\":false,\"notext\":true,\"good\":false,\"earsback\":true},\"special\":\"novjaro\",\"is_revised\":false,\"version\":0,\"errata\":[],\"is_old\":true,\"image_bytes\":2048}";

fn corpus() -> garfeo::corpus::PostList {
    let mut folders = vec![folder(0), folder(1), folder(2)];
    folders[1].transcript =
        Some("Jono:\nSaluton\n[sono]\nbum\n---\n---\n[skribo]\nFino\n~Ĉevalo:\nhi".to_string());
    folders[1].props = Some("good\nnogarfield".to_string());
    folders[1].special = Some("haloveno".to_string());
    folders[1].errata = Some("kat >> kato\na >> b".to_string());
    folders[1].esperanto_svg = true;
    folders[1].esperanto_png = Some(0);
    folders[2].props = Some("earsback\nnotext".to_string());
    folders[2].special = Some("novjaro".to_string());
    parse_posts(&folders, &vec!["0001:0".to_string()]).unwrap()
}

#[test]
fn a_post_is_written_with_its_neighbours() {
    let list = corpus();
    let mut refs = list.refs().into_iter();
    assert_eq!(json_post(refs.next().unwrap()), FIRST);
    assert_eq!(json_post(refs.next().unwrap()), SECOND);
    assert_eq!(json_post(refs.next().unwrap()), THIRD);
    assert_eq!(json_post(list.last_ref()), THIRD);
}

#[test]
fn the_list_is_an_array_of_posts() {
    assert_eq!(json_index(&corpus()), format!("[{},{},{}]", FIRST, SECOND, THIRD));
    let alone = parse_posts(&vec![folder(0)], &vec![]).unwrap();
    assert_eq!(json_index(&alone), format!("[{}]", FIRST.replace("\"0001\"", "null")));
}

#[test]
fn a_special_occasion_is_written_by_its_word() {
    let mut folders = vec![folder(0)];
    folders[0].special = Some("kristnasko".to_string());
    let list = parse_posts(&folders, &vec![]).unwrap();
    assert!(json_post(list.first_ref()).contains("\"special\":\"kristnasko\","));
}

#[test]
fn a_text_is_escaped_inside_a_string() {
    let mut folders = vec![folder(0)];
    folders[0].title = Some("Garfildo \"diras\" \\ne\\ \u{1}\u{8}\u{c}\u{1f}\ttab \u{7f}ĉ".to_string());
    folders[0].errata = Some("a\"b >> c\\d".to_string());
    folders[0].transcript = Some("\"Jono\":\nli \"diris\"\n---\n---".to_string());
    let list = parse_posts(&folders, &vec![]).unwrap();
    let text = json_post(list.first_ref());
    assert!(text.contains(
        "\"title\":\"Garfildo \\\"diras\\\" \\\\ne\\\\ \\u0001\\b\\f\\u001f\\ttab \u{7f}ĉ\","
    ));
    assert!(text.contains("\"errata\":[[\"a\\\"b\",\"c\\\\d\"]],"));
    assert!(text.contains("\"transcript\":[[[\"\\\"JONO\\\"\",\"li \\\"diris\\\"\"]],[],[]],"));
}

#[test]
fn line_breaks_in_a_text_are_escaped() {
    let quoted: String = quoted_of(&"a\nb\rc\"".chars().collect()).into_iter().collect();
    assert_eq!(quoted, "\"a\\nb\\rc\\\"\"");
    let plain: String = quoted_of(&"ĉu ne?".chars().collect()).into_iter().collect();
    assert_eq!(plain, "\"ĉu ne?\"");
    let empty: String = quoted_of(&vec![]).into_iter().collect();
    assert_eq!(empty, "\"\"");
    let one: String = quoted_of(&vec!['"']).into_iter().collect();
    assert_eq!(one, "\"\\\"\"");
    for code in 0..0x20u32 {
        let c = char::from_u32(code).unwrap();
        let text: String = quoted_of(&vec![c]).into_iter().collect();
        assert!(text.len() >= 4 && text.starts_with("\"\\") && text.ends_with('"'), "{:?}", text);
        assert!(text.chars().all(|c| c >= ' '));
    }
}

#[test]
fn a_post_by_itself_has_no_neighbours() {
    let list = corpus();
    let with = json_post(list.get_ref(1).unwrap());
    let alone = list.get_ref(1).unwrap().get().to_json();
    assert_eq!(alone, SECOND.replace("\"previous\":\"0000\",\"next\":\"0002\",", ""));
    assert!(with.ends_with(&alone[1..]));
    assert!(alone.starts_with("{\"index\":\"0001\",\"title\":"));
}
