use garfeo::display::{
    apply_case, capital, first_or, format_emphasis, is_ascii_punctuation, sentence_case,
};
use garfeo::known::{is_known_character, unknown_characters};
use garfeo::transcript::Transcript;

#[test]
fn sentences_start_with_a_capital() {
    assert_eq!(sentence_case("saluton. kiel vi? bone! jes", false), "Saluton. kiel vi? bone! jes");
    assert_eq!(sentence_case("ho!ve?jes.ne", false), "Ho!Ve?Jes.Ne");
    assert_eq!(sentence_case("...kaj tiel plu", false), "...Kaj tiel plu");
    assert_eq!(sentence_case("ĉu vi venas, jono?", false), "Ĉu vi venas, jono?");
    assert_eq!(sentence_case("", false), "");
    assert_eq!(sentence_case("\"saluton\"", false), "\"Saluton\"");
    assert_eq!(sentence_case("a.b", false), "A.B");
    assert_eq!(sentence_case("a. (b) c", false), "A. (b) c");
    assert_eq!(sentence_case("a.(b) c", false), "A.(B) c");
    assert_eq!(sentence_case("1a", false), "1a");
    assert_eq!(sentence_case("MAJUSKLE", false), "MAJUSKLE");
}

#[test]
fn every_word_may_start_with_a_capital() {
    assert_eq!(sentence_case("la nigra kato", true), "La Nigra Kato");
    assert_eq!(sentence_case("la nigra kato", false), "La nigra kato");
    assert_eq!(sentence_case("ŝafo  ĝojas", true), "Ŝafo  Ĝojas");
}

#[test]
fn a_capital_is_the_first_of_the_upper_form() {
    assert_eq!(capital('a'), 'A');
    assert_eq!(capital('ĥ'), 'Ĥ');
    assert_eq!(capital('ß'), 'S');
    assert_eq!(capital('7'), '7');
    assert_eq!(capital('Z'), 'Z');
}

#[test]
fn ascii_punctuation_is_four_ranges() {
    for c in '\0'..='\u{ff}' {
        assert_eq!(is_ascii_punctuation(c), c.is_ascii_punctuation());
    }
    assert!(!is_ascii_punctuation('„'));
}

#[test]
fn asterisks_mark_emphasis() {
    assert_eq!(format_emphasis("mi *ne* volas"), "mi <em>ne</em> volas");
    assert_eq!(format_emphasis("*jes"), "<em>jes</em>");
    assert_eq!(format_emphasis("**"), "<em></em>");
    assert_eq!(format_emphasis("*a* kaj *b*"), "<em>a</em> kaj <em>b</em>");
    assert_eq!(format_emphasis("nenio"), "nenio");
    assert_eq!(format_emphasis(""), "");
    assert_eq!(format_emphasis("***"), "<em></em><em></em>");
}

#[test]
fn known_characters_are_eight() {
    for name in ["garfildo", "jono", "lizo", "odio", "nermalo", "arlino", "hundo", "kimio"] {
        assert!(is_known_character(name));
    }
    for name in ["Garfildo", "garfildo ", "", "poŝtisto", "jon"] {
        assert!(!is_known_character(name));
    }
}

#[test]
fn unknown_names_are_listed_unless_marked() {
    let text = "Jono:\na\nAraneo:\nb\n---\n~Muso:\nc\n[sono]\nd\n---\nODIO:\ne\nAraneo:\nf\n";
    let transcript = Transcript::from_file(text).unwrap();
    assert_eq!(unknown_characters(&transcript), vec!["araneo".to_string(), "araneo".to_string()]);
}

#[test]
fn capitals_are_taken_where_due() {
    let letters: Vec<char> = "ab. cd!e".chars().collect();
    let capitals: Vec<char> = "12345678".chars().collect();
    let plain: String = apply_case(&letters, &capitals, false).into_iter().collect();
    assert_eq!(plain, "1b.4cd!8");
    let words: String = apply_case(&letters, &capitals, true).into_iter().collect();
    assert_eq!(words, "1b.45d!8");
    assert_eq!(apply_case(&vec![], &vec![], true), Vec::<char>::new());
    assert_eq!(first_or(&vec!['S', 'S'], 'ß'), 'S');
    assert_eq!(first_or(&vec![], 'ß'), 'ß');
}
