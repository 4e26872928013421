use garfeo::transcript::{Line, Panel, Speaker, Transcript, TranscriptError};

fn line(speaker: Speaker, text: &str) -> Line {
    Line { speaker, text: text.to_string() }
}

fn named(name: &str, uncommon: bool) -> Speaker {
    Speaker::Character { name: name.to_string(), uncommon }
}

#[test]
fn empty_file_is_not_a_transcript() {
    assert_eq!(Transcript::from_file(""), Err(TranscriptError::PanelCount(1)));
    assert_eq!(Transcript::from_file("  \n\n \t \n"), Err(TranscriptError::PanelCount(1)));
}

#[test]
fn three_silent_panels_are_a_weekday_transcript() {
    let parsed = Transcript::from_file("---\n---\n").unwrap();
    assert!(matches!(parsed, Transcript::Normal(_)));
    assert_eq!(parsed.panels().len(), 3);
    for panel in parsed.panels() {
        assert!(panel.lines.is_empty());
    }
}

#[test]
fn seven_silent_panels_are_a_sunday_transcript() {
    let parsed = Transcript::from_file("---\n---\n---\n---\n---\n---").unwrap();
    assert!(matches!(parsed, Transcript::Sunday(_)));
    assert_eq!(parsed.panels().len(), 7);
}

#[test]
fn four_panels_are_refused() {
    assert_eq!(Transcript::from_file("---\n---\n---\n"), Err(TranscriptError::PanelCount(4)));
}

#[test]
fn speakers_are_told_apart() {
    let text = "Garfildo:\nMi malsatas.\n[SONO]\nbum\n---\n  ~Poŝtisto:  \n  Saluton!  \n\n[skribo]\nFermita\n---\n";
    let parsed = Transcript::from_file(text).unwrap();
    let expected = Transcript::Normal([
        Panel {
            lines: vec![
                line(named("garfildo", false), "Mi malsatas."),
                line(Speaker::Sound, "bum"),
            ],
        },
        Panel {
            lines: vec![
                line(named("poŝtisto", true), "Saluton!"),
                line(Speaker::Text, "Fermita"),
            ],
        },
        Panel { lines: vec![] },
    ]);
    assert_eq!(parsed, expected);
}

#[test]
fn a_declaration_needs_its_text() {
    assert_eq!(
        Transcript::from_file("Jono:\n---\n---\n"),
        Err(TranscriptError::MissingText("Jono:".to_string()))
    );
}

#[test]
fn a_line_that_declares_nobody_is_named() {
    assert_eq!(
        Transcript::from_file("---\nJono\nSaluton\n---\n"),
        Err(TranscriptError::InvalidSpeaker("Jono".to_string()))
    );
}

fn sample() -> Transcript {
    Transcript::Normal([
        Panel {
            lines: vec![
                line(named("garfildo", false), "Mi malamas lundojn."),
                line(Speaker::Sound, "BUM!"),
            ],
        },
        Panel { lines: vec![] },
        Panel {
            lines: vec![
                line(named("poŝtisto", true), "--- ne estas tio"),
                line(Speaker::Text, "Fermita: revenu morgaŭ"),
                line(named("", false), "kio?"),
            ],
        },
    ])
}

#[test]
fn a_transcript_is_written_line_by_line() {
    assert_eq!(
        sample().to_text(),
        "garfildo:\nMi malamas lundojn.\n[sono]\nBUM!\n---\n---\n~poŝtisto:\n--- ne estas tio\n[skribo]\nFermita: revenu morgaŭ\n:\nkio?"
    );
}

#[test]
fn a_written_transcript_reads_back() {
    let transcript = sample();
    assert!(transcript.reads_back());
    assert_eq!(Transcript::from_file(&transcript.to_text()), Ok(transcript));
    let silent = Transcript::Sunday([
        Panel { lines: vec![] },
        Panel { lines: vec![] },
        Panel { lines: vec![] },
        Panel { lines: vec![line(Speaker::Sound, "z")] },
        Panel { lines: vec![] },
        Panel { lines: vec![] },
        Panel { lines: vec![] },
    ]);
    assert!(silent.reads_back());
    assert_eq!(silent.to_text(), "---\n---\n---\n[sono]\nz\n---\n---\n---");
    assert_eq!(Transcript::from_file(&silent.to_text()), Ok(silent));
}

#[test]
fn a_parsed_transcript_reads_back() {
    let text = "Jono:\nSaluton, [amiko]!\n~La Kato:\nMiaŭ\n---\n[Skribo]\nEL\n---\n\n";
    let parsed = Transcript::from_file(text).unwrap();
    assert!(parsed.reads_back());
    assert_eq!(Transcript::from_file(&parsed.to_text()), Ok(parsed));
}

fn with_line(changed: Line) -> Transcript {
    Transcript::Normal([Panel { lines: vec![changed] }, Panel { lines: vec![] }, Panel { lines: vec![] }])
}

#[test]
fn what_does_not_read_back_is_told() {
    let upper = with_line(line(named("Jono", false), "Saluton"));
    assert!(!upper.reads_back());
    assert_ne!(Transcript::from_file(&upper.to_text()), Ok(upper));
    let marked = with_line(line(named("~jono", false), "Saluton"));
    assert!(!marked.reads_back());
    assert_ne!(Transcript::from_file(&marked.to_text()), Ok(marked));
    let doubly = with_line(line(named("~jono", true), "Saluton"));
    assert!(doubly.reads_back());
    assert_eq!(Transcript::from_file(&doubly.to_text()), Ok(doubly));
    for text in ["", " Saluton", "Saluton ", "Sal\nuton", "---", "\u{3000}"] {
        let broken = with_line(line(Speaker::Sound, text));
        assert!(!broken.reads_back());
        assert_ne!(Transcript::from_file(&broken.to_text()), Ok(broken));
    }
    for name in [" jono", "jo\nno", "jono "] {
        let broken = with_line(line(named(name, false), "Saluton"));
        assert_eq!(broken.reads_back(), name == "jono ");
    }
}

#[test]
fn lowering_goes_beyond_ascii() {
    assert_eq!(
        Speaker::from_string("ĈEVALO:"),
        Ok(Speaker::Character { name: "ĉevalo".to_string(), uncommon: false })
    );
    assert_eq!(
        Speaker::from_string("~Ŝafo:"),
        Ok(Speaker::Character { name: "ŝafo".to_string(), uncommon: true })
    );
    assert_eq!(Speaker::from_string("[SONO]"), Ok(Speaker::Sound));
    assert_eq!(Speaker::from_string("[Skribo]"), Ok(Speaker::Text));
    assert_eq!(Speaker::from_string(":"), Ok(Speaker::Character { name: "".to_string(), uncommon: false }));
    assert_eq!(Speaker::from_string("~:"), Ok(Speaker::Character { name: "".to_string(), uncommon: true }));
    assert_eq!(
        Speaker::from_string("[sono]:"),
        Ok(Speaker::Character { name: "[sono]".to_string(), uncommon: false })
    );
    assert_eq!(Speaker::from_string("sono"), Err(TranscriptError::InvalidSpeaker("sono".to_string())));
    assert_eq!(Speaker::from_string(""), Err(TranscriptError::InvalidSpeaker("".to_string())));
}

#[test]
fn names_are_listed_as_spoken() {
    let names = sample().names();
    assert_eq!(
        names,
        vec![
            ("garfildo".to_string(), false),
            ("poŝtisto".to_string(), true),
            ("".to_string(), false),
        ]
    );
}

#[test]
fn white_space_and_line_endings_mean_nothing() {
    let plain = Transcript::from_file("Jono:\nHo\n---\n---\n[sono]\nbum").unwrap();
    let spaced =
        Transcript::from_file("\r\n  Jono:  \r\n\tHo\r\n\r\n ---\t\r\n---\r\n\r\n[sono]\r\n bum \r\n\r\n")
            .unwrap();
    assert_eq!(plain, spaced);
}

#[test]
fn only_three_hyphens_end_a_panel() {
    assert_eq!(
        Transcript::from_file("----\n---\n---"),
        Err(TranscriptError::InvalidSpeaker("----".to_string()))
    );
    assert_eq!(
        Transcript::from_file("- - -\nx\n---\n---"),
        Err(TranscriptError::InvalidSpeaker("- - -".to_string()))
    );
    assert_eq!(
        Transcript::from_file("[sono]\n---\n---\n---"),
        Err(TranscriptError::MissingText("[sono]".to_string()))
    );
}

#[test]
fn the_first_fault_of_a_transcript_is_told() {
    assert_eq!(
        Transcript::from_file("Jono:\nHo\nkio\n---\nLizo:\n"),
        Err(TranscriptError::InvalidSpeaker("kio".to_string()))
    );
    assert_eq!(
        Transcript::from_file("Jono:\n---\nkio\n"),
        Err(TranscriptError::MissingText("Jono:".to_string()))
    );
    assert_eq!(
        Transcript::from_file("a:\nb\n---\nc:\nd"),
        Err(TranscriptError::PanelCount(2))
    );
}

#[test]
fn a_sunday_transcript_keeps_its_panels_in_order() {
    let text = "a:\n1\n---\nb:\n2\n---\nc:\n3\n---\nd:\n4\n---\ne:\n5\n---\nf:\n6\n---\ng:\n7";
    let parsed = Transcript::from_file(text).unwrap();
    assert!(matches!(parsed, Transcript::Sunday(_)));
    let texts: Vec<&str> = parsed.panels().iter().map(|panel| panel.lines[0].text.as_str()).collect();
    assert_eq!(texts, vec!["1", "2", "3", "4", "5", "6", "7"]);
    let names: Vec<String> = parsed.names().into_iter().map(|(name, _)| name).collect();
    assert_eq!(names, vec!["a", "b", "c", "d", "e", "f", "g"]);
    assert!(parsed.reads_back());
    assert_eq!(parsed.to_text(), text);
}
