use garfeo::archive::{ArchiveError, OldVersions};
use garfeo::corpus::{parse_post, parse_posts, BuildError, PostError, PostFolder, RequiredFile};
use garfeo::post::{
    is_valid_date, parse_errata, parse_props, Errata, ErrataError, Index, Props, PropsError,
    Special,
};
use garfeo::stats::{count_where, percent_where, posts_count, posts_percent, posts_with, Trait};
use garfeo::transcript::TranscriptError;

fn folder(index: usize) -> PostFolder {
    PostFolder {
        name: format!("{:04}", index),
        title: Some(format!("Garfildo manĝas {}\n", index)),
        date: Some(format!("2020-01-{:02}\n", index + 1)),
        esperanto_png: Some(1000 + index as u64),
        english_png: true,
        ..PostFolder::default()
    }
}

fn week() -> Vec<PostFolder> {
    let mut folders: Vec<PostFolder> = (0..7).map(folder).collect();
    folders[6].props = Some("good\n".to_string());
    folders
}

fn fault(out: Result<garfeo::corpus::PostList, BuildError>) -> BuildError {
    match out {
        Ok(_) => panic!("the build should have failed"),
        Err(error) => error,
    }
}

#[test]
fn a_week_of_posts_is_built_in_order() {
    let mut folders = week();
    folders.reverse();
    let list = parse_posts(&folders, &vec![]).unwrap();
    assert_eq!(list.len(), 7);
    for item in list.refs() {
        let post = item.get();
        assert_eq!(post.index.as_int(), item.index());
        assert_eq!(post.index(), format!("{:04}", item.index()));
        assert_eq!(post.title, format!("Garfildo manĝas {}", item.index()));
        assert_eq!(post.image_bytes, 1000 + item.index() as u64);
        assert_eq!(post.is_sunday, item.index() == 6);
        assert!(post.is_old);
        assert!(post.is_simple);
        assert!(!post.is_revised);
        assert_eq!(post.version, 0);
        assert_eq!(post.transcript, None);
        assert_eq!(post.special, None);
        assert_eq!(post.errata, Errata(vec![]));
    }
    assert_eq!(list.first().index.as_int(), 0);
    assert_eq!(list.last().index.as_int(), 6);
}

#[test]
fn building_twice_gives_the_same_list() {
    let first = parse_posts(&week(), &vec!["0003:0".to_string()]).unwrap();
    let second = parse_posts(&week(), &vec!["0003:0".to_string()]).unwrap();
    assert_eq!(first.len(), second.len());
    for (a, b) in first.refs().iter().zip(second.refs().iter()) {
        assert_eq!(a.get(), b.get());
    }
}

#[test]
fn one_good_post_in_seven_is_fourteen_percent() {
    let list = parse_posts(&week(), &vec![]).unwrap();
    let good = posts_with(&list, Trait::Good);
    assert_eq!(good.len(), 1);
    assert_eq!(good[0].get().index(), "0006");
    assert_eq!(posts_count(&list, Trait::Good), 1);
    assert_eq!(posts_percent(&list, Trait::Good), 14);
    assert_eq!(posts_percent(&list, Trait::Old), 100);
    assert_eq!(posts_percent(&list, Trait::Transcribed), 0);
    assert_eq!(posts_count(&list, Trait::Sunday), 1);
}

#[test]
fn matching_posts_come_last_first() {
    let mut folders = week();
    folders[2].props = Some("good".to_string());
    folders[4].esperanto_svg = true;
    let list = parse_posts(&folders, &vec![]).unwrap();
    let good: Vec<usize> = posts_with(&list, Trait::Good).iter().map(|item| item.index()).collect();
    assert_eq!(good, vec![6, 2]);
    assert_eq!(posts_percent(&list, Trait::Good), 28);
    assert_eq!(posts_percent(&list, Trait::Old), 85);
}

#[test]
fn an_empty_archive_is_no_corpus() {
    assert_eq!(fault(parse_posts(&vec![], &vec![])), BuildError::Empty);
}

#[test]
fn two_posts_with_one_title_are_both_named() {
    let mut folders = week();
    folders[5].title = Some("  Garfildo manĝas 2  ".to_string());
    assert_eq!(
        fault(parse_posts(&folders, &vec![])),
        BuildError::Post {
            index: Index::new(5),
            error: PostError::DuplicateTitle {
                title: "Garfildo manĝas 2".to_string(),
                other: Index::new(2),
            },
        }
    );
}

#[test]
fn titles_differ_by_case() {
    let mut folders = week();
    folders[5].title = Some("Garfildo MANĜAS 2".to_string());
    assert!(parse_posts(&folders, &vec![]).is_ok());
}

#[test]
fn two_posts_with_one_date_are_both_named() {
    let mut folders = week();
    folders[3].date = Some("2020-01-01".to_string());
    assert_eq!(
        fault(parse_posts(&folders, &vec![])),
        BuildError::Post {
            index: Index::new(3),
            error: PostError::DuplicateDate { date: "2020-01-01".to_string(), other: Index::new(0) },
        }
    );
}

#[test]
fn a_gap_in_the_folders_is_found() {
    let mut folders = week();
    folders.remove(3);
    assert_eq!(
        fault(parse_posts(&folders, &vec![])),
        BuildError::Post {
            index: Index::new(3),
            error: PostError::FolderName {
                expected: "0003".to_string(),
                found: "0004".to_string(),
            },
        }
    );
}

#[test]
fn the_first_fault_ends_the_build() {
    let mut folders = week();
    folders[2].date = None;
    folders[4].title = None;
    assert_eq!(
        fault(parse_posts(&folders, &vec![])),
        BuildError::Post { index: Index::new(2), error: PostError::Missing(RequiredFile::Date) }
    );
}

#[test]
fn each_required_file_is_missed() {
    let none = vec![];
    let check = |folder: PostFolder| parse_post(Index::new(0), &folder, 0, &none, &none);
    let mut broken = folder(0);
    broken.title = None;
    assert_eq!(check(broken), Err(PostError::Missing(RequiredFile::Title)));
    let mut broken = folder(0);
    broken.date = None;
    assert_eq!(check(broken), Err(PostError::Missing(RequiredFile::Date)));
    let mut broken = folder(0);
    broken.esperanto_png = None;
    assert_eq!(check(broken), Err(PostError::Missing(RequiredFile::EsperantoImage)));
    let mut broken = folder(0);
    broken.english_png = false;
    assert_eq!(check(broken), Err(PostError::Missing(RequiredFile::EnglishImage)));
}

#[test]
fn a_title_is_checked_before_a_date() {
    let none = vec![];
    let check = |folder: PostFolder| parse_post(Index::new(0), &folder, 0, &none, &none);
    let mut broken = folder(0);
    broken.title = Some(" \n".to_string());
    broken.date = Some("tomorrow".to_string());
    assert_eq!(check(broken), Err(PostError::EmptyTitle));
    let mut broken = folder(0);
    broken.title = Some("Garfildo".to_string());
    assert_eq!(check(broken), Err(PostError::TitlePrefix));
    let mut broken = folder(0);
    broken.title = Some("garfildo dormas".to_string());
    assert_eq!(check(broken), Err(PostError::TitlePrefix));
    let mut broken = folder(0);
    broken.date = Some("2020-1-01".to_string());
    assert_eq!(check(broken), Err(PostError::InvalidDate("2020-1-01".to_string())));
}

#[test]
fn optional_files_are_read_where_present() {
    let none = vec![];
    let mut full = folder(13);
    full.props = Some("nogarfield\n\nearsback\nnotext\n".to_string());
    full.special = Some(" kristnasko\n".to_string());
    full.errata = Some("malbona >> bona\n".to_string());
    full.transcript = Some("---\nJono:\nHo ve\n---\n".to_string());
    full.esperanto_svg = true;
    full.esperanto_xcf = true;
    let post = parse_post(Index::new(13), &full, 2, &none, &none).unwrap();
    assert_eq!(post.index(), "0013");
    assert!(post.is_sunday);
    assert_eq!(post.props, Props { nogarfield: true, notext: true, good: false, earsback: true });
    assert_eq!(post.special, Some(Special::Christmas));
    assert_eq!(post.errata, Errata(vec![("malbona".to_string(), "bona".to_string())]));
    assert_eq!(post.transcript.unwrap().panels()[1].lines.len(), 1);
    assert_eq!(post.version, 2);
    assert!(post.is_revised);
    assert!(!post.is_old);
    assert!(!post.is_simple);
}

#[test]
fn faults_in_optional_files_are_passed_on() {
    let none = vec![];
    let check = |folder: PostFolder| parse_post(Index::new(0), &folder, 0, &none, &none);
    let mut broken = folder(0);
    broken.transcript = Some("".to_string());
    assert_eq!(check(broken), Err(PostError::Transcript(TranscriptError::PanelCount(1))));
    let mut broken = folder(0);
    broken.props = Some("good\nbad\nworse".to_string());
    assert_eq!(check(broken), Err(PostError::Props(PropsError::Unknown("bad".to_string()))));
    let mut broken = folder(0);
    broken.props = Some("\n".to_string());
    assert_eq!(check(broken), Err(PostError::Props(PropsError::Empty)));
    let mut broken = folder(0);
    broken.special = Some("pasko".to_string());
    assert_eq!(check(broken), Err(PostError::Special("pasko".to_string())));
    let mut broken = folder(0);
    broken.errata = Some("nur malbona".to_string());
    assert_eq!(
        check(broken),
        Err(PostError::Errata(ErrataError::MissingCorrection("nur malbona".to_string())))
    );
}

#[test]
fn index_is_written_in_four_digits() {
    assert_eq!(Index::new(0).to_text(), "0000");
    assert_eq!(Index::new(7).to_text(), "0007");
    assert_eq!(Index::new(42).to_text(), "0042");
    assert_eq!(Index::new(999).to_text(), "0999");
    assert_eq!(Index::new(1000).to_text(), "1000");
    assert_eq!(Index::new(12345).to_text(), "12345");
    assert_eq!(Index::new(12345).as_int(), 12345);
}

#[test]
fn dates_are_four_two_and_two_digits() {
    assert!(is_valid_date("2020-01-31"));
    assert!(is_valid_date("0000-00-00"));
    assert!(!is_valid_date("2020-1-31"));
    assert!(!is_valid_date("2020-01-31-"));
    assert!(!is_valid_date("2020/01/31"));
    assert!(!is_valid_date("20a0-01-31"));
    assert!(!is_valid_date("+020-01-31"));
    assert!(!is_valid_date(""));
    assert!(!is_valid_date("２０２０-01-31"));
}

#[test]
fn props_are_one_word_to_a_line() {
    assert_eq!(
        parse_props("good"),
        Ok(Props { nogarfield: false, notext: false, good: true, earsback: false })
    );
    assert_eq!(
        parse_props("  earsback \r\n\r\n\tgood\nearsback\n"),
        Ok(Props { nogarfield: false, notext: false, good: true, earsback: true })
    );
    assert_eq!(parse_props("Good"), Err(PropsError::Unknown("Good".to_string())));
    assert_eq!(parse_props("good nogarfield"), Err(PropsError::Unknown("good nogarfield".to_string())));
    assert_eq!(parse_props(""), Err(PropsError::Empty));
}

#[test]
fn special_occasions_have_their_words() {
    assert_eq!(Special::from_file("haloveno\n"), Ok(Special::Halloween));
    assert_eq!(Special::from_file("kristnasko"), Ok(Special::Christmas));
    assert_eq!(Special::from_file("\n novjaro "), Ok(Special::NewYears));
    assert_eq!(Special::from_file(""), Err("".to_string()));
    assert_eq!(Special::from_file("Haloveno"), Err("Haloveno".to_string()));
    for special in [Special::Halloween, Special::Christmas, Special::NewYears] {
        assert_eq!(Special::from_file(special.word()), Ok(special));
    }
}

#[test]
fn errata_are_pairs_of_phrases() {
    assert_eq!(
        parse_errata("kato >> Kato\n\n  a>>b>>c  \n>>\n"),
        Ok(Errata(vec![
            ("kato".to_string(), "Kato".to_string()),
            ("a".to_string(), "b".to_string()),
            ("".to_string(), "".to_string()),
        ]))
    );
    assert_eq!(parse_errata(" \n"), Err(ErrataError::Empty));
    assert_eq!(
        parse_errata("a >> b\nc > d"),
        Err(ErrataError::MissingCorrection("c > d".to_string()))
    );
}

#[test]
fn old_versions_count_up_from_zero() {
    let names = vec!["0012:1".to_string(), "0003:0".to_string(), "0012:0".to_string()];
    let versions = OldVersions::scan(&names).unwrap();
    assert_eq!(versions.versions_of("0012"), 2);
    assert_eq!(versions.versions_of("0003"), 1);
    assert_eq!(versions.versions_of("0004"), 0);
    assert_eq!(OldVersions::empty().versions_of("0012"), 0);
}

#[test]
fn a_skipped_version_is_out_of_order() {
    let names = vec!["0012:0".to_string(), "0012:2".to_string()];
    assert_eq!(
        OldVersions::scan(&names).err(),
        Some(ArchiveError::OutOfOrder { entry: "0012:2".to_string(), expected: 1, found: 2 })
    );
    assert_eq!(
        fault(parse_posts(&week(), &names)),
        BuildError::Archive(ArchiveError::OutOfOrder {
            entry: "0012:2".to_string(),
            expected: 1,
            found: 2,
        })
    );
    let names = vec!["0012:1".to_string()];
    assert_eq!(
        OldVersions::scan(&names).err(),
        Some(ArchiveError::OutOfOrder { entry: "0012:1".to_string(), expected: 0, found: 1 })
    );
}

#[test]
fn an_entry_needs_a_version_number() {
    for name in ["0012", "0012:", "0012:x", "0012:-1", "0012:4294967296", ":"] {
        assert_eq!(
            OldVersions::scan(&vec![name.to_string()]).err(),
            Some(ArchiveError::Malformed(name.to_string()))
        );
    }
    assert!(OldVersions::scan(&vec!["0012:+0".to_string()]).is_ok());
    assert!(OldVersions::scan(&vec!["0012:0:kopio".to_string()]).is_ok());
    assert!(OldVersions::scan(&vec!["0012:000".to_string()]).is_ok());
}

#[test]
fn old_versions_make_a_post_revised() {
    let names = vec!["0005:0".to_string(), "0005:1".to_string(), "0001:0".to_string()];
    let list = parse_posts(&week(), &names).unwrap();
    let versions: Vec<u64> = list.refs().iter().map(|item| item.get().version).collect();
    assert_eq!(versions, vec![0, 1, 0, 0, 0, 2, 0]);
    assert_eq!(posts_count(&list, Trait::Revised), 2);
    assert_eq!(posts_percent(&list, Trait::Revised), 28);
}

#[test]
fn the_order_of_listing_does_not_show() {
    let sorted: Vec<PostFolder> = (0..12).map(folder).collect();
    let expected = parse_posts(&sorted, &vec![]).unwrap();
    let mut shuffled: Vec<PostFolder> = Vec::new();
    for step in 0..12 {
        shuffled.push(folder(step * 5 % 12));
    }
    let entries = vec!["0010:1".to_string(), "0009:0".to_string(), "0010:0".to_string()];
    let relisted = vec!["0009:0".to_string(), "0010:0".to_string(), "0010:1".to_string()];
    let list = parse_posts(&shuffled, &vec![]).unwrap();
    assert_eq!(list.len(), 12);
    for (a, b) in list.refs().iter().zip(expected.refs().iter()) {
        assert_eq!(a.get(), b.get());
    }
    let first = parse_posts(&shuffled, &entries).unwrap();
    let second = parse_posts(&sorted, &relisted).unwrap();
    for (a, b) in first.refs().iter().zip(second.refs().iter()) {
        assert_eq!(a.get(), b.get());
    }
    assert_eq!(first.get_ref(10).unwrap().get().version, 2);
    assert_eq!(first.get_ref(9).unwrap().get().version, 1);
    let mut broken = shuffled.clone();
    broken[3].date = Some("hieraŭ".to_string());
    let mut also_broken = sorted.clone();
    also_broken[3 * 5 % 12].date = Some("hieraŭ".to_string());
    assert_eq!(fault(parse_posts(&broken, &entries)), fault(parse_posts(&also_broken, &relisted)));
}

#[test]
fn eleven_versions_of_one_post_are_in_order() {
    let names: Vec<String> = (0..=10).map(|version| format!("0012:{}", version)).collect();
    let versions = OldVersions::scan(&names).unwrap();
    assert_eq!(versions.versions_of("0012"), 11);
    let mut listed = names.clone();
    listed.reverse();
    listed.push("0003:0".to_string());
    let versions = OldVersions::scan(&listed).unwrap();
    assert_eq!(versions.versions_of("0012"), 11);
    assert_eq!(versions.versions_of("0003"), 1);
    let folders: Vec<PostFolder> = (0..13).map(folder).collect();
    let list = parse_posts(&folders, &names).unwrap();
    assert_eq!(list.last().version, 11);
    assert!(list.last().is_revised);
    assert_eq!(list.first().version, 0);
}

#[test]
fn a_version_that_is_left_out_or_given_twice_is_a_fault() {
    let mut names: Vec<String> = (0..=10).map(|version| format!("0012:{}", version)).collect();
    names.remove(9);
    assert_eq!(
        OldVersions::scan(&names).err(),
        Some(ArchiveError::OutOfOrder { entry: "0012:10".to_string(), expected: 9, found: 10 })
    );
    let twice = vec!["0012:0".to_string(), "0012:1".to_string(), "0012:01".to_string()];
    assert_eq!(
        OldVersions::scan(&twice).err(),
        Some(ArchiveError::OutOfOrder { entry: "0012:1".to_string(), expected: 2, found: 1 })
    );
    let large = vec!["0012:0".to_string(), "0012:4294967295".to_string()];
    assert_eq!(
        OldVersions::scan(&large).err(),
        Some(ArchiveError::OutOfOrder {
            entry: "0012:4294967295".to_string(),
            expected: 1,
            found: 4294967295,
        })
    );
    let mixed = vec!["0001:0".to_string(), "0002:1".to_string(), "0001:1".to_string()];
    assert_eq!(
        OldVersions::scan(&mixed).err(),
        Some(ArchiveError::OutOfOrder { entry: "0002:1".to_string(), expected: 0, found: 1 })
    );
}

#[test]
fn any_predicate_can_be_counted() {
    let mut folders = week();
    folders[1].special = Some("novjaro".to_string());
    folders[4].special = Some("haloveno".to_string());
    folders[5].special = Some("novjaro".to_string());
    let list = parse_posts(&folders, &vec![]).unwrap();
    assert_eq!(count_where(&list, |post| post.special.is_some()), 3);
    assert_eq!(percent_where(&list, |post| post.special.is_some()), 42);
    assert_eq!(count_where(&list, |post| post.special == Some(Special::NewYears)), 2);
    assert_eq!(percent_where(&list, |post| post.props.good), 14);
    assert_eq!(count_where(&list, |post| post.props.good), posts_count(&list, Trait::Good));
    assert_eq!(count_where(&list, |_| true), 7);
    assert_eq!(percent_where(&list, |_| true), 100);
    assert_eq!(percent_where(&list, |_| false), 0);
    let mut asked = Vec::new();
    let seen = std::cell::RefCell::new(&mut asked);
    count_where(&list, |post| {
        seen.borrow_mut().push(post.index.as_int());
        false
    });
    assert_eq!(asked, vec![0, 1, 2, 3, 4, 5, 6]);
}
