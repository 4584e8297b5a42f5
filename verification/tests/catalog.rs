use std::io::Write;

use emuman::db::{DirEntry, Game, GameDb, GamesMap, PartsMap};
use emuman::failures::VerifyFailure;
use emuman::part::Part;
use emuman::row::GameColumn;
use emuman::sources::{catalog_file, is_zip, PartSet, RomSource, RomSources, ZipPart};
use emuman::{Error, Status};

fn rom_part(tag: u8) -> Part {
    Part::Rom { sha1: [tag; 20] }
}

fn game_full(
    name: &str,
    description: &str,
    creator: &str,
    year: &str,
    status: Status,
    is_device: bool,
    parts: Vec<(&str, Part)>,
    devices: Vec<&str>,
) -> Game {
    let mut map = PartsMap::new();
    for (n, p) in parts {
        map.insert(n.to_string(), p);
    }
    Game {
        name: name.to_string(),
        description: description.to_string(),
        creator: creator.to_string(),
        year: year.to_string(),
        status,
        is_device,
        parts: map,
        devices: devices.into_iter().map(|d| d.to_string()).collect(),
    }
}

fn sample_db() -> GameDb {
    let mut games = GamesMap::new();
    games.insert(
        "pac".to_string(),
        game_full(
            "pac",
            "Pac Game (set 1)",
            "Namco (licensed)",
            "1980",
            Status::Working,
            false,
            vec![("pac.bin", rom_part(1))],
            vec!["cpu"],
        ),
    );
    games.insert(
        "cpu".to_string(),
        game_full("cpu", "CPU Device", "Namco", "1980", Status::Working, true, vec![
            ("cpu.rom", rom_part(2)),
        ], vec![]),
    );
    games.insert(
        "bad".to_string(),
        game_full("bad", "Broken Game", "Nobody", "1999", Status::NotWorking, false, vec![], vec![]),
    );
    GameDb { description: "test catalog".to_string(), date: None, games }
}

#[test]
fn is_game_and_lookup() {
    let db = sample_db();
    assert!(db.is_game("pac"));
    assert!(!db.is_game("zork"));
    assert_eq!(db.game("pac").unwrap().name, "pac");
    assert!(db.game("zork").is_none());
}

#[test]
fn all_games_and_iteration() {
    let db = sample_db();
    let names = db.all_games();
    assert_eq!(names, vec!["pac".to_string(), "cpu".to_string(), "bad".to_string()]);
    assert_eq!(db.games_iter().len(), 3);
}

#[test]
fn validate_reports_first_unknown_name() {
    let db = sample_db();
    assert!(db.validate_games(&vec!["pac".to_string(), "cpu".to_string()]).is_ok());
    match db.validate_games(&vec!["pac".to_string(), "zork".to_string()]) {
        Err(Error::NoSuchSoftware(n)) => assert_eq!(n, "zork"),
        _ => panic!("expected a missing-software error"),
    }
}

#[test]
fn retain_working_drops_broken_entries() {
    let mut db = sample_db();
    db.retain_working();
    assert!(db.is_game("pac"));
    assert!(db.is_game("cpu"));
    assert!(!db.is_game("bad"));
}

#[test]
fn required_parts_follows_devices() {
    let db = sample_db();
    let parts = db.required_parts(&vec!["pac".to_string()]).unwrap();
    assert!(parts.contains(&rom_part(1)));
    assert!(parts.contains(&rom_part(2)));
    assert!(!parts.contains(&rom_part(9)));
}

#[test]
fn required_parts_rejects_unknown_name() {
    let db = sample_db();
    assert!(matches!(
        db.required_parts(&vec!["zork".to_string()]),
        Err(Error::NoSuchSoftware(_))
    ));
}

#[test]
fn device_closure_gathers_transitive_devices() {
    let db = sample_db();
    let closure = db.device_closure(&"pac".to_string());
    let mut names: Vec<String> = closure.clone();
    names.sort();
    assert_eq!(names, vec!["cpu".to_string(), "pac".to_string()]);
    assert!(db.device_closure(&"zork".to_string()).is_empty());
}

#[test]
fn verify_game_includes_devices() {
    let db = sample_db();
    let listings: Vec<(String, Option<Vec<DirEntry>>)> = vec![
        (
            "pac".to_string(),
            Some(vec![DirEntry {
                name: "pac.bin".to_string(),
                path: "root/pac/pac.bin".to_string(),
                ident: Ok(rom_part(1)),
            }]),
        ),
        ("cpu".to_string(), None),
    ];
    let failures = db.verify_game("root", &"pac".to_string(), &listings);
    // The game itself is clean; the device directory is unreadable, so its
    // one part surfaces as missing.
    assert_eq!(failures.len(), 1);
    match &failures[0] {
        VerifyFailure::Missing { path, part } => {
            assert_eq!(path, "root/cpu/cpu.rom");
            assert!(*part == rom_part(2));
        }
        _ => panic!("expected the device part to be missing"),
    }
}

#[test]
fn list_results_skips_devices_and_searches() {
    let db = sample_db();
    let all = db.list_results(None, false);
    assert_eq!(all.len(), 2);
    assert!(all.iter().all(|r| r.name != "cpu"));

    let found = db.list_results(Some("Pac"), false);
    assert_eq!(found.len(), 1);
    assert_eq!(found[0].name, "pac");

    let by_year = db.list_results(Some("1999"), false);
    assert_eq!(by_year.len(), 1);
    assert_eq!(by_year[0].name, "bad");
}

#[test]
fn report_results_filters_by_names() {
    let db = sample_db();
    let rows = db.report_results(&vec!["bad".to_string(), "pac".to_string()], None, false);
    assert_eq!(rows.len(), 2);
    assert_eq!(rows[0].name, "bad");
    assert_eq!(rows[1].name, "pac");
    let rows2 = db.report_results(&vec!["cpu".to_string(), "zork".to_string()], None, false);
    assert!(rows2.is_empty());
}

#[test]
fn games_rows_keep_requested_order() {
    let db = sample_db();
    let rows = db.games(&vec!["cpu".to_string(), "pac".to_string()], false);
    assert_eq!(rows.len(), 2);
    assert_eq!(rows[0].name, "cpu");
    assert_eq!(rows[1].name, "pac");
}

#[test]
fn simple_report_trims_parenthesized_tails() {
    let db = sample_db();
    let rows = db.games(&vec!["pac".to_string()], true);
    assert_eq!(rows[0].description, "Pac Game");
    assert_eq!(rows[0].creator, "Namco");
    let full = db.games(&vec!["pac".to_string()], false);
    assert_eq!(full[0].description, "Pac Game (set 1)");
}

#[test]
fn simple_report_trims_alternate_titles() {
    let g = game_full(
        "x",
        "First Title / Second Title",
        "Someone",
        "1985",
        Status::Working,
        false,
        vec![],
        vec![],
    );
    let row = g.report(true);
    assert_eq!(row.description, "First Title");
}

#[test]
fn row_matching_and_ordering() {
    let db = sample_db();
    let rows = db.list_results(None, false);
    let pac = rows.iter().find(|r| r.name == "pac").unwrap();
    assert!(pac.matches("pa"));
    assert!(pac.matches("Namco"));
    assert!(pac.matches("1980"));
    assert!(!pac.matches("zork"));

    let bad = rows.iter().find(|r| r.name == "bad").unwrap();
    assert_eq!(pac.compare(bad, GameColumn::Year), core::cmp::Ordering::Less);
    assert_eq!(bad.compare(pac, GameColumn::Creator), core::cmp::Ordering::Greater);
    assert_eq!(pac.compare(pac, GameColumn::Description), core::cmp::Ordering::Equal);
}

#[test]
fn sort_column_names() {
    assert!(matches!(GameColumn::from_str("description"), Ok(GameColumn::Description)));
    assert!(matches!(GameColumn::from_str("creator"), Ok(GameColumn::Creator)));
    assert!(matches!(GameColumn::from_str("year"), Ok(GameColumn::Year)));
    match GameColumn::from_str("bogus") {
        Err(e) => assert_eq!(e, "invalid sort by value"),
        _ => panic!("expected a rejection"),
    }
}

fn zip_with(entries: &[(&str, &[u8])]) -> Vec<u8> {
    let mut cursor = std::io::Cursor::new(Vec::new());
    {
        let mut writer = zip::ZipWriter::new(&mut cursor);
        let options = zip::write::SimpleFileOptions::default()
            .compression_method(zip::CompressionMethod::Stored);
        for (name, data) in entries {
            writer.start_file(*name, options).unwrap();
            writer.write_all(data).unwrap();
        }
        writer.finish().unwrap();
    }
    cursor.into_inner()
}

#[test]
fn zip_signature_detection() {
    let data = zip_with(&[("a", b"abc")]);
    assert!(is_zip(&data));
    assert!(!is_zip(b"abc"));
    assert!(!is_zip(b""));
}

#[test]
fn archive_members_are_cataloged() {
    let data = zip_with(&[("a", b"abc"), ("b", b"hello")]);
    let members = ZipPart::from_zip(&data);
    assert_eq!(members.len(), 2);
    assert!(members[0].0 == Part::from_slice(b"abc").unwrap());
    assert!(matches!(members[0].1, ZipPart::Zip { index: 0 }));
    assert!(members[1].0 == Part::from_slice(b"hello").unwrap());
    assert!(matches!(members[1].1, ZipPart::Zip { index: 1 }));
}

#[test]
fn nested_archives_are_cataloged_one_level_down() {
    let inner = zip_with(&[("x", b"deep")]);
    let data = zip_with(&[("inner.zip", &inner)]);
    let members = ZipPart::from_zip(&data);
    // The inner archive itself, then its member.
    assert_eq!(members.len(), 2);
    assert!(matches!(members[0].1, ZipPart::Zip { index: 0 }));
    assert!(matches!(members[1].1, ZipPart::SubZip { index: 0, sub_index: 0 }));
    assert!(members[1].0 == Part::from_slice(b"deep").unwrap());
}

#[test]
fn member_data_returns_decompressed_bytes() {
    let data = zip_with(&[("a", b"abc"), ("b", b"hello")]);
    let part = ZipPart::Zip { index: 1 };
    assert_eq!(part.member_data(&data).unwrap(), b"hello");
    let inner = zip_with(&[("x", b"deep")]);
    let outer = zip_with(&[("inner.zip", &inner)]);
    let sub = ZipPart::SubZip { index: 0, sub_index: 0 };
    assert_eq!(sub.member_data(&outer).unwrap(), b"deep");
    assert!(ZipPart::Zip { index: 7 }.member_data(&data).is_none());
}

#[test]
fn catalog_file_prefers_cached_identity() {
    let pairs =
        catalog_file(&"f".to_string(), Some(rom_part(4)), &b"ignored".to_vec()).unwrap();
    assert_eq!(pairs.len(), 1);
    assert!(pairs[0].0 == rom_part(4));
    assert!(matches!(
        &pairs[0].1,
        RomSource::File { file, has_xattr: true } if file == "f"
    ));
}

#[test]
fn catalog_file_reads_content_and_archive_members() {
    let data = zip_with(&[("a", b"abc")]);
    let pairs = catalog_file(&"f.zip".to_string(), None, &data).unwrap();
    assert_eq!(pairs.len(), 2);
    assert!(pairs[0].0 == Part::from_slice(&data).unwrap());
    assert!(matches!(
        &pairs[0].1,
        RomSource::File { file, has_xattr: false } if file == "f.zip"
    ));
    assert!(pairs[1].0 == Part::from_slice(b"abc").unwrap());
    assert!(matches!(
        &pairs[1].1,
        RomSource::ZipFile { file, zip_part: ZipPart::Zip { index: 0 } } if file == "f.zip"
    ));
}

#[test]
fn sources_keep_later_duplicates_and_filter() {
    let pairs = vec![
        (rom_part(1), RomSource::File { file: "first".to_string(), has_xattr: false }),
        (rom_part(1), RomSource::File { file: "second".to_string(), has_xattr: false }),
        (rom_part(2), RomSource::File { file: "other".to_string(), has_xattr: false }),
    ];
    let sources = RomSources::build(pairs, None);
    match sources.get(&rom_part(1)) {
        Some(RomSource::File { file, .. }) => assert_eq!(file, "second"),
        _ => panic!("expected the later source to win"),
    }
    assert!(sources.contains(&rom_part(2)));

    let mut required = PartSet::new();
    required.insert(rom_part(2));
    let pairs2 = vec![
        (rom_part(1), RomSource::File { file: "first".to_string(), has_xattr: false }),
        (rom_part(2), RomSource::File { file: "other".to_string(), has_xattr: false }),
    ];
    let filtered = RomSources::build(pairs2, Some(&required));
    assert!(!filtered.contains(&rom_part(1)));
    assert!(filtered.contains(&rom_part(2)));
}

#[test]
fn part_set_membership() {
    let mut set = PartSet::new();
    assert!(!set.contains(&rom_part(1)));
    set.insert(rom_part(1));
    assert!(set.contains(&rom_part(1)));
    assert!(!set.contains(&rom_part(2)));
}

#[test]
fn list_sorts_by_the_chosen_column() {
    let db = sample_db();
    let by_desc = db.list(None, GameColumn::Description, false);
    assert_eq!(by_desc.len(), 2);
    assert_eq!(by_desc[0].name, "bad");
    assert_eq!(by_desc[1].name, "pac");
    let by_year = db.list(None, GameColumn::Year, false);
    assert_eq!(by_year[0].name, "pac");
    assert_eq!(by_year[1].name, "bad");
}

#[test]
fn report_sorts_requested_games() {
    let db = sample_db();
    let rows = db.report(
        &vec!["pac".to_string(), "bad".to_string()],
        None,
        GameColumn::Creator,
        false,
    );
    assert_eq!(rows.len(), 2);
    assert_eq!(rows[0].name, "pac");
    assert_eq!(rows[1].name, "bad");
}

#[test]
fn required_parts_follows_device_chains() {
    let mut games = GamesMap::new();
    games.insert(
        "top".to_string(),
        game_full("top", "Top", "X", "1990", Status::Working, false, vec![("t", rom_part(1))], vec![
            "mid",
        ]),
    );
    games.insert(
        "mid".to_string(),
        game_full("mid", "Mid", "X", "1990", Status::Working, true, vec![("m", rom_part(2))], vec![
            "leaf",
        ]),
    );
    games.insert(
        "leaf".to_string(),
        game_full("leaf", "Leaf", "X", "1990", Status::Working, true, vec![("l", rom_part(3))], vec![
            "ghostly",
        ]),
    );
    let db = GameDb { description: String::new(), date: None, games };
    // The chain is followed transitively; the dangling reference is ignored.
    let parts = db.required_parts(&vec!["top".to_string()]).unwrap();
    assert!(parts.contains(&rom_part(1)));
    assert!(parts.contains(&rom_part(2)));
    assert!(parts.contains(&rom_part(3)));
}

#[test]
fn simple_report_trims_unicode_whitespace_before_tails() {
    let g = game_full(
        "x",
        "Name\u{a0}(set 1)",
        "Maker\u{2002}(licensed)",
        "1985",
        Status::Working,
        false,
        vec![],
        vec![],
    );
    let row = g.report(true);
    assert_eq!(row.description, "Name");
    assert_eq!(row.creator, "Maker");
}

#[test]
fn inode_dedup_keeps_first_paths_in_order() {
    let entries = vec![
        ("a".to_string(), 10u64),
        ("b".to_string(), 11),
        ("c".to_string(), 10),
        ("d".to_string(), 12),
        ("e".to_string(), 11),
    ];
    let kept = emuman::sources::dedup_by_ino(&entries);
    assert_eq!(kept, vec!["a".to_string(), "b".to_string(), "d".to_string()]);
}
