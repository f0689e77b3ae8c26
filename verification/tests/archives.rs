use devourer_core::archive::{names_directory, ArchiveEntry, ZipReader};
use devourer_core::cover::{choose_cover, summarize, Summary};
use devourer_core::extract::{plan_entry, plan_extraction, plan_zip_extraction, EntryAction};
use devourer_core::failure::Failure;
use devourer_core::scan::{DirEntry, EntryKind, Scanner};
use std::collections::BTreeMap;
use std::io::Write;
use zip::write::SimpleFileOptions;

enum Item<'a> {
    Dir(&'a str),
    File(&'a str, &'a [u8]),
    Stored(&'a str, &'a [u8]),
}

fn archive(items: &[Item]) -> Vec<u8> {
    let mut writer = zip::ZipWriter::new(std::io::Cursor::new(Vec::new()));
    for item in items {
        match item {
            Item::Dir(name) => {
                writer.add_directory(*name, SimpleFileOptions::default()).unwrap();
            }
            Item::File(name, data) => {
                writer.start_file(*name, SimpleFileOptions::default()).unwrap();
                writer.write_all(data).unwrap();
            }
            Item::Stored(name, data) => {
                let options = SimpleFileOptions::default()
                    .compression_method(zip::CompressionMethod::Stored);
                writer.start_file(*name, options).unwrap();
                writer.write_all(data).unwrap();
            }
        }
    }
    writer.finish().unwrap().into_inner()
}

fn vol1() -> Vec<u8> {
    archive(&[
        Item::File("page/b.png", b"bytes of b"),
        Item::File("page/a.jpg", b"bytes of a"),
        Item::File("cover.txt", b"a text"),
    ])
}

fn file(name: &str) -> ArchiveEntry {
    ArchiveEntry { name: name.to_string(), is_directory: false }
}

fn directory(name: &str) -> ArchiveEntry {
    ArchiveEntry { name: name.to_string(), is_directory: true }
}

fn texts(actions: &[EntryAction]) -> Vec<(bool, String)> {
    actions
        .iter()
        .map(|a| match a {
            EntryAction::MakeDirectory { path } => (true, path.to_text()),
            EntryAction::WriteFile { path } => (false, path.to_text()),
        })
        .collect()
}

#[test]
fn summary_of_vol1_counts_two_images_and_takes_a_jpg() {
    let mut reader = ZipReader::open(vol1()).unwrap();
    let summary = summarize("Vol 1", &mut reader).unwrap();
    assert_eq!(summary.image_count, 2);
    let cover = summary.cover.unwrap();
    assert_eq!(cover.file_name, "Vol 1.jpg");
    assert_eq!(cover.target.to_text(), "Vol 1.jpg");
    assert_eq!(cover.index, 1);
    assert_eq!(cover.data, b"bytes of a".to_vec());
}

#[test]
fn summary_without_images_has_no_cover() {
    let bytes = archive(&[Item::File("readme.txt", b"x"), Item::Dir("empty/")]);
    let mut reader = ZipReader::open(bytes).unwrap();
    assert_eq!(summarize("Vol 1", &mut reader), Ok(Summary { image_count: 0, cover: None }));
}

#[test]
fn summary_of_an_empty_archive() {
    let mut reader = ZipReader::open(archive(&[])).unwrap();
    assert_eq!(reader.len(), 0);
    assert_eq!(summarize("Vol 1", &mut reader), Ok(Summary { image_count: 0, cover: None }));
}

#[test]
fn summary_keeps_the_case_of_the_extension() {
    let bytes = archive(&[Item::File("B.PNG", b"b"), Item::File("a.png", b"a")]);
    let mut reader = ZipReader::open(bytes).unwrap();
    let summary = summarize("Vol", &mut reader).unwrap();
    assert_eq!(summary.image_count, 2);
    let cover = summary.cover.unwrap();
    assert_eq!(cover.file_name, "Vol.PNG");
    assert_eq!(cover.data, b"b".to_vec());
}

#[test]
fn summary_refuses_an_image_without_a_stem() {
    let bytes = archive(&[Item::File("z.png", b"z"), Item::File(".jpg", b"dot")]);
    let mut reader = ZipReader::open(bytes).unwrap();
    match summarize("Vol", &mut reader) {
        Err(Failure::InvalidInput { detail }) => assert_eq!(detail, "Invalid file extension: .jpg"),
        other => panic!("{other:?}"),
    }
}

#[test]
fn summary_refuses_a_display_name_that_leaves_the_destination() {
    let mut reader = ZipReader::open(vol1()).unwrap();
    assert_eq!(
        summarize("../Vol 1", &mut reader),
        Err(Failure::InvalidInput {
            detail: "entry name leaves the destination: ../Vol 1.jpg".to_string()
        })
    );
}

#[test]
fn summary_resolves_a_display_name_with_directories() {
    let mut reader = ZipReader::open(vol1()).unwrap();
    let cover = summarize("series/Vol 1", &mut reader).unwrap().cover.unwrap();
    assert_eq!(cover.file_name, "series/Vol 1.jpg");
    assert_eq!(cover.target.to_text(), "series/Vol 1.jpg");
    assert_eq!(cover.target.parent().to_text(), "series");
}

#[test]
fn choose_cover_works_on_names_alone() {
    let names: Vec<String> =
        ["page/b.png", "page/a.jpg", "cover.txt"].iter().map(|s| s.to_string()).collect();
    let (count, choice) = choose_cover("Vol 1", &names).unwrap();
    assert_eq!(count, 2);
    let choice = choice.unwrap();
    assert_eq!(choice.index, 1);
    assert_eq!(choice.file_name, "Vol 1.jpg");
    assert_eq!(choose_cover("Vol 1", &Vec::new()), Ok((0, None)));
}

#[test]
fn bytes_that_are_no_archive_are_unreadable() {
    assert!(matches!(ZipReader::open(b"this is no archive".to_vec()), Err(Failure::Unreadable { .. })));
    assert!(matches!(ZipReader::open(Vec::new()), Err(Failure::Unreadable { .. })));
}

#[test]
fn entries_are_listed_in_directory_order() {
    let bytes = archive(&[
        Item::Dir("page/"),
        Item::File("page/b.png", b"b"),
        Item::File("a.txt", b"a"),
    ]);
    let reader = ZipReader::open(bytes).unwrap();
    assert_eq!(reader.len(), 3);
    assert_eq!(reader.list(), vec![directory("page/"), file("page/b.png"), file("a.txt")]);
    assert_eq!(
        reader.entry_names(),
        vec!["page/".to_string(), "page/b.png".to_string(), "a.txt".to_string()]
    );
    assert_eq!(reader.entry(1), Some(file("page/b.png")));
    assert_eq!(reader.entry(3), None);
}

#[test]
fn entries_are_read_by_index_in_any_order() {
    let big: Vec<u8> = (0..20000u32).map(|i| (i % 251) as u8).collect();
    let bytes = archive(&[
        Item::File("a.bin", &big),
        Item::Stored("b.txt", b"stored as it is"),
        Item::File("empty", b""),
    ]);
    let mut reader = ZipReader::open(bytes).unwrap();
    assert_eq!(reader.read(1).unwrap(), b"stored as it is".to_vec());
    assert_eq!(reader.read(0).unwrap(), big);
    assert_eq!(reader.read(2).unwrap(), Vec::<u8>::new());
    assert_eq!(reader.read(1).unwrap(), b"stored as it is".to_vec());
    assert_eq!(reader.len(), 3);
}

#[test]
fn reading_past_the_last_entry_is_invalid() {
    let mut reader = ZipReader::open(vol1()).unwrap();
    assert_eq!(
        reader.read(3),
        Err(Failure::InvalidInput { detail: "no entry at this index".to_string() })
    );
    assert!(matches!(reader.read(usize::MAX), Err(Failure::InvalidInput { .. })));
}

#[test]
fn an_entry_whose_data_was_damaged_is_corrupt() {
    let payload = b"stored payload that will be damaged";
    let mut bytes = archive(&[Item::Stored("a.txt", b"fine"), Item::Stored("b.png", payload)]);
    let at = bytes.windows(payload.len()).position(|w| w == payload).unwrap();
    bytes[at] ^= 0xff;
    let mut reader = ZipReader::open(bytes).unwrap();
    assert_eq!(reader.read(0).unwrap(), b"fine".to_vec());
    match reader.read(1) {
        Err(Failure::CorruptEntry { index, .. }) => assert_eq!(index, 1),
        other => panic!("{other:?}"),
    }
    match summarize("Vol", &mut reader) {
        Err(Failure::CorruptEntry { index, .. }) => assert_eq!(index, 1),
        other => panic!("{other:?}"),
    }
}

#[test]
fn a_name_is_a_directory_when_it_ends_in_a_slash() {
    assert!(names_directory("page/"));
    assert!(names_directory("/"));
    assert!(!names_directory("page"));
    assert!(!names_directory(""));
    assert!(!names_directory("page\\"));
}

#[test]
fn a_directory_entry_is_made_and_never_written() {
    match plan_entry(&directory("a/b/")) {
        Ok(EntryAction::MakeDirectory { path }) => assert_eq!(path.to_text(), "a/b"),
        other => panic!("{other:?}"),
    }
}

#[test]
fn a_file_entry_is_written_below_its_parents() {
    match plan_entry(&file("a/b/c.txt")) {
        Ok(EntryAction::WriteFile { path }) => {
            assert_eq!(path.to_text(), "a/b/c.txt");
            assert_eq!(path.parent().to_text(), "a/b");
        }
        other => panic!("{other:?}"),
    }
}

#[test]
fn an_entry_that_leaves_the_destination_is_refused() {
    assert_eq!(
        plan_entry(&file("../evil.txt")),
        Err(Failure::InvalidInput {
            detail: "entry name leaves the destination: ../evil.txt".to_string()
        })
    );
    assert!(matches!(plan_entry(&file("a/../../evil.txt")), Err(Failure::InvalidInput { .. })));
    assert!(matches!(plan_entry(&directory("../evil/")), Err(Failure::InvalidInput { .. })));
}

#[test]
fn an_absolute_entry_name_is_kept_below_the_destination() {
    match plan_entry(&file("/etc/passwd")) {
        Ok(EntryAction::WriteFile { path }) => assert_eq!(path.to_text(), "etc/passwd"),
        other => panic!("{other:?}"),
    }
}

#[test]
fn a_file_entry_that_names_the_destination_itself_is_refused() {
    assert_eq!(
        plan_entry(&file("")),
        Err(Failure::InvalidInput { detail: "entry names no file: ".to_string() })
    );
    assert_eq!(
        plan_entry(&file("./")),
        Err(Failure::InvalidInput { detail: "entry names no file: ./".to_string() })
    );
    assert!(matches!(plan_entry(&file("a/..")), Err(Failure::InvalidInput { .. })));
    match plan_entry(&directory("./")) {
        Ok(EntryAction::MakeDirectory { path }) => assert!(path.is_root()),
        other => panic!("{other:?}"),
    }
}

#[test]
fn a_plan_has_one_action_for_each_entry_in_order() {
    let entries = vec![directory("page/"), file("page/b.png"), file("a.txt"), directory("x/y/")];
    let plan = plan_extraction(&entries).unwrap();
    assert_eq!(
        texts(&plan),
        vec![
            (true, "page".to_string()),
            (false, "page/b.png".to_string()),
            (false, "a.txt".to_string()),
            (true, "x/y".to_string()),
        ]
    );
    assert_eq!(plan_extraction(&Vec::new()), Ok(Vec::new()));
}

#[test]
fn one_refused_entry_refuses_the_whole_plan() {
    let entries = vec![file("a.txt"), file("../b.txt"), file("c.txt"), file("../d.txt")];
    assert_eq!(
        plan_extraction(&entries),
        Err(Failure::InvalidInput {
            detail: "entry name leaves the destination: ../b.txt".to_string()
        })
    );
}

#[test]
fn the_files_of_a_plan_are_the_file_entries_of_the_archive() {
    let bytes = archive(&[
        Item::Dir("page/"),
        Item::File("page/b.png", b"b"),
        Item::File("./page/../a.txt", b"a"),
        Item::Dir("empty/"),
    ]);
    let mut reader = ZipReader::open(bytes).unwrap();
    let plan = plan_zip_extraction(&reader).unwrap();
    assert_eq!(
        texts(&plan),
        vec![
            (true, "page".to_string()),
            (false, "page/b.png".to_string()),
            (false, "a.txt".to_string()),
            (true, "empty".to_string()),
        ]
    );
    let mut written: Vec<(String, Vec<u8>)> = Vec::new();
    for (i, action) in plan.iter().enumerate() {
        if let EntryAction::WriteFile { path } = action {
            written.push((path.to_text(), reader.read(i).unwrap()));
        }
    }
    assert_eq!(
        written,
        vec![("page/b.png".to_string(), b"b".to_vec()), ("a.txt".to_string(), b"a".to_vec())]
    );
}

#[test]
fn an_archive_with_an_escaping_entry_is_refused_as_a_whole() {
    let bytes = archive(&[Item::File("ok.txt", b"ok"), Item::File("../../evil.txt", b"evil")]);
    let reader = ZipReader::open(bytes).unwrap();
    assert!(matches!(plan_zip_extraction(&reader), Err(Failure::InvalidInput { .. })));
}

#[test]
fn listing_an_unpacked_archive_gives_its_file_entries() {
    let entries = vec![
        directory("page/"),
        file("page/b.png"),
        file("page/a.jpg"),
        file("/cover.txt"),
        directory("empty/deep/"),
        file("x/../notes/./n.txt"),
    ];
    let plan = plan_extraction(&entries).unwrap();

    // The tree that carrying out the plan leaves behind, directory by directory.
    let mut tree: BTreeMap<String, BTreeMap<String, EntryKind>> = BTreeMap::new();
    tree.insert(String::new(), BTreeMap::new());
    for action in &plan {
        let (path, kind) = match action {
            EntryAction::MakeDirectory { path } => (path, EntryKind::Directory),
            EntryAction::WriteFile { path } => (path, EntryKind::File),
        };
        let parts = path.components();
        let mut here = String::new();
        for (k, part) in parts.iter().enumerate() {
            let last = k + 1 == parts.len();
            let as_kind = if last { kind } else { EntryKind::Directory };
            tree.get_mut(&here).unwrap().insert(part.clone(), as_kind);
            let below = if here.is_empty() { part.clone() } else { format!("{here}/{part}") };
            if as_kind == EntryKind::Directory {
                tree.entry(below.clone()).or_default();
            }
            here = below;
        }
    }

    let mut scanner = Scanner::new();
    while let Some(dir) = scanner.next_directory() {
        let read: Vec<DirEntry> = tree[&dir]
            .iter()
            .map(|(name, kind)| DirEntry { name: name.clone(), kind: *kind })
            .collect();
        scanner.record(&dir, &read);
    }
    assert_eq!(
        scanner.finish(),
        Ok(vec![
            "cover.txt".to_string(),
            "notes/n.txt".to_string(),
            "page/a.jpg".to_string(),
            "page/b.png".to_string(),
        ])
    );
}
