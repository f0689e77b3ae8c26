use devourer_core::archive::ArchiveEntry;
use devourer_core::extract::{plan_extraction, EntryAction};
use devourer_core::failure::Failure;
use devourer_core::rar::{RarPhase, RarSession};

fn file(name: &str) -> ArchiveEntry {
    ArchiveEntry { name: name.to_string(), is_directory: false }
}

fn directory(name: &str) -> ArchiveEntry {
    ArchiveEntry { name: name.to_string(), is_directory: true }
}

#[test]
fn rar_is_refused_where_it_is_not_supported() {
    assert!(matches!(RarSession::begin(false), Err(Failure::Unsupported)));
}

#[test]
fn a_session_begins_idle() {
    assert_eq!(RarSession::begin(true).unwrap().phase(), RarPhase::Idle);
}

#[test]
fn a_session_runs_from_header_to_header_until_the_end() {
    let mut session = RarSession::begin(true).unwrap();
    assert_eq!(session.header_read(Some(directory("page"))), Ok(()));
    assert_eq!(session.phase(), RarPhase::HeaderRead);
    match session.decide() {
        Ok(EntryAction::MakeDirectory { path }) => assert_eq!(path.to_text(), "page"),
        other => panic!("{other:?}"),
    }
    assert_eq!(session.phase(), RarPhase::Skipping);
    assert_eq!(session.header_read(Some(file("page/a.jpg"))), Ok(()));
    assert_eq!(session.phase(), RarPhase::HeaderRead);
    match session.decide() {
        Ok(EntryAction::WriteFile { path }) => {
            assert_eq!(path.to_text(), "page/a.jpg");
            assert_eq!(path.parent().to_text(), "page");
        }
        other => panic!("{other:?}"),
    }
    assert_eq!(session.phase(), RarPhase::Extracting);
    assert_eq!(session.header_read(None), Ok(()));
    assert_eq!(session.phase(), RarPhase::Exhausted);
}

#[test]
fn an_empty_archive_is_exhausted_at_once() {
    let mut session = RarSession::begin(true).unwrap();
    assert_eq!(session.header_read(None), Ok(()));
    assert_eq!(session.phase(), RarPhase::Exhausted);
}

#[test]
fn no_header_is_read_over_a_waiting_entry() {
    let mut session = RarSession::begin(true).unwrap();
    session.header_read(Some(file("a"))).unwrap();
    assert_eq!(
        session.header_read(Some(file("b"))),
        Err(Failure::InvalidInput { detail: "no header can be read in this phase".to_string() })
    );
    assert!(matches!(session.header_read(None), Err(Failure::InvalidInput { .. })));
    assert_eq!(session.phase(), RarPhase::HeaderRead);
    match session.decide() {
        Ok(EntryAction::WriteFile { path }) => assert_eq!(path.to_text(), "a"),
        other => panic!("{other:?}"),
    }
}

#[test]
fn nothing_is_decided_without_a_header() {
    let mut session = RarSession::begin(true).unwrap();
    assert_eq!(
        session.decide(),
        Err(Failure::InvalidInput { detail: "no entry waits for a decision".to_string() })
    );
    assert_eq!(session.phase(), RarPhase::Idle);
    session.header_read(Some(file("a"))).unwrap();
    session.decide().unwrap();
    assert!(matches!(session.decide(), Err(Failure::InvalidInput { .. })));
    assert_eq!(session.phase(), RarPhase::Extracting);
}

#[test]
fn an_exhausted_session_reads_nothing_more() {
    let mut session = RarSession::begin(true).unwrap();
    session.header_read(None).unwrap();
    assert!(matches!(session.header_read(Some(file("a"))), Err(Failure::InvalidInput { .. })));
    assert!(matches!(session.decide(), Err(Failure::InvalidInput { .. })));
    assert_eq!(session.phase(), RarPhase::Exhausted);
}

#[test]
fn an_entry_that_leaves_the_destination_ends_the_session() {
    let mut session = RarSession::begin(true).unwrap();
    session.header_read(Some(file("../../etc/passwd"))).unwrap();
    assert_eq!(
        session.decide(),
        Err(Failure::InvalidInput {
            detail: "entry name leaves the destination: ../../etc/passwd".to_string()
        })
    );
    assert_eq!(session.phase(), RarPhase::Exhausted);
    assert!(matches!(session.header_read(Some(file("a"))), Err(Failure::InvalidInput { .. })));
}

#[test]
fn a_whole_pass_decides_what_the_plan_holds() {
    let headers =
        vec![directory("page"), file("page/a.jpg"), directory("empty/"), file("b.txt")];
    let plan = plan_extraction(&headers).unwrap();
    let mut session = RarSession::begin(true).unwrap();
    let mut decided = Vec::new();
    for header in &headers {
        session.header_read(Some(header.clone())).unwrap();
        decided.push(session.decide().unwrap());
    }
    session.header_read(None).unwrap();
    assert_eq!(session.phase(), RarPhase::Exhausted);
    assert_eq!(decided, plan);
    assert!(matches!(decided[0], EntryAction::MakeDirectory { .. }));
    assert!(matches!(decided[2], EntryAction::MakeDirectory { .. }));
}
