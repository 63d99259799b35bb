use mekle::fs::{is_dir, EntryKind};
use mekle::path::PathName;

fn entry_kind(p: &PathName) -> Result<Option<EntryKind>, String> {
    match p.to_text().as_str() {
        "/t" => Ok(Some(EntryKind::Directory)),
        "/t/file" => Ok(Some(EntryKind::File)),
        "/t/socket" => Ok(Some(EntryKind::Other)),
        "/t/denied" => Err("permission denied".to_owned()),
        _ => Ok(None),
    }
}

fn path(text: &str) -> PathName {
    PathName::parse(text)
}

#[test]
fn entries_are_told_apart() {
    assert_eq!(is_dir(&path("/t"), &entry_kind), Ok(true));
    assert_eq!(is_dir(&path("/t/file"), &entry_kind), Ok(false));
    assert_eq!(is_dir(&path("/t/socket"), &entry_kind), Ok(false));
}

#[test]
fn a_missing_path_is_no_directory() {
    assert_eq!(is_dir(&path("/t/absent"), &entry_kind), Ok(false));
}

#[test]
fn an_unreadable_path_is_an_error() {
    assert_eq!(is_dir(&path("/t/denied"), &entry_kind), Err("permission denied".to_owned()));
}
