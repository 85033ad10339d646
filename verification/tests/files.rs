use entangle::text::{char_bytes, chars_of, same_text, span_bytes};
use entangle::watcher::{is_relevant_event, poll_due, react, FsEvent, FsEventKind, Reaction};
use entangle::writer::{tmp_file_name, SUPPRESS_MS};

fn path(text: &str) -> Vec<Vec<u8>> {
    text.split('/').map(|part| part.as_bytes().to_vec()).collect()
}

fn event(kind: FsEventKind, paths: &[&str]) -> FsEvent {
    FsEvent { kind, paths: paths.iter().map(|p| path(p)).collect() }
}

#[test]
fn changes_of_the_target_are_relevant() {
    let target = path("dir/notes.txt");
    assert!(is_relevant_event(&event(FsEventKind::Modify, &["dir/notes.txt"]), &target));
    assert!(is_relevant_event(&event(FsEventKind::Create, &["x", "dir/notes.txt"]), &target));
    assert!(!is_relevant_event(&event(FsEventKind::Other, &["dir/notes.txt"]), &target));
    assert!(!is_relevant_event(&event(FsEventKind::Modify, &["dir/notes.tx"]), &target));
    assert!(!is_relevant_event(&event(FsEventKind::Modify, &["dir"]), &target));
    assert!(!is_relevant_event(&event(FsEventKind::Modify, &[]), &target));
}

#[test]
fn suppressed_events_are_not_passed_on() {
    let target = path("notes.txt");
    let ours = event(FsEventKind::Modify, &["notes.txt"]);
    let other = event(FsEventKind::Modify, &["other.txt"]);
    assert_eq!(react(&ours, &target, false), Reaction::Notify);
    assert_eq!(react(&ours, &target, true), Reaction::Suppress);
    assert_eq!(react(&other, &target, false), Reaction::Ignore);
    assert_eq!(react(&other, &target, true), Reaction::Ignore);
}

#[test]
fn polls_need_an_idle_file_that_exists() {
    assert!(poll_due(false, true));
    assert!(!poll_due(true, true));
    assert!(!poll_due(false, false));
}

#[test]
fn temporary_file_stands_beside_the_target() {
    assert_eq!(tmp_file_name(Some("data.txt")), ".entangle-data.txt.tmp");
    assert_eq!(tmp_file_name(None), ".entangle-file.tmp");
    assert_ne!(tmp_file_name(Some("a")), tmp_file_name(Some("b")));
    assert_eq!(SUPPRESS_MS, 50);
}

#[test]
fn widths_of_characters() {
    for c in ['a', '\u{7f}', 'é', '\u{7ff}', '你', '\u{ffff}', '🌍', '\u{10ffff}'] {
        assert_eq!(char_bytes(c) as usize, c.len_utf8());
    }
    let chars = chars_of("aé你🌍");
    assert_eq!(chars, vec!['a', 'é', '你', '🌍']);
    assert_eq!(span_bytes(&chars, 1, 3), 5);
    assert_eq!(span_bytes(&chars, 2, 2), 0);
}

#[test]
fn texts_are_compared_by_their_characters() {
    assert!(same_text("héllo", "héllo"));
    assert!(!same_text("héllo", "hello"));
    assert!(!same_text("a", "ab"));
    assert!(same_text("", ""));
}
