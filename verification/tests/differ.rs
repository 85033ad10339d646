use entangle::differ::{
    compute_diff, edits_from_changes, join_changes, Change, ChangeTag, EditKind, EditOp,
};

/// Apply ops to `base` string, returning the result.
fn apply_ops(base: &str, ops: &[EditOp]) -> String {
    let mut chars: Vec<char> = base.chars().collect();
    for op in ops {
        let pos = op.pos as usize;
        match op.kind {
            EditKind::Delete => {
                let len = op.len as usize;
                chars.drain(pos..pos + len);
            }
            EditKind::Insert => {
                for (i, c) in op.content.chars().enumerate() {
                    chars.insert(pos + i, c);
                }
            }
        }
    }
    chars.into_iter().collect()
}

fn roundtrip(old: &str, new: &str) {
    let ops = compute_diff(old, new);
    let result = apply_ops(old, &ops);
    assert_eq!(
        result, new,
        "roundtrip failed: old={old:?} new={new:?} ops={ops:?}"
    );
}

/// A reproducible stream of numbers.
struct Numbers(u64);

impl Numbers {
    fn below(&mut self, limit: u64) -> u64 {
        self.0 = self
            .0
            .wrapping_mul(6364136223846793005)
            .wrapping_add(1442695040888963407);
        (self.0 >> 33) % limit
    }

    fn text(&mut self, alphabet: &[char], max_len: u64) -> String {
        let len = self.below(max_len + 1);
        (0..len)
            .map(|_| alphabet[self.below(alphabet.len() as u64) as usize])
            .collect()
    }
}

#[test]
fn empty_to_nonempty() {
    roundtrip("", "hello");
}

#[test]
fn nonempty_to_empty() {
    roundtrip("hello", "");
}

#[test]
fn identical_returns_no_ops() {
    assert!(compute_diff("hello", "hello").is_empty());
}

#[test]
fn single_char_insert() {
    roundtrip("hllo", "hello");
}

#[test]
fn single_char_delete() {
    roundtrip("hello", "hllo");
}

#[test]
fn replace_word() {
    roundtrip("hello world", "hello beautiful world");
}

#[test]
fn replace_at_start() {
    roundtrip("hello world", "hi world");
}

#[test]
fn replace_at_end() {
    roundtrip("hello world", "hello earth");
}

#[test]
fn full_replace() {
    roundtrip("hello", "world");
}

#[test]
fn multiline() {
    roundtrip("line1\nline2\nline3", "line1\nmodified\nline3");
}

#[test]
fn prepend_lines() {
    roundtrip("b\nc\n", "a\nb\nc\n");
}

#[test]
fn append_lines() {
    roundtrip("a\nb\n", "a\nb\nc\n");
}

#[test]
fn unicode_multibyte() {
    // CJK characters are a single Unicode scalar each
    roundtrip("你好", "你好世界");
    roundtrip("hello", "héllo");
}

#[test]
fn emoji() {
    roundtrip("hi 🌍", "hi 🌍!");
    roundtrip("a🎉b", "a🎊b");
}

#[test]
fn large_document_append() {
    let old: String = "a".repeat(10_000);
    let new = format!("{old}EXTRA");
    roundtrip(&old, &new);
}

#[test]
fn large_document_prefix_insert() {
    let base: String = "z".repeat(5_000);
    let new = format!("PREFIX{base}");
    roundtrip(&base, &new);
}

#[test]
fn diff_roundtrip_ascii() {
    let printable: Vec<char> = (' '..='~').collect();
    let mut numbers = Numbers(1);
    for _ in 0..200 {
        let old = numbers.text(&printable, 200);
        let new = numbers.text(&printable, 200);
        roundtrip(&old, &new);
    }
}

#[test]
fn diff_roundtrip_unicode() {
    let mixed: Vec<char> = "aé你🌍\u{10ffff}\u{301}b\nßц".chars().collect();
    let mut numbers = Numbers(2);
    for _ in 0..200 {
        let old = numbers.text(&mixed, 100);
        let new = numbers.text(&mixed, 100);
        roundtrip(&old, &new);
    }
}

#[test]
fn one_inserted_char_is_one_insert_at_its_position() {
    let ops = compute_diff("hllo", "hello");
    assert_eq!(ops.len(), 1);
    assert_eq!(ops[0].kind, EditKind::Insert);
    assert_eq!(ops[0].pos, 1);
    assert_eq!(ops[0].content, "e");
    assert_eq!(ops[0].len, 0);
}

#[test]
fn deletes_do_not_move_the_position() {
    let ops = compute_diff("abcde", "ace");
    let seen: Vec<(EditKind, u32, u32)> =
        ops.iter().map(|op| (op.kind.clone(), op.pos, op.len)).collect();
    assert_eq!(seen, vec![(EditKind::Delete, 1, 1), (EditKind::Delete, 2, 1)]);
    assert!(ops.iter().all(|op| op.content.is_empty()));
}

fn inserted(pos: u32, content: &str) -> (EditKind, u32, String, u32) {
    (EditKind::Insert, pos, content.to_string(), 0)
}

fn deleted(pos: u32, len: u32) -> (EditKind, u32, String, u32) {
    (EditKind::Delete, pos, String::new(), len)
}

fn diff(old: &str, new: &str) -> Vec<(EditKind, u32, String, u32)> {
    compute_diff(old, new)
        .into_iter()
        .map(|op| (op.kind, op.pos, op.content, op.len))
        .collect()
}

#[test]
fn neighbouring_characters_are_one_edit() {
    assert_eq!(
        diff("hello world", "hello beautiful world"),
        vec![inserted(6, "beautiful ")]
    );
    assert_eq!(diff("hello world", "hi world"), vec![deleted(1, 4), inserted(1, "i")]);
    assert_eq!(diff("abcde", "ace"), vec![deleted(1, 1), deleted(2, 1)]);
    assert_eq!(diff("你好", "你好世界"), vec![inserted(2, "世界")]);
    assert_eq!(diff("", "hello"), vec![inserted(0, "hello")]);
    assert_eq!(diff("hello", ""), vec![deleted(0, 5)]);
}

#[test]
fn every_edit_does_something() {
    let mixed: Vec<char> = "aé你🌍b\n".chars().collect();
    let mut numbers = Numbers(6);
    for _ in 0..200 {
        let old = numbers.text(&mixed, 40);
        let new = numbers.text(&mixed, 40);
        for (kind, _, content, len) in diff(&old, &new) {
            match kind {
                EditKind::Insert => assert!(!content.is_empty() && len == 0),
                EditKind::Delete => assert!(content.is_empty() && len > 0),
            }
        }
    }
}

#[test]
fn changes_of_one_tag_are_joined() {
    let change = |tag: ChangeTag, value: &str| Change { tag, value: value.to_string() };
    let joined = join_changes(&vec![
        change(ChangeTag::Equal, "a"),
        change(ChangeTag::Insert, "é"),
        change(ChangeTag::Insert, "x"),
        change(ChangeTag::Insert, ""),
        change(ChangeTag::Delete, "b"),
        change(ChangeTag::Delete, "c"),
        change(ChangeTag::Equal, "d"),
        change(ChangeTag::Equal, "e"),
    ]);
    let seen: Vec<(bool, bool, String)> = joined
        .into_iter()
        .map(|c| {
            let equal = matches!(c.tag, ChangeTag::Equal);
            let insert = matches!(c.tag, ChangeTag::Insert);
            (equal, insert, c.value)
        })
        .collect();
    assert_eq!(
        seen,
        vec![
            (true, false, "a".to_string()),
            (false, true, "éx".to_string()),
            (false, false, "bc".to_string()),
            (true, false, "de".to_string()),
        ]
    );
}

#[test]
fn positions_count_scalars_not_bytes() {
    let ops = compute_diff("你好", "你好世");
    assert_eq!(ops.len(), 1);
    assert_eq!(ops[0].pos, 2);
    assert_eq!(ops[0].content, "世");
}

#[test]
fn changes_become_edits_in_the_current_frame() {
    let change = |tag: ChangeTag, value: &str| Change { tag, value: value.to_string() };
    let changes = vec![
        change(ChangeTag::Equal, "ab"),
        change(ChangeTag::Delete, "cd"),
        change(ChangeTag::Insert, "é"),
        change(ChangeTag::Insert, "xy"),
        change(ChangeTag::Equal, "z"),
        change(ChangeTag::Delete, "q"),
    ];
    let ops = edits_from_changes(&changes);
    let seen: Vec<(EditKind, u32, String, u32)> = ops
        .iter()
        .map(|op| (op.kind.clone(), op.pos, op.content.clone(), op.len))
        .collect();
    assert_eq!(
        seen,
        vec![
            (EditKind::Delete, 2, String::new(), 2),
            (EditKind::Insert, 2, "é".to_string(), 0),
            (EditKind::Insert, 3, "xy".to_string(), 0),
            (EditKind::Delete, 6, String::new(), 1),
        ]
    );
    assert_eq!(apply_ops("abcdzq", &ops), "abéxyz");
}
