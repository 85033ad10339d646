use entangle::update::{check_entries, scan};

/// An update of client 5 that puts `text` into the root text `content`.
fn insertion(clock: u8, text: &str) -> Vec<u8> {
    let mut update = vec![1, 1, 5, clock, 4, 1, 7];
    update.extend_from_slice(b"content");
    update.push(text.len() as u8);
    update.extend_from_slice(text.as_bytes());
    update.push(0);
    update
}

const CLIENT: u64 = 5 << 32;

#[test]
fn a_text_is_one_block() {
    let found = scan(&insertion(3, "aé🌍b")).unwrap();
    assert_eq!(found.blocks.len(), 1);
    let block = found.blocks[0];
    assert_eq!((block.client, block.clock, block.len), (5, 3, 5));
    assert_eq!(block.bytes, 8);
    assert_eq!((block.left, block.right), (None, None));
    assert!(found.spans.is_empty());
    // The ends of the block, and where its characters begin.
    let cuts: Vec<u64> = [3, 8, 3, 4, 5, 7].iter().map(|n| CLIENT + n).collect();
    assert_eq!(found.cuts, cuts);
    // The globe is two units, the second of which is number 6.
    assert_eq!(found.halves, vec![CLIENT + 6]);
}

#[test]
fn neighbours_divide_what_they_stand_between() {
    let found = scan(&[1, 1, 5, 9, 4 | 128 | 64, 2, 4, 3, 6, 1, b'x', 0]).unwrap();
    let block = found.blocks[0];
    assert_eq!((block.left, block.right), (Some((2, 4)), Some((3, 6))));
    assert_eq!(
        found.cuts,
        vec![CLIENT + 9, CLIENT + 10, (2 << 32) + 5, (3 << 32) + 6, CLIENT + 9]
    );
}

#[test]
fn deletions_are_ranges() {
    let found = scan(&[0, 1, 5, 2, 0, 3, 7, 1]).unwrap();
    assert!(found.blocks.is_empty());
    let ranges: Vec<(u32, u32, u32)> =
        found.spans.iter().map(|s| (s.client, s.start, s.end)).collect();
    assert_eq!(ranges, vec![(5, 0, 3), (5, 7, 8)]);
    assert_eq!(found.cuts, vec![CLIENT, CLIENT + 3, CLIENT + 7, CLIENT + 8]);
}

#[test]
fn skipped_and_deleted_blocks() {
    // Four units that are gone, two that are left out, one that is deleted.
    let found = scan(&[1, 3, 5, 0, 0, 4, 10, 2, 1 | 128, 5, 3, 1, 0]).unwrap();
    let blocks: Vec<(u32, u32)> = found.blocks.iter().map(|b| (b.clock, b.len)).collect();
    assert_eq!(blocks, vec![(0, 4), (6, 1)]);
    assert!(found.blocks.iter().all(|b| b.bytes == 0));
}

#[test]
fn the_empty_update_is_sound() {
    let found = scan(&[0, 0]).unwrap();
    assert!(found.blocks.is_empty() && found.spans.is_empty());
    assert!(scan(&[]).is_none());
    assert!(scan(&[0]).is_none());
}

#[test]
fn entries_of_a_state_vector() {
    assert!(check_entries(&[0]));
    assert!(check_entries(&[1, 5, 3]));
    assert!(!check_entries(&[2, 5, 3]));
    assert!(!check_entries(&[]));
    assert!(!check_entries(&[0xff, 0xff, 0xff, 0xff, 0x0f, 5, 3]));
}
