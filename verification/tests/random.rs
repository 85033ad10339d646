use std::collections::BTreeSet;

use entangle::crdt::CrdtEngine;
use entangle::protocol::{read_varint, write_varint};
use entangle::update::scan;

/// A reproducible stream of numbers.
struct Numbers(u64);

impl Numbers {
    fn below(&mut self, limit: u64) -> u64 {
        self.0 = self
            .0
            .wrapping_mul(6364136223846793005)
            .wrapping_add(1442695040888963407);
        (self.0 >> 33) % limit
    }

    fn pick<T: Copy>(&mut self, items: &[T]) -> T {
        items[self.below(items.len() as u64) as usize]
    }
}

/// The units that an engine has.
fn units_of(engine: &CrdtEngine) -> BTreeSet<(u64, u64)> {
    let sv = engine.state_vector_bytes();
    let mut pos = 0;
    let entries = read_varint(&sv, &mut pos).unwrap();
    let mut units = BTreeSet::new();
    for _ in 0..entries {
        let client = read_varint(&sv, &mut pos).unwrap();
        let clock = read_varint(&sv, &mut pos).unwrap();
        units.extend((0..clock).map(|n| (client, n)));
    }
    units
}

/// The text with an insertion or a deletion somewhere.
fn changed(text: &str, numbers: &mut Numbers) -> String {
    let mut chars: Vec<char> = text.chars().collect();
    let at = numbers.below(chars.len() as u64 + 1) as usize;
    if numbers.below(3) > 0 || at == chars.len() {
        for _ in 0..1 + numbers.below(3) {
            chars.insert(at, numbers.pick(&['a', 'b', '🌍', 'é', '你', 'c']));
        }
    } else {
        let end = (at + 1 + numbers.below(3) as usize).min(chars.len());
        chars.drain(at..end);
    }
    chars.into_iter().collect()
}

#[test]
fn sessions_converge_whatever_arrives_first() {
    let mut numbers = Numbers(11);
    for _ in 0..300 {
        let mut engines: Vec<CrdtEngine> = (0..3).map(|_| CrdtEngine::new()).collect();
        engines[0].seed("hello 🌍");
        let mut updates = vec![engines[0].encode_state_as_update(&[0])];
        for _ in 0..12 {
            let i = numbers.below(3) as usize;
            match numbers.below(4) {
                0 | 1 => {
                    let text = changed(engines[i].current_text(), &mut numbers);
                    assert!(engines[i].accepts_edit(&text));
                    updates.extend(engines[i].apply_local_edit(&text));
                }
                2 => {
                    let asked = engines[numbers.below(3) as usize].state_vector_bytes();
                    updates.push(engines[i].encode_state_as_update(&asked));
                }
                _ => {
                    let k = numbers.below(updates.len() as u64) as usize;
                    engines[i].apply_remote_update(&updates[k]).unwrap();
                }
            }
        }
        engines.push(CrdtEngine::new());
        for engine in engines.iter_mut() {
            let mut left = updates.clone();
            while !left.is_empty() {
                let update = left.remove(numbers.below(left.len() as u64) as usize);
                engine.apply_remote_update(&update).unwrap();
            }
        }
        for engine in &engines {
            assert_eq!(engine.current_text(), engines[0].current_text());
            assert_eq!(units_of(engine), units_of(&engines[0]));
            let mut peer = CrdtEngine::new();
            let all = engine.encode_state_as_update(&peer.state_vector_bytes());
            peer.apply_remote_update(&all).unwrap();
            assert_eq!(peer.current_text(), engine.current_text());
        }
    }
}

/// A block with content and neighbours of any kind.
fn push_block(update: &mut Vec<u8>, numbers: &mut Numbers) {
    let kind: u8 = numbers.pick(&[0, 10, 4, 4, 4, 4, 1, 5, 6, 8, 3]);
    if kind == 0 || kind == 10 {
        update.push(kind);
        write_varint(update, 1 + numbers.below(3));
        return;
    }
    let neighbours = [numbers.below(2) > 0, numbers.below(3) == 0];
    update.push(kind | u8::from(neighbours[0]) << 7 | u8::from(neighbours[1]) << 6);
    for there in neighbours {
        if there {
            write_varint(update, 1 + numbers.below(3));
            write_varint(update, numbers.below(4));
        }
    }
    if neighbours == [false, false] {
        update.extend_from_slice(&[1, 7]);
        update.extend_from_slice(b"content");
    }
    match kind {
        4 => {
            let text = numbers.pick(&["a", "bc", "🌍", "d🌍", "é", "xyz"]);
            update.push(text.len() as u8);
            update.extend_from_slice(text.as_bytes());
        }
        1 => write_varint(update, 1 + numbers.below(3)),
        5 => update.extend_from_slice(&[1, b'1']),
        6 => update.extend_from_slice(&[1, b'b', 4, b't', b'r', b'u', b'e']),
        8 => update.extend_from_slice(&[2, 126, 126]),
        _ => update.extend_from_slice(&[2, 1, 2]),
    }
}

/// An update that nobody made.
fn invented(numbers: &mut Numbers) -> Vec<u8> {
    let clients = numbers.below(3);
    let mut update = vec![clients as u8];
    for _ in 0..clients {
        let blocks = 1 + numbers.below(3);
        write_varint(&mut update, blocks);
        write_varint(&mut update, 1 + numbers.below(3));
        write_varint(&mut update, numbers.below(3) * numbers.below(3));
        for _ in 0..blocks {
            push_block(&mut update, numbers);
        }
    }
    let deleted = numbers.below(3) / 2;
    write_varint(&mut update, deleted);
    for client in 0..deleted {
        write_varint(&mut update, 1 + client);
        update.extend_from_slice(&[1, numbers.below(4) as u8, 1 + numbers.below(2) as u8]);
    }
    update
}

#[test]
fn invented_updates_are_taken_whole_or_not_at_all() {
    let mut numbers = Numbers(5);
    let mut taken = 0;
    for _ in 0..4_000 {
        let mut engine = CrdtEngine::new();
        let mut given: Vec<BTreeSet<(u64, u64)>> = Vec::new();
        for _ in 0..8 {
            let update = invented(&mut numbers);
            let Some(found) = scan(&update) else { continue };
            if engine.apply_remote_update(&update).is_err() {
                continue;
            }
            let mut carried = BTreeSet::new();
            for block in &found.blocks {
                let clocks = block.clock..block.clock + block.len;
                carried.extend(clocks.map(|n| (u64::from(block.client), u64::from(n))));
            }
            given.push(carried);
            let units = units_of(&engine);
            let expected: BTreeSet<(u64, u64)> =
                given.iter().filter(|ids| ids.is_subset(&units)).flatten().copied().collect();
            assert_eq!(units, expected);
            taken += units.len();
            // The same once more changes nothing.
            let text = engine.current_text().to_string();
            assert_eq!(engine.apply_remote_update(&update).unwrap(), None);
            assert_eq!((engine.current_text(), units_of(&engine)), (text.as_str(), units));
        }
        for asked in [vec![0], vec![1, 1, 1], vec![2, 1, 2, 2, 1]] {
            let reply = engine.encode_state_as_update(&asked);
            let _ = CrdtEngine::new().apply_remote_update(&reply);
        }
        let edit = format!("q{}w", engine.current_text());
        if engine.accepts_edit(&edit) {
            engine.apply_local_edit(&edit).unwrap();
            let update = engine.apply_local_edit("z").unwrap();
            assert_eq!(engine.apply_remote_update(&update).unwrap(), None);
            assert_eq!(engine.current_text(), "z");
        }
    }
    assert!(taken > 1_000, "{taken}");
}
