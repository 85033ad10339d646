use entangle::crdt::{CrdtEngine, RemoteUpdateError};
use entangle::protocol::{read_varint, write_varint};

#[test]
fn seed_and_read() {
    let mut engine = CrdtEngine::new();
    engine.seed("hello world");
    assert_eq!(engine.current_text(), "hello world");
}

#[test]
fn local_edit_produces_update() {
    let mut engine = CrdtEngine::new();
    engine.seed("hello");
    let update = engine.apply_local_edit("hello world");
    assert!(update.is_some());
    assert_eq!(engine.current_text(), "hello world");
}

#[test]
fn identical_edit_produces_no_update() {
    let mut engine = CrdtEngine::new();
    engine.seed("hello");
    assert!(engine.apply_local_edit("hello").is_none());
}

#[test]
fn remote_update_round_trip() {
    let mut a = CrdtEngine::new();
    let mut b = CrdtEngine::new();

    a.seed("hello");
    let sv_b = b.state_vector_bytes();
    // Encode A's full state as an update for B (who has nothing)
    let update = a.encode_state_as_update(&sv_b);

    let new_text = b.apply_remote_update(&update).unwrap();
    assert_eq!(new_text, Some("hello".to_string()));
    assert_eq!(b.current_text(), "hello");
}

#[test]
fn two_peer_convergence() {
    let mut a = CrdtEngine::new();
    let mut b = CrdtEngine::new();

    // Sync A → B: A has "hello"
    a.seed("hello");
    let a_sv = a.state_vector_bytes();
    let b_sv = b.state_vector_bytes();

    // A sends its state to B
    let a_to_b = a.encode_state_as_update(&b_sv);
    b.apply_remote_update(&a_to_b).unwrap();

    // B sends its state back to A
    let b_to_a = b.encode_state_as_update(&a_sv);
    a.apply_remote_update(&b_to_a).unwrap();

    // Now both have "hello". A makes a local edit.
    let a_update = a.apply_local_edit("hello world").unwrap();

    // B applies A's incremental update
    let new_text = b.apply_remote_update(&a_update).unwrap();
    assert_eq!(new_text, Some("hello world".to_string()));
    assert_eq!(a.current_text(), b.current_text());
}

#[test]
fn concurrent_edits_converge() {
    let mut a = CrdtEngine::new();
    let mut b = CrdtEngine::new();

    // Both start with "hello world"
    a.seed("hello world");
    let a_to_b = a.encode_state_as_update(&b.state_vector_bytes());
    b.apply_remote_update(&a_to_b).unwrap();

    // A inserts at start, B inserts at end - concurrently
    let a_update = a.apply_local_edit("!! hello world").unwrap();
    let b_update = b.apply_local_edit("hello world !!").unwrap();

    // Cross-apply
    a.apply_remote_update(&b_update).unwrap();
    b.apply_remote_update(&a_update).unwrap();

    // Both should converge to the same text (exact text depends on CRDT
    // merge, but they must be identical)
    assert_eq!(a.current_text(), b.current_text());
}

#[test]
fn state_vector_sync_protocol() {
    let mut sharer = CrdtEngine::new();
    let mut joiner = CrdtEngine::new();

    sharer.seed("shared content");

    // Joiner sends SyncStep1 (empty SV)
    let joiner_sv = joiner.state_vector_bytes();

    // Sharer replies with SyncStep2
    let step2 = sharer.encode_state_as_update(&joiner_sv);
    let result = joiner.apply_remote_update(&step2).unwrap();
    assert_eq!(result, Some("shared content".to_string()));
}

/// A reproducible stream of numbers.
struct Numbers(u64);

impl Numbers {
    fn below(&mut self, limit: u64) -> u64 {
        self.0 = self
            .0
            .wrapping_mul(6364136223846793005)
            .wrapping_add(1442695040888963407);
        (self.0 >> 33) % limit
    }

    fn text(&mut self, alphabet: &[char], max_len: u64) -> String {
        let len = self.below(max_len + 1);
        (0..len)
            .map(|_| alphabet[self.below(alphabet.len() as u64) as usize])
            .collect()
    }
}

fn printable() -> Vec<char> {
    (' '..='~').collect()
}

fn mixed() -> Vec<char> {
    "aé你🌍\u{10ffff}\u{301}b\nßц".chars().collect()
}

/// What the replicated text of `engine` is, as a new peer sees it.
fn replicated_text(engine: &CrdtEngine) -> String {
    let mut peer = CrdtEngine::new();
    let update = engine.encode_state_as_update(&peer.state_vector_bytes());
    peer.apply_remote_update(&update).unwrap();
    peer.current_text().to_string()
}

/// Two peers that share `initial`.
fn two_peers(initial: &str) -> (CrdtEngine, CrdtEngine) {
    let mut a = CrdtEngine::new();
    let mut b = CrdtEngine::new();
    a.seed(initial);
    let a_to_b = a.encode_state_as_update(&b.state_vector_bytes());
    b.apply_remote_update(&a_to_b).unwrap();
    (a, b)
}

#[test]
fn crdt_roundtrip() {
    let mut numbers = Numbers(3);
    for alphabet in [printable(), mixed()] {
        for _ in 0..100 {
            let old = numbers.text(&alphabet, 100);
            let new = numbers.text(&alphabet, 100);
            let mut engine = CrdtEngine::new();
            engine.seed(&old);
            assert!(engine.accepts_edit(&new));
            let update = engine.apply_local_edit(&new);
            assert_eq!(update.is_none(), old == new);
            assert_eq!(engine.current_text(), new);
            assert_eq!(replicated_text(&engine), new);
        }
    }
}

#[test]
fn two_peers_converge_on_random_edits() {
    let mut numbers = Numbers(4);
    for alphabet in [printable(), mixed()] {
        for _ in 0..60 {
            let initial = numbers.text(&alphabet, 80);
            let edit_a = numbers.text(&alphabet, 80);
            let edit_b = numbers.text(&alphabet, 80);
            let (mut a, mut b) = two_peers(&initial);
            let update_a = a.apply_local_edit(&edit_a);
            let update_b = b.apply_local_edit(&edit_b);
            if let Some(ua) = update_a {
                b.apply_remote_update(&ua).unwrap();
            }
            if let Some(ub) = update_b {
                a.apply_remote_update(&ub).unwrap();
            }
            assert_eq!(a.current_text(), b.current_text());
            assert_eq!(replicated_text(&a), a.current_text());
        }
    }
}

#[test]
fn edits_after_multibyte_text_land_where_they_should() {
    let (mut a, mut b) = two_peers("你好 🌍 world");
    let update = a.apply_local_edit("你们好 🌍, world!").unwrap();
    assert_eq!(
        b.apply_remote_update(&update).unwrap(),
        Some("你们好 🌍, world!".to_string())
    );
    assert_eq!(replicated_text(&a), "你们好 🌍, world!");
}

#[test]
fn a_new_engine_is_empty() {
    let engine = CrdtEngine::default();
    assert_eq!(engine.current_text(), "");
    assert_eq!(engine.snapshot, "");
}

#[test]
fn seeding_nothing_changes_nothing() {
    let mut engine = CrdtEngine::new();
    engine.seed("");
    assert_eq!(engine.current_text(), "");
    assert_eq!(engine.state_vector_bytes(), CrdtEngine::new().state_vector_bytes());
}

#[test]
fn seeding_again_puts_text_in_front() {
    let mut engine = CrdtEngine::new();
    engine.seed("one");
    engine.seed("two");
    assert_eq!(engine.current_text(), "two");
    assert_eq!(replicated_text(&engine), "twoone");
    engine.apply_local_edit("three").unwrap();
    assert_eq!(engine.current_text(), "three");
    assert_eq!(replicated_text(&engine), "threeone");
}

#[test]
fn bytes_that_are_no_update_are_refused() {
    let mut engine = CrdtEngine::new();
    engine.seed("hello");
    let sv = engine.state_vector_bytes();
    let error = engine.apply_remote_update(&[0xff, 0xff, 0xff]).unwrap_err();
    assert!(matches!(error, RemoteUpdateError::Decode(_)));
    assert_eq!(error.message(), "failed to decode remote update");
    assert_eq!(engine.current_text(), "hello");
    assert_eq!(engine.state_vector_bytes(), sv);
}

#[test]
fn an_update_that_comes_twice_changes_nothing() {
    let (mut a, mut b) = two_peers("hello");
    let update = a.apply_local_edit("hello world").unwrap();
    assert!(b.apply_remote_update(&update).unwrap().is_some());
    assert_eq!(b.apply_remote_update(&update).unwrap(), None);
    assert_eq!(b.current_text(), "hello world");
}

#[test]
fn updates_can_come_in_either_order() {
    let (mut a, mut b) = two_peers("hello world");
    let (mut c, mut d) = (CrdtEngine::new(), CrdtEngine::new());
    for peer in [&mut c, &mut d] {
        let all = a.encode_state_as_update(&peer.state_vector_bytes());
        peer.apply_remote_update(&all).unwrap();
    }
    let from_a = a.apply_local_edit("hello brave world").unwrap();
    let from_b = b.apply_local_edit("hello world.").unwrap();
    c.apply_remote_update(&from_a).unwrap();
    c.apply_remote_update(&from_b).unwrap();
    d.apply_remote_update(&from_b).unwrap();
    d.apply_remote_update(&from_a).unwrap();
    assert_eq!(c.current_text(), d.current_text());
    assert_eq!(c.current_text(), "hello brave world.");
}

#[test]
fn peers_that_edited_apart_sync_both_ways() {
    let (mut a, mut b) = two_peers("shared\n");
    a.apply_local_edit("shared\nfrom a\n").unwrap();
    a.apply_local_edit("shared\nfrom a, twice\n").unwrap();
    b.apply_local_edit("from b\nshared\n").unwrap();
    let to_a = b.encode_state_as_update(&a.state_vector_bytes());
    let to_b = a.encode_state_as_update(&b.state_vector_bytes());
    a.apply_remote_update(&to_a).unwrap();
    b.apply_remote_update(&to_b).unwrap();
    assert_eq!(a.current_text(), b.current_text());
    assert_eq!(a.current_text(), "from b\nshared\nfrom a, twice\n");
}

#[test]
fn a_peer_that_lacks_nothing_gets_no_new_text() {
    let (a, mut b) = two_peers("hello");
    let nothing = a.encode_state_as_update(&b.state_vector_bytes());
    assert_eq!(b.apply_remote_update(&nothing).unwrap(), None);
}

#[test]
fn unreadable_state_vector_is_taken_as_empty() {
    let mut a = CrdtEngine::new();
    a.seed("hello");
    let all = a.encode_state_as_update(&[0xff, 0xff]);
    let mut b = CrdtEngine::new();
    assert_eq!(b.apply_remote_update(&all).unwrap(), Some("hello".to_string()));
}

#[test]
fn deletions_reach_a_peer() {
    let (mut a, mut b) = two_peers("héllo 🌍");
    let update = a.apply_local_edit("").unwrap();
    assert_eq!(b.apply_remote_update(&update).unwrap(), Some(String::new()));
    assert_eq!(b.current_text(), "");
}

#[test]
fn adopted_text_is_reported_if_new() {
    let mut engine = CrdtEngine::new();
    engine.seed("one");
    assert_eq!(engine.adopt_text("one".to_string()), None);
    assert_eq!(engine.adopt_text("two".to_string()), Some("two".to_string()));
    assert_eq!(engine.current_text(), "two");
    // The replicated text is still "one".
    assert!(!engine.accepts_edit("three"));
}

#[test]
fn small_texts_have_room() {
    let mut engine = CrdtEngine::new();
    assert!(engine.has_room_for("hello"));
    engine.seed("hello");
    assert!(engine.has_room_for(" world"));
    assert!(engine.accepts_edit("hello world"));
}

/// The start of an update with one client, `blocks` blocks and no clock yet.
fn update_start(blocks: u8, client: u8, clock: &[u8]) -> Vec<u8> {
    let mut update = vec![1, blocks, client];
    update.extend_from_slice(clock);
    update
}

/// The first byte of a block that stands in the root text, and that text's name.
fn in_root(kind: u8) -> Vec<u8> {
    let mut bytes = vec![kind, 1, 7];
    bytes.extend_from_slice(b"content");
    bytes
}

fn refused(update: &[u8]) {
    let mut engine = CrdtEngine::new();
    engine.seed("hello");
    let error = engine.apply_remote_update(update).unwrap_err();
    assert!(matches!(error, RemoteUpdateError::Decode(_)));
    assert_eq!(engine.current_text(), "hello");
    assert!(engine.apply_local_edit("hello!").is_some());
    assert_eq!(replicated_text(&engine), "hello!");
}

#[test]
fn a_block_inside_another_is_refused() {
    // A client's "a" in the root text, and its "b" inside that "a".
    let mut update = update_start(2, 1, &[0]);
    update.extend(in_root(4));
    update.extend_from_slice(&[1, b'a', 4, 0, 1, 0, 1, b'b', 0]);
    refused(&update);
}

#[test]
fn a_list_that_is_longer_than_the_data_is_refused() {
    let mut update = update_start(1, 1, &[0]);
    update.extend(in_root(8));
    update.extend_from_slice(&[0xff, 0xff, 0xff, 0xff, 0x0f, 126, 0]);
    refused(&update);
    // A list inside a value.
    let mut update = update_start(1, 1, &[0]);
    update.extend(in_root(8));
    update.extend_from_slice(&[1, 117, 0xff, 0xff, 0xff, 0xff, 0x0f, 126, 0]);
    refused(&update);
}

#[test]
fn deeply_nested_values_are_refused() {
    let nested = |depth: usize| {
        let mut update = update_start(1, 1, &[0]);
        update.extend(in_root(8));
        update.push(1);
        for _ in 0..depth {
            update.extend_from_slice(&[117, 1]);
        }
        update.extend_from_slice(&[126, 0]);
        update
    };
    refused(&nested(100));
    refused(&nested(100_000));
    let mut engine = CrdtEngine::new();
    engine.seed("hello");
    assert_eq!(engine.apply_remote_update(&nested(10)).unwrap(), None);
}

#[test]
fn clocks_beyond_the_limit_are_refused() {
    let mut update = update_start(1, 1, &[0xff, 0xff, 0xff, 0xff, 0x0f]);
    update.extend_from_slice(&[0, 5, 0]);
    refused(&update);
}

#[test]
fn a_neighbour_that_was_made_later_is_refused() {
    let mut update = update_start(1, 1, &[0]);
    update.extend_from_slice(&[4 | 128, 1, 5, 1, b'a', 0]);
    refused(&update);
}

#[test]
fn text_that_is_not_utf8_is_refused() {
    let mut update = update_start(1, 1, &[0]);
    update.extend(in_root(4));
    update.extend_from_slice(&[2, 0xc3, 0x28, 0]);
    refused(&update);
}

#[test]
fn empty_ranges_are_refused() {
    refused(&[1, 1, 1, 0, 0, 0, 0]);
    refused(&[0, 1, 1, 1, 0, 0]);
}

/// One block of a client in the root text, and what comes before it.
fn one_block(client: u8, clock: u8, text: u8) -> Vec<u8> {
    let mut bytes = vec![1, client, clock];
    bytes.extend(in_root(4));
    bytes.extend_from_slice(&[1, text]);
    bytes
}

/// An update with the blocks of two clients.
fn two_clients(first: Vec<u8>, second: Vec<u8>) -> Vec<u8> {
    let mut bytes = vec![2];
    bytes.extend(first);
    bytes.extend(second);
    bytes.push(0);
    bytes
}

#[test]
fn a_client_without_blocks_is_refused() {
    refused(&two_clients(vec![0, 9, 0], one_block(3, 0, b'a')));
}

#[test]
fn clients_can_be_listed_in_any_order() {
    for update in [
        two_clients(one_block(4, 0, b'b'), one_block(3, 0, b'a')),
        two_clients(one_block(3, 0, b'a'), one_block(4, 0, b'b')),
    ] {
        let mut engine = CrdtEngine::new();
        let changed = engine.apply_remote_update(&update).unwrap();
        assert_eq!(changed, Some("ab".to_string()));
    }
}

#[test]
fn blocks_are_taken_in_the_order_in_which_they_are_listed() {
    // The second unit of a client before its first one.
    let backwards = two_clients(one_block(3, 1, b'b'), one_block(3, 0, b'a'));
    let mut engine = CrdtEngine::new();
    assert_eq!(engine.apply_remote_update(&backwards).unwrap(), None);
    assert_eq!(engine.current_text(), "");
    let first = {
        let mut bytes = vec![1];
        bytes.extend(one_block(3, 0, b'a'));
        bytes.push(0);
        bytes
    };
    assert!(engine.apply_remote_update(&first).unwrap().is_some());
    assert_eq!(engine.current_text().len(), 2);
}

#[test]
fn an_update_whose_blocks_wait_for_each_other_waits() {
    let mut hello = update_start(1, 1, &[0]);
    hello.extend(in_root(4));
    hello.push(5);
    hello.extend_from_slice(b"hello");
    hello.push(0);
    // Client 2 waits for the last unit of client 1, whose first block, which is
    // there already, is said to wait for client 2.
    let mut circle = vec![2, 1, 2, 0, 0x84, 1, 5, 1, b'x', 2, 1, 0, 0x84, 2, 0, 5];
    circle.extend_from_slice(b"hello");
    circle.extend_from_slice(&[0x84, 1, 4, 1, b'w', 0]);
    let mut engine = CrdtEngine::new();
    engine.apply_remote_update(&hello).unwrap();
    let sv = engine.state_vector_bytes();
    assert_eq!(engine.apply_remote_update(&circle).unwrap(), None);
    assert_eq!(engine.current_text(), "hello");
    assert_eq!(engine.state_vector_bytes(), sv);
    assert_eq!(sv, vec![1, 1, 5]);
}

#[test]
fn entries_of_a_map_are_refused() {
    let name = |update: &mut Vec<u8>, kind: u8| {
        update.extend_from_slice(&[kind, 1, 7]);
        update.extend_from_slice(b"content");
    };
    // An "a", an entry "k" beside it, a "b" between the two, and an object.
    let mut update = vec![1, 4, 9, 0];
    name(&mut update, 4);
    update.extend_from_slice(&[1, b'a']);
    name(&mut update, 0x28);
    update.extend_from_slice(&[1, b'k', 1, 126, 0xc4, 9, 0, 9, 1, 1, b'b']);
    name(&mut update, 5);
    update.extend_from_slice(&[1, b'1', 0]);
    refused(&update);
    let mut engine = CrdtEngine::new();
    assert!(engine.apply_remote_update(&update).is_err());
    assert!(engine.accepts_edit("bc"));
    engine.apply_local_edit("bc").unwrap();
    assert_eq!(replicated_text(&engine), "bc");
}

#[test]
fn other_roots_are_refused() {
    let mut update = update_start(1, 1, &[0]);
    update.extend_from_slice(&[4, 1, 5]);
    update.extend_from_slice(b"other");
    update.extend_from_slice(&[1, b'a', 0]);
    refused(&update);
}

#[test]
fn a_client_listed_twice_among_the_deletions_is_refused() {
    refused(&[0, 2, 1, 1, 0, 1, 1, 1, 1, 1]);
}

#[test]
fn an_object_in_the_text_stops_edits() {
    let mut update = update_start(1, 1, &[0]);
    update.extend(in_root(5));
    update.extend_from_slice(&[1, b'1', 0]);
    let mut engine = CrdtEngine::new();
    assert_eq!(engine.apply_remote_update(&update).unwrap(), None);
    assert!(!engine.accepts_edit("a"));
    assert!(engine.has_room_for("a"));
    engine.seed("a");
    assert_eq!(engine.current_text(), "a");
    assert!(!engine.accepts_edit("ab"));
}

#[test]
fn nested_types_are_refused() {
    let mut update = update_start(1, 1, &[0]);
    update.extend(in_root(7));
    update.extend_from_slice(&[2, 0]);
    refused(&update);
}

#[test]
fn every_cut_of_an_update_is_refused() {
    let (mut a, b) = two_peers("hello 🌍");
    let update = a.apply_local_edit("héllo 🌎").unwrap();
    for end in 0..update.len() {
        refused(&update[..end]);
    }
    let all = b.encode_state_as_update(&[0]);
    for end in 0..all.len() {
        refused(&all[..end]);
    }
}

/// The only client of an engine.
fn client_of(engine: &CrdtEngine) -> u64 {
    let sv = engine.state_vector_bytes();
    let mut pos = 0;
    assert_eq!(read_varint(&sv, &mut pos), Some(1));
    read_varint(&sv, &mut pos).unwrap()
}

/// An update of client 7 with the text `x` behind the unit `clock` of `client`.
fn x_behind(client: u64, clock: u64) -> Vec<u8> {
    let mut update = update_start(1, 7, &[0]);
    update.push(4 | 128);
    write_varint(&mut update, client);
    write_varint(&mut update, clock);
    update.extend_from_slice(&[1, b'x', 0]);
    update
}

#[test]
fn a_text_of_a_peer_lands_behind_its_neighbour() {
    let mut a = CrdtEngine::new();
    a.seed("a🌍b");
    let update = x_behind(client_of(&a), 2);
    assert_eq!(a.apply_remote_update(&update).unwrap(), Some("a🌍xb".to_string()));
}

#[test]
fn an_update_that_divides_a_character_waits() {
    let mut a = CrdtEngine::new();
    a.seed("a🌍b");
    let divides = x_behind(client_of(&a), 1);
    assert_eq!(a.apply_remote_update(&divides).unwrap(), None);
    assert_eq!(a.current_text(), "a🌍b");
    // A deletion of half a character.
    let mut deletes = vec![0, 1];
    write_varint(&mut deletes, client_of(&a));
    deletes.extend_from_slice(&[1, 2, 1]);
    assert_eq!(a.apply_remote_update(&deletes).unwrap(), None);
    assert_eq!(a.current_text(), "a🌍b");
    assert!(a.apply_local_edit("a🌎b").is_some());
    assert_eq!(replicated_text(&a), "a🌎b");
}

#[test]
fn texts_that_disagree_about_their_characters_do_not_mix() {
    // Client 7 is said to have made "abc", and "a🌍".
    let text = |content: &str| {
        let mut update = update_start(1, 7, &[0]);
        update.extend(in_root(4));
        update.push(content.len() as u8);
        update.extend_from_slice(content.as_bytes());
        update.push(0);
        update
    };
    let mut a = CrdtEngine::new();
    a.apply_remote_update(&text("abc")).unwrap();
    assert_eq!(a.apply_remote_update(&text("a🌍")).unwrap(), None);
    assert!(a.apply_local_edit("abxc").is_some());
    assert_eq!(a.apply_remote_update(&text("a🌍")).unwrap(), None);
    assert_eq!(replicated_text(&a), "abxc");
    // Texts with the same boundaries are told apart by who came first.
    let mut b = CrdtEngine::new();
    b.apply_remote_update(&text("a🌍")).unwrap();
    assert_eq!(b.apply_remote_update(&text("x🌎")).unwrap(), None);
    assert_eq!(b.current_text(), "a🌍");
}

#[test]
fn a_state_vector_that_divides_a_character_is_replied_to() {
    let mut a = CrdtEngine::new();
    a.seed("a🌍b");
    let mut sv = vec![1];
    write_varint(&mut sv, client_of(&a));
    sv.push(2);
    let mut b = CrdtEngine::new();
    let reply = a.encode_state_as_update(&sv);
    b.apply_remote_update(&reply).unwrap();
    assert_eq!(b.current_text(), "");
    assert_eq!(replicated_text(&a), "a🌍b");
}

#[test]
fn a_state_vector_that_declares_too_much_is_taken_as_empty() {
    let mut a = CrdtEngine::new();
    a.seed("hello");
    let all = a.encode_state_as_update(&[0xff, 0xff, 0xff, 0xff, 0x0f, 1, 1]);
    let mut b = CrdtEngine::new();
    assert_eq!(b.apply_remote_update(&all).unwrap(), Some("hello".to_string()));
}

#[test]
fn an_update_waits_for_what_it_builds_on() {
    let (mut a, mut b) = two_peers("hello");
    let first = a.apply_local_edit("hello world").unwrap();
    let second = a.apply_local_edit("hello old world").unwrap();
    let third = a.apply_local_edit("old world").unwrap();
    for update in [&third, &second, &second] {
        assert_eq!(b.apply_remote_update(update).unwrap(), None);
        assert_eq!(b.current_text(), "hello");
        assert_eq!(replicated_text(&b), "hello");
    }
    assert_eq!(
        b.apply_remote_update(&first).unwrap(),
        Some("old world".to_string())
    );
    for update in [&first, &second, &third] {
        assert_eq!(b.apply_remote_update(update).unwrap(), None);
    }
    assert_eq!(replicated_text(&b), "old world");
}

/// The items of `list` in the order with the given number.
fn in_order(list: &[Vec<u8>], mut number: usize) -> Vec<Vec<u8>> {
    let mut left: Vec<Vec<u8>> = list.to_vec();
    let mut ordered = Vec::new();
    while !left.is_empty() {
        let n = left.len();
        ordered.push(left.remove(number % n));
        number /= n;
    }
    ordered
}

#[test]
fn the_order_of_arrival_does_not_matter() {
    let (mut a, mut b) = two_peers("one two 🌍");
    let mut updates = vec![a.encode_state_as_update(&[0])];
    updates.extend(a.apply_local_edit("one three two 🌍"));
    updates.extend(a.apply_local_edit("three two 🌎!"));
    updates.extend(b.apply_local_edit("one two"));
    updates.extend(b.apply_local_edit("one, two, 🌍"));
    assert_eq!(updates.len(), 5);
    for update in &updates[3..] {
        a.apply_remote_update(update).unwrap();
    }
    for number in 0..120 {
        let mut peer = CrdtEngine::new();
        for update in in_order(&updates, number) {
            peer.apply_remote_update(&update).unwrap();
        }
        assert_eq!(peer.current_text(), a.current_text());
        assert_eq!(replicated_text(&peer), a.current_text());
    }
}

#[test]
fn an_edit_is_incremental() {
    let long: String = "🌍 lorem ipsum ".repeat(1_000);
    let (mut a, mut b) = two_peers(&long);
    let end = format!("{long}end");
    let update = a.apply_local_edit(&end).unwrap();
    assert!(update.len() < 40);
    // What the other peer wrote meanwhile stays where it was.
    let middle = long.replacen("ipsum", "IPSUM", 1);
    b.apply_local_edit(&middle).unwrap();
    b.apply_remote_update(&update).unwrap();
    assert_eq!(b.current_text(), format!("{middle}end"));
}

#[test]
fn many_peers_converge_whatever_they_receive_first() {
    let alphabet = mixed();
    let mut numbers = Numbers(5);
    for _ in 0..20 {
        let mut peers: Vec<CrdtEngine> = (0..3).map(|_| CrdtEngine::new()).collect();
        peers[0].seed(&numbers.text(&alphabet, 40));
        for i in 1..3 {
            let all = peers[0].encode_state_as_update(&peers[i].state_vector_bytes());
            peers[i].apply_remote_update(&all).unwrap();
        }
        let mut updates: Vec<Vec<Vec<u8>>> = Vec::new();
        for peer in peers.iter_mut() {
            let mut own = Vec::new();
            for _ in 0..3 {
                let text = numbers.text(&alphabet, 40);
                assert!(peer.accepts_edit(&text));
                own.extend(peer.apply_local_edit(&text));
            }
            updates.push(own);
        }
        for (i, peer) in peers.iter_mut().enumerate() {
            for step in 1..3 {
                for update in &updates[(i + step) % 3] {
                    peer.apply_remote_update(update).unwrap();
                }
            }
        }
        assert_eq!(peers[0].current_text(), peers[1].current_text());
        assert_eq!(peers[0].current_text(), peers[2].current_text());
        assert_eq!(replicated_text(&peers[2]), peers[2].current_text());
    }
}
