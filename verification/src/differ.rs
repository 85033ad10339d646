//! Character-level differences between two texts as positional edits.
use vstd::prelude::*;
use crate::text::same_text;

verus! {

/// What an edit does.
#[derive(Debug, Clone, PartialEq)]
pub enum EditKind {
    /// Adds text.
    Insert,
    /// Removes characters.
    Delete,
}

/// One edit of a text.
#[derive(Debug, Clone)]
pub struct EditOp {
    /// Whether text is added or removed.
    pub kind: EditKind,
    /// Position in the text as the edits before this one left it, in Unicode
    /// scalar values.
    pub pos: u32,
    /// Text to insert; empty for a deletion.
    pub content: String,
    /// Number of characters to delete; zero for an insertion.
    pub len: u32,
}

/// An [`EditOp`] over mathematical values.
pub struct Edit {
    pub kind: EditKind,
    pub pos: nat,
    pub content: Seq<char>,
    pub len: nat,
}

impl View for EditOp {
    type V = Edit;

    open spec fn view(&self) -> Edit {
        Edit { kind: self.kind, pos: self.pos as nat, content: self.content@, len: self.len as nat }
    }
}

/// How a piece of text takes part in the step from an old to a new text.
#[derive(Debug, Clone, Copy, PartialEq)]
pub enum ChangeTag {
    /// It is in both.
    Equal,
    /// It is in the old text only.
    Delete,
    /// It is in the new text only.
    Insert,
}

/// A piece of text with its tag.
#[derive(Debug, Clone)]
pub struct Change {
    pub tag: ChangeTag,
    pub value: String,
}

impl View for Change {
    type V = (ChangeTag, Seq<char>);

    open spec fn view(&self) -> (ChangeTag, Seq<char>) {
        (self.tag, self.value@)
    }
}

/// The views of some changes.
pub open spec fn changes_view(changes: Seq<Change>) -> Seq<(ChangeTag, Seq<char>)> {
    changes.map_values(|change: Change| change@)
}

/// The views of some edits.
pub open spec fn edits_view(ops: Seq<EditOp>) -> Seq<Edit> {
    ops.map_values(|op: EditOp| op@)
}

/// The old text that a list of changes starts from.
pub open spec fn old_side(changes: Seq<(ChangeTag, Seq<char>)>) -> Seq<char>
    decreases changes.len(),
{
    if changes.len() == 0 {
        Seq::empty()
    } else {
        let before = old_side(changes.drop_last());
        match changes.last().0 {
            ChangeTag::Insert => before,
            _ => before + changes.last().1,
        }
    }
}

/// The new text that a list of changes leads to.
pub open spec fn new_side(changes: Seq<(ChangeTag, Seq<char>)>) -> Seq<char>
    decreases changes.len(),
{
    if changes.len() == 0 {
        Seq::empty()
    } else {
        let before = new_side(changes.drop_last());
        match changes.last().0 {
            ChangeTag::Delete => before,
            _ => before + changes.last().1,
        }
    }
}

/// The edits for a list of changes. An edit's position is the length of the new
/// text in front of it: a deletion does not move the position on, an insertion
/// moves it on by what was inserted.
pub open spec fn edits_of(changes: Seq<(ChangeTag, Seq<char>)>) -> Seq<Edit>
    decreases changes.len(),
{
    if changes.len() == 0 {
        Seq::empty()
    } else {
        let before = edits_of(changes.drop_last());
        let pos = new_side(changes.drop_last()).len();
        let value = changes.last().1;
        match changes.last().0 {
            ChangeTag::Equal => before,
            ChangeTag::Delete => before.push(
                Edit { kind: EditKind::Delete, pos, content: Seq::empty(), len: value.len() },
            ),
            ChangeTag::Insert => before.push(
                Edit { kind: EditKind::Insert, pos, content: value, len: 0 },
            ),
        }
    }
}

/// Whether an edit stays within `text`.
pub open spec fn applicable(text: Seq<char>, edit: Edit) -> bool {
    match edit.kind {
        EditKind::Insert => edit.pos <= text.len(),
        EditKind::Delete => edit.pos + edit.len <= text.len(),
    }
}

/// The text after one edit.
pub open spec fn apply_edit(text: Seq<char>, edit: Edit) -> Seq<char> {
    match edit.kind {
        EditKind::Insert => text.take(edit.pos as int) + edit.content + text.skip(edit.pos as int),
        EditKind::Delete => text.take(edit.pos as int) + text.skip((edit.pos + edit.len) as int),
    }
}

/// The text after some edits, the first one first.
pub open spec fn apply_edits(text: Seq<char>, edits: Seq<Edit>) -> Seq<char>
    decreases edits.len(),
{
    if edits.len() == 0 {
        text
    } else {
        apply_edit(apply_edits(text, edits.drop_last()), edits.last())
    }
}

/// Where an edit leaves the position.
pub open spec fn position_after(edit: Edit) -> nat {
    match edit.kind {
        EditKind::Insert => edit.pos + edit.content.len(),
        EditKind::Delete => edit.pos,
    }
}

/// Whether `edits` work through a text from left to right, each within the text
/// as the edits before it left it.
pub open spec fn left_to_right(text: Seq<char>, edits: Seq<Edit>) -> bool {
    &&& forall|i: int|
        0 <= i < edits.len() ==> applicable(
            apply_edits(text, #[trigger] edits.take(i)),
            edits[i],
        )
    &&& forall|i: int, j: int|
        #![trigger edits[i], edits[j]]
        0 <= i < j < edits.len() ==> position_after(edits[i]) <= edits[j].pos
}

/// Whether `edits` lead from `old` to `new`, from left to right.
pub open spec fn is_script(old: Seq<char>, edits: Seq<Edit>, new: Seq<char>) -> bool {
    &&& left_to_right(old, edits)
    &&& apply_edits(old, edits) == new
}

/// One more change at the end.
proof fn lemma_sides_push(changes: Seq<(ChangeTag, Seq<char>)>, change: (ChangeTag, Seq<char>))
    ensures
        old_side(changes.push(change)) == (match change.0 {
            ChangeTag::Insert => old_side(changes),
            _ => old_side(changes) + change.1,
        }),
        new_side(changes.push(change)) == (match change.0 {
            ChangeTag::Delete => new_side(changes),
            _ => new_side(changes) + change.1,
        }),
{
    assert(changes.push(change).drop_last() =~= changes);
}

/// The edits of some changes, applied to a text that starts with the old side,
/// leave the new side and whatever followed.
proof fn lemma_edits_of_changes(changes: Seq<(ChangeTag, Seq<char>)>, rest: Seq<char>)
    ensures
        left_to_right(old_side(changes) + rest, edits_of(changes)),
        apply_edits(old_side(changes) + rest, edits_of(changes)) == new_side(changes) + rest,
        forall|i: int|
            0 <= i < edits_of(changes).len() ==> position_after(#[trigger] edits_of(changes)[i])
                <= new_side(changes).len(),
    decreases changes.len(),
{
    let text = old_side(changes) + rest;
    let edits = edits_of(changes);
    if changes.len() == 0 {
        assert(text =~= rest);
        assert(new_side(changes) + rest =~= rest);
    } else {
        let init = changes.drop_last();
        let value = changes.last().1;
        let before = edits_of(init);
        let new_rest = if changes.last().0 == ChangeTag::Insert {
            rest
        } else {
            value + rest
        };
        assert(text =~= old_side(init) + new_rest);
        lemma_edits_of_changes(init, new_rest);
        match changes.last().0 {
            ChangeTag::Equal => {
                assert(new_side(init) + new_rest =~= new_side(changes) + rest);
            },
            _ => {
                assert(edits.drop_last() =~= before);
                assert forall|i: int| 0 <= i < edits.len() implies applicable(
                    apply_edits(text, #[trigger] edits.take(i)),
                    edits[i],
                ) by {
                    if i < before.len() {
                        assert(edits.take(i) =~= before.take(i));
                    } else {
                        assert(edits.take(i) =~= before);
                    }
                }
                assert(apply_edits(text, edits) =~= new_side(changes) + rest);
            },
        }
    }
}

/// Applying the edits of some changes to their old side gives their new side.
pub proof fn law_edits_lead_to_new_side(changes: Seq<(ChangeTag, Seq<char>)>)
    ensures
        is_script(old_side(changes), edits_of(changes), new_side(changes)),
{
    lemma_edits_of_changes(changes, Seq::empty());
    assert(old_side(changes) + Seq::<char>::empty() =~= old_side(changes));
    assert(new_side(changes) + Seq::<char>::empty() =~= new_side(changes));
}

/// The number of deletions and insertions among some changes.
pub open spec fn changed_count(changes: Seq<(ChangeTag, Seq<char>)>) -> nat {
    changes.filter(|change: (ChangeTag, Seq<char>)| change.0 != ChangeTag::Equal).len()
}

/// Each deletion and each insertion among some changes is one edit, in their order: at
/// the length of the new text in front of it, with the text that is inserted or the
/// number of characters that are deleted. There are no other edits.
pub proof fn law_each_change_is_one_edit(changes: Seq<(ChangeTag, Seq<char>)>, i: int)
    ensures
        edits_of(changes).len() == changed_count(changes),
        0 <= i < changes.len() ==> {
            let k = changed_count(changes.take(i)) as int;
            let pos = new_side(changes.take(i)).len();
            let (tag, value) = changes[i];
            &&& tag == ChangeTag::Insert ==> k < edits_of(changes).len() && edits_of(changes)[k]
                == (Edit { kind: EditKind::Insert, pos, content: value, len: 0 })
            &&& tag == ChangeTag::Delete ==> k < edits_of(changes).len() && edits_of(changes)[k]
                == (Edit { kind: EditKind::Delete, pos, content: Seq::empty(), len: value.len() })
        },
    decreases changes.len(),
{
    reveal(Seq::filter);
    if changes.len() > 0 {
        let init = changes.drop_last();
        law_each_change_is_one_edit(init, i);
        if 0 <= i < init.len() {
            assert(init.take(i) =~= changes.take(i));
        } else if i == init.len() {
            assert(changes.take(i) =~= init);
        }
    }
}

/// The sides of two lists of changes in a row are those of the one and the other, and
/// a change is on the sides that its tag says.
pub proof fn law_sides_add_up(
    a: Seq<(ChangeTag, Seq<char>)>,
    b: Seq<(ChangeTag, Seq<char>)>,
    value: Seq<char>,
)
    ensures
        old_side(a + b) == old_side(a) + old_side(b),
        new_side(a + b) == new_side(a) + new_side(b),
        old_side(seq![(ChangeTag::Equal, value)]) == value,
        new_side(seq![(ChangeTag::Equal, value)]) == value,
        old_side(seq![(ChangeTag::Delete, value)]) == value,
        new_side(seq![(ChangeTag::Delete, value)]).len() == 0,
        old_side(seq![(ChangeTag::Insert, value)]).len() == 0,
        new_side(seq![(ChangeTag::Insert, value)]) == value,
    decreases b.len(),
{
    let none = Seq::<(ChangeTag, Seq<char>)>::empty();
    assert(old_side(none) =~= Seq::empty() && new_side(none) =~= Seq::empty());
    assert(seq![(ChangeTag::Equal, value)] =~= none.push((ChangeTag::Equal, value)));
    assert(seq![(ChangeTag::Delete, value)] =~= none.push((ChangeTag::Delete, value)));
    assert(seq![(ChangeTag::Insert, value)] =~= none.push((ChangeTag::Insert, value)));
    lemma_sides_push(none, (ChangeTag::Equal, value));
    lemma_sides_push(none, (ChangeTag::Delete, value));
    lemma_sides_push(none, (ChangeTag::Insert, value));
    assert(Seq::<char>::empty() + value =~= value);
    if b.len() > 0 {
        law_sides_add_up(a, b.drop_last(), value);
        assert((a + b).drop_last() =~= a + b.drop_last());
        assert(old_side(a + b) =~= old_side(a) + old_side(b));
        assert(new_side(a + b) =~= new_side(a) + new_side(b));
    } else {
        assert(a + b =~= a);
        assert(old_side(a) + old_side(b) =~= old_side(a));
        assert(new_side(a) + new_side(b) =~= new_side(a));
    }
}

/// Without an edit, old and new side are the same.
proof fn lemma_no_edits(changes: Seq<(ChangeTag, Seq<char>)>)
    requires
        edits_of(changes).len() == 0,
    ensures
        old_side(changes) == new_side(changes),
{
    law_edits_lead_to_new_side(changes);
}

/// Turns changes into edits.
pub fn edits_from_changes(changes: &Vec<Change>) -> (ops: Vec<EditOp>)
    requires
        new_side(changes_view(changes@)).len() <= u32::MAX,
        forall|i: int|
            0 <= i < changes@.len() ==> (#[trigger] changes@[i]).value@.len() <= u32::MAX,
    ensures
        edits_view(ops@) == edits_of(changes_view(changes@)),
{
    let mut ops: Vec<EditOp> = Vec::new();
    let mut pos: u32 = 0;
    let ghost all = changes_view(changes@);
    let mut i: usize = 0;
    while i < changes.len()
        invariant
            i <= changes@.len(),
            all == changes_view(changes@),
            new_side(all).len() <= u32::MAX,
            forall|k: int|
                0 <= k < changes@.len() ==> (#[trigger] changes@[k]).value@.len() <= u32::MAX,
            pos == new_side(all.take(i as int)).len(),
            edits_view(ops@) == edits_of(all.take(i as int)),
        decreases changes@.len() - i,
    {
        let change = &changes[i];
        let ghost done = all.take(i as int);
        let ghost more = all.take(i + 1);
        proof {
            assert(more =~= done.push(change@));
            assert(more.drop_last() =~= done);
            lemma_sides_push(done, change@);
            lemma_new_side_prefix(all, i + 1);
        }
        let ghost before = ops@;
        let len: u32 = change.value.as_str().unicode_len() as u32;
        match change.tag {
            ChangeTag::Equal => {
                pos += len;
            },
            ChangeTag::Delete => {
                ops.push(
                    EditOp { kind: EditKind::Delete, pos, content: String::new(), len },
                );
                assert(edits_view(ops@) =~= edits_view(before).push(ops@.last()@));
            },
            ChangeTag::Insert => {
                ops.push(
                    EditOp { kind: EditKind::Insert, pos, content: change.value.clone(), len: 0 },
                );
                assert(edits_view(ops@) =~= edits_view(before).push(ops@.last()@));
                pos += len;
            },
        }
        i += 1;
    }
    assert(all.take(changes@.len() as int) =~= all);
    ops
}

/// A part of the changes leads to no more text than all of them.
proof fn lemma_new_side_prefix(changes: Seq<(ChangeTag, Seq<char>)>, n: int)
    requires
        0 <= n <= changes.len(),
    ensures
        new_side(changes.take(n)).len() <= new_side(changes).len(),
    decreases changes.len() - n,
{
    if n < changes.len() {
        lemma_new_side_prefix(changes, n + 1);
        assert(changes.take(n + 1).drop_last() =~= changes.take(n));
    } else {
        assert(changes.take(n) =~= changes);
    }
}

/// Whether `part` is left of `whole` when some of its characters are taken out.
pub open spec fn is_within(part: Seq<char>, whole: Seq<char>) -> bool
    decreases whole.len(),
{
    if part.len() == 0 {
        true
    } else if whole.len() == 0 {
        false
    } else {
        ||| part.last() == whole.last() && is_within(part.drop_last(), whole.drop_last())
        ||| is_within(part, whole.drop_last())
    }
}

/// Whether no list of changes between two texts has less than `n` characters in
/// its deletions and insertions: what the texts have in common, in whatever way it
/// is found in them, leaves that many characters over.
#[verifier::opaque]
pub open spec fn is_least(old: Seq<char>, new: Seq<char>, n: nat) -> bool {
    forall|common: Seq<char>| #[trigger]
        is_within(common, old) && is_within(common, new) ==> n + 2 * common.len() <= old.len()
            + new.len()
}

/// The number of characters that some changes delete or insert.
pub open spec fn changed_len(changes: Seq<(ChangeTag, Seq<char>)>) -> nat
    decreases changes.len(),
{
    if changes.len() == 0 {
        0
    } else {
        changed_len(changes.drop_last()) + match changes.last().0 {
            ChangeTag::Equal => 0,
            _ => changes.last().1.len(),
        }
    }
}

/// The number of characters that some edits delete or insert.
pub open spec fn touched(edits: Seq<Edit>) -> nat
    decreases edits.len(),
{
    if edits.len() == 0 {
        0
    } else {
        touched(edits.drop_last()) + match edits.last().kind {
            EditKind::Insert => edits.last().content.len(),
            EditKind::Delete => edits.last().len,
        }
    }
}

/// What is within a text is no longer than the text.
pub proof fn lemma_within_len(part: Seq<char>, whole: Seq<char>)
    requires
        is_within(part, whole),
    ensures
        part.len() <= whole.len(),
    decreases whole.len(),
{
    if part.len() > 0 {
        if part.last() == whole.last() && is_within(part.drop_last(), whole.drop_last()) {
            lemma_within_len(part.drop_last(), whole.drop_last());
        } else {
            lemma_within_len(part, whole.drop_last());
        }
    }
}

/// Between a text and itself there is nothing to change.
proof fn lemma_none_is_least(text: Seq<char>)
    ensures
        is_least(text, text, 0),
{
    reveal(is_least);
    assert forall|common: Seq<char>| #[trigger]
        is_within(common, text) && is_within(common, text) implies 2 * common.len() <= text.len()
        + text.len() by {
        lemma_within_len(common, text);
    }
}

/// A text without some part in its middle is within the text.
proof fn lemma_ends_within(front: Seq<char>, middle: Seq<char>, back: Seq<char>)
    ensures
        is_within(front + back, front + middle + back),
    decreases middle.len() + back.len(), front.len(),
{
    let part = front + back;
    let whole = front + middle + back;
    if back.len() > 0 {
        lemma_ends_within(front, middle, back.drop_last());
        assert(part.drop_last() =~= front + back.drop_last());
        assert(whole.drop_last() =~= front + middle + back.drop_last());
    } else if middle.len() > 0 {
        lemma_ends_within(front, middle.drop_last(), back);
        assert(whole.drop_last() =~= front + middle.drop_last() + back);
    } else if front.len() > 0 {
        lemma_ends_within(front.drop_last(), middle, back);
        assert(part.drop_last() =~= front.drop_last() + back);
        assert(whole.drop_last() =~= front.drop_last() + middle + back);
    }
}

/// Edits that touch as few characters as possible leave alone what two texts have
/// in common at their ends: they touch no more than is there between the ends, and
/// where there is nothing on one side, they only insert or only delete.
pub proof fn law_least_edits_are_local(
    front: Seq<char>,
    removed: Seq<char>,
    added: Seq<char>,
    back: Seq<char>,
    edits: Seq<Edit>,
)
    requires
        is_script(front + removed + back, edits, front + added + back),
        is_least(front + removed + back, front + added + back, touched(edits)),
    ensures
        touched(edits) <= removed.len() + added.len(),
        removed.len() == 0 ==> deleted(edits) == 0 && inserted(edits) == added.len(),
        added.len() == 0 ==> inserted(edits) == 0 && deleted(edits) == removed.len(),
{
    let old = front + removed + back;
    let new = front + added + back;
    lemma_ends_within(front, removed, back);
    lemma_ends_within(front, added, back);
    reveal(is_least);
    assert(is_within(front + back, old));
    lemma_script_len(old, edits);
}

/// The number of characters that some edits delete.
pub open spec fn deleted(edits: Seq<Edit>) -> nat
    decreases edits.len(),
{
    if edits.len() == 0 {
        0
    } else {
        deleted(edits.drop_last()) + match edits.last().kind {
            EditKind::Insert => 0,
            EditKind::Delete => edits.last().len,
        }
    }
}

/// The number of characters that some edits insert.
pub open spec fn inserted(edits: Seq<Edit>) -> nat
    decreases edits.len(),
{
    if edits.len() == 0 {
        0
    } else {
        inserted(edits.drop_last()) + match edits.last().kind {
            EditKind::Insert => edits.last().content.len(),
            EditKind::Delete => 0,
        }
    }
}

/// How some edits change the length of a text.
pub proof fn lemma_script_len(old: Seq<char>, edits: Seq<Edit>)
    requires
        forall|i: int|
            0 <= i < edits.len() ==> applicable(
                apply_edits(old, #[trigger] edits.take(i)),
                edits[i],
            ),
    ensures
        apply_edits(old, edits).len() + deleted(edits) == old.len() + inserted(edits),
        touched(edits) == deleted(edits) + inserted(edits),
    decreases edits.len(),
{
    if edits.len() > 0 {
        let init = edits.drop_last();
        assert forall|i: int| 0 <= i < init.len() implies applicable(
            apply_edits(old, #[trigger] init.take(i)),
            init[i],
        ) by {
            assert(init.take(i) =~= edits.take(i));
        }
        lemma_script_len(old, init);
        assert(edits.take(edits.len() - 1) =~= init);
    }
}

/// What is within a text is within the text with more behind it.
proof fn lemma_within_longer(part: Seq<char>, whole: Seq<char>, more: Seq<char>)
    requires
        is_within(part, whole),
    ensures
        is_within(part, whole + more),
    decreases more.len(),
{
    if more.len() > 0 {
        lemma_within_longer(part, whole, more.drop_last());
        assert((whole + more).drop_last() =~= whole + more.drop_last());
    } else {
        assert(whole + more =~= whole);
    }
}

/// What is within two texts is, in a row, within the two in a row.
proof fn lemma_within_join(part1: Seq<char>, whole1: Seq<char>, part2: Seq<char>, whole2: Seq<char>)
    requires
        is_within(part1, whole1),
        is_within(part2, whole2),
    ensures
        is_within(part1 + part2, whole1 + whole2),
    decreases whole2.len(),
{
    let whole = whole1 + whole2;
    if part2.len() == 0 {
        assert(part1 + part2 =~= part1);
        lemma_within_longer(part1, whole1, whole2);
    } else {
        assert(whole.drop_last() =~= whole1 + whole2.drop_last());
        assert((part1 + part2).last() == part2.last());
        if part2.last() == whole2.last() && is_within(part2.drop_last(), whole2.drop_last()) {
            lemma_within_join(part1, whole1, part2.drop_last(), whole2.drop_last());
            assert((part1 + part2).drop_last() =~= part1 + part2.drop_last());
        } else {
            lemma_within_join(part1, whole1, part2, whole2.drop_last());
        }
    }
}

/// What is within two texts in a row has a part in each.
proof fn lemma_within_split(part: Seq<char>, whole1: Seq<char>, whole2: Seq<char>) -> (n: int)
    requires
        is_within(part, whole1 + whole2),
    ensures
        0 <= n <= part.len(),
        is_within(part.take(n), whole1),
        is_within(part.skip(n), whole2),
    decreases whole2.len(),
{
    let whole = whole1 + whole2;
    if part.len() == 0 {
        0
    } else if whole2.len() == 0 {
        assert(whole =~= whole1);
        assert(part.take(part.len() as int) =~= part);
        part.len() as int
    } else {
        assert(whole.drop_last() =~= whole1 + whole2.drop_last());
        assert(whole.last() == whole2.last());
        if part.last() == whole.last() && is_within(part.drop_last(), whole.drop_last()) {
            let n = lemma_within_split(part.drop_last(), whole1, whole2.drop_last());
            assert(part.drop_last().take(n) =~= part.take(n));
            assert(part.skip(n).drop_last() =~= part.drop_last().skip(n));
            assert(part.skip(n).last() == part.last());
            n
        } else {
            lemma_within_split(part, whole1, whole2.drop_last())
        }
    }
}

/// What is within a part of a text is within the text.
proof fn lemma_within_within(part: Seq<char>, middle: Seq<char>, whole: Seq<char>)
    requires
        is_within(part, middle),
        is_within(middle, whole),
    ensures
        is_within(part, whole),
    decreases whole.len(),
{
    if part.len() > 0 {
        lemma_within_len(part, middle);
        if middle.last() == whole.last() && is_within(middle.drop_last(), whole.drop_last()) {
            if part.last() == middle.last() && is_within(part.drop_last(), middle.drop_last()) {
                lemma_within_within(part.drop_last(), middle.drop_last(), whole.drop_last());
            } else {
                lemma_within_within(part, middle.drop_last(), whole.drop_last());
            }
        } else {
            lemma_within_within(part, middle, whole.drop_last());
        }
    }
}

/// What edits leave alone is within the old and the new text, and is all of the old
/// text but what they delete.
#[verifier::rlimit(40)]
proof fn lemma_left_alone(old: Seq<char>, edits: Seq<Edit>) -> (common: Seq<char>)
    requires
        forall|i: int|
            0 <= i < edits.len() ==> applicable(
                apply_edits(old, #[trigger] edits.take(i)),
                edits[i],
            ),
    ensures
        is_within(common, old),
        is_within(common, apply_edits(old, edits)),
        common.len() + deleted(edits) >= old.len(),
    decreases edits.len(),
{
    if edits.len() == 0 {
        lemma_ends_within(old, Seq::empty(), Seq::empty());
        assert(old + Seq::<char>::empty() =~= old);
        assert(old + Seq::<char>::empty() + Seq::<char>::empty() =~= old);
        old
    } else {
        let init = edits.drop_last();
        let edit = edits.last();
        assert forall|i: int| 0 <= i < init.len() implies applicable(
            apply_edits(old, #[trigger] init.take(i)),
            init[i],
        ) by {
            assert(init.take(i) =~= edits.take(i));
        }
        assert(edits.take(edits.len() - 1) =~= init);
        let before = lemma_left_alone(old, init);
        let text = apply_edits(old, init);
        let pos = edit.pos as int;
        assert(text =~= text.take(pos) + text.skip(pos));
        let n = lemma_within_split(before, text.take(pos), text.skip(pos));
        let head = before.take(n);
        let rest = before.skip(n);
        match edit.kind {
            EditKind::Insert => {
                lemma_within_longer(head, text.take(pos), edit.content);
                lemma_within_join(head, text.take(pos) + edit.content, rest, text.skip(pos));
                assert(before =~= head + rest);
                before
            },
            EditKind::Delete => {
                let gone = text.subrange(pos, pos + edit.len);
                let back = text.skip(pos + edit.len);
                assert(text.skip(pos) =~= gone + back);
                let m = lemma_within_split(rest, gone, back);
                let tail = rest.skip(m);
                lemma_within_len(rest.take(m), gone);
                lemma_within_join(head, text.take(pos), tail, back);
                lemma_ends_within(head, rest.take(m), tail);
                assert(before =~= head + rest.take(m) + tail);
                lemma_within_within(head + tail, before, old);
                head + tail
            },
        }
    }
}

/// No edits that lead from one text to another, in whatever order and at whatever
/// places, touch fewer characters than the least edits do.
pub proof fn law_no_edits_touch_fewer(
    old: Seq<char>,
    new: Seq<char>,
    edits: Seq<Edit>,
    others: Seq<Edit>,
)
    requires
        is_least(old, new, touched(edits)),
        forall|i: int|
            0 <= i < others.len() ==> applicable(
                apply_edits(old, #[trigger] others.take(i)),
                others[i],
            ),
        apply_edits(old, others) == new,
    ensures
        touched(edits) <= touched(others),
{
    reveal(is_least);
    let common = lemma_left_alone(old, others);
    assert(is_within(common, old));
    lemma_script_len(old, others);
}

/// An insertion is undone by deleting what was inserted, and leaves alone what
/// stands before and behind it.
pub proof fn law_insertion_is_undone_by_deletion(text: Seq<char>, pos: nat, content: Seq<char>)
    requires
        pos <= text.len(),
    ensures
        ({
            let insertion = Edit { kind: EditKind::Insert, pos, content, len: 0 };
            let deletion = Edit {
                kind: EditKind::Delete,
                pos,
                content: Seq::empty(),
                len: content.len(),
            };
            let longer = apply_edit(text, insertion);
            &&& longer.subrange(pos as int, (pos + content.len()) as int) == content
            &&& apply_edit(longer, deletion) == text
            &&& apply_edits(text, seq![insertion, deletion]) == text
        }),
{
    let insertion = Edit { kind: EditKind::Insert, pos, content, len: 0 };
    let deletion = Edit { kind: EditKind::Delete, pos, content: Seq::empty(), len: content.len() };
    let longer = apply_edit(text, insertion);
    assert(longer.subrange(pos as int, (pos + content.len()) as int) =~= content);
    assert(apply_edit(longer, deletion) =~= text);
    let edits = seq![insertion, deletion];
    assert(edits.drop_last() =~= seq![insertion]);
    assert(edits.drop_last().drop_last() =~= Seq::empty());
    assert(apply_edits(text, edits.drop_last().drop_last()) == text);
    assert(apply_edits(text, edits.drop_last()) == longer);
}

/// The changes that `similar` finds between two texts, character by character:
/// what [`char_changes`] returns.
pub uninterp spec fn char_diff(old: Seq<char>, new: Seq<char>) -> Seq<(ChangeTag, Seq<char>)>;

/// Calls `similar::TextDiffConfig::diff_chars` with the default configuration
/// and collects what `TextDiff::iter_all_changes` yields.
///
/// Claimed of it: with no deadline set the changes depend on the two texts
/// alone, each change holds one character, the characters tagged equal or
/// deleted are the old text in order, and those tagged equal or inserted are
/// the new text in order; and, as the algorithm is that of Myers, no list of
/// changes between the two has fewer characters deleted and inserted. Which of
/// the lists with that many it is, is not stated.
#[verifier::external_body]
fn char_changes(old: &str, new: &str) -> (changes: Vec<Change>)
    ensures
        changes_view(changes@) == char_diff(old@, new@),
        old_side(changes_view(changes@)) == old@,
        new_side(changes_view(changes@)) == new@,
        forall|i: int| 0 <= i < changes@.len() ==> (#[trigger] changes@[i]).value@.len() == 1,
        is_least(old@, new@, changed_len(changes_view(changes@))),
{
    let diff = similar::TextDiff::configure().diff_chars(old, new);
    diff.iter_all_changes().map(
        |change|
            Change {
                tag: match change.tag() {
                    similar::ChangeTag::Equal => ChangeTag::Equal,
                    similar::ChangeTag::Delete => ChangeTag::Delete,
                    similar::ChangeTag::Insert => ChangeTag::Insert,
                },
                value: change.value().to_string(),
            },
    ).collect()
}

/// Changes with neighbours of one tag joined.
pub open spec fn joined(changes: Seq<(ChangeTag, Seq<char>)>) -> Seq<(ChangeTag, Seq<char>)>
    decreases changes.len(),
{
    if changes.len() == 0 {
        Seq::empty()
    } else {
        let before = joined(changes.drop_last());
        let (tag, value) = changes.last();
        if before.len() > 0 && before.last().0 == tag {
            before.drop_last().push((tag, before.last().1 + value))
        } else {
            before.push((tag, value))
        }
    }
}

/// Whether every change has some text.
pub open spec fn none_empty(changes: Seq<(ChangeTag, Seq<char>)>) -> bool {
    forall|i: int| 0 <= i < changes.len() ==> (#[trigger] changes[i]).1.len() > 0
}

/// Whether no two neighbours have the same tag.
pub open spec fn alternate(changes: Seq<(ChangeTag, Seq<char>)>) -> bool {
    forall|i: int, j: int|
        0 <= i && i + 1 == j && j < changes.len() ==> (#[trigger] changes[i]).0 != (
        #[trigger] changes[j]).0
}

/// Joining changes keeps both sides and what is changed, and leaves no two neighbours
/// with the same tag, nor a change without text where there was none.
proof fn lemma_joined(changes: Seq<(ChangeTag, Seq<char>)>)
    ensures
        old_side(joined(changes)) == old_side(changes),
        new_side(joined(changes)) == new_side(changes),
        none_empty(changes) ==> none_empty(joined(changes)),
        changed_len(joined(changes)) == changed_len(changes),
        alternate(joined(changes)),
        spelled(joined(changes)) == spelled(changes),
    decreases changes.len(),
{
    if changes.len() > 0 {
        let init = changes.drop_last();
        if none_empty(changes) {
            assert forall|i: int| 0 <= i < init.len() implies (
            #[trigger] init[i]).1.len() > 0 by {
                assert(changes[i].1.len() > 0);
            }
        }
        lemma_joined(init);
        let before = joined(init);
        let (tag, value) = changes.last();
        lemma_sides_push(init, (tag, value));
        assert(init.push((tag, value)) =~= changes);
        if before.len() > 0 && before.last().0 == tag {
            let front = before.drop_last();
            let last = before.last();
            lemma_sides_push(front, last);
            assert(front.push(last) =~= before);
            lemma_sides_push(front, (tag, last.1 + value));
            assert(old_side(joined(changes)) =~= old_side(changes));
            assert(new_side(joined(changes)) =~= new_side(changes));
            assert(joined(changes).drop_last() =~= front);
            assert(spelled(joined(changes)) =~= spelled(changes));
        } else {
            lemma_sides_push(before, (tag, value));
            assert(joined(changes).drop_last() =~= before);
        }
        let runs = joined(changes);
        assert forall|i: int, j: int|
            0 <= i && i + 1 == j && j < runs.len() implies (#[trigger] runs[i]).0 != (
        #[trigger] runs[j]).0 by {
            if j < before.len() {
                assert(before[i].0 != before[j].0);
            }
        }
        if none_empty(changes) {
            assert(changes[changes.len() - 1].1.len() > 0);
            assert forall|i: int| 0 <= i < runs.len() implies (#[trigger] runs[i]).1.len()
                > 0 by {
                if i < before.len() {
                    assert(before[i].1.len() > 0);
                }
            }
        }
    } else {
        assert(joined(changes) =~= changes);
    }
}

/// The characters of some changes, each with its tag.
pub open spec fn spelled(changes: Seq<(ChangeTag, Seq<char>)>) -> Seq<(ChangeTag, char)>
    decreases changes.len(),
{
    if changes.len() == 0 {
        Seq::empty()
    } else {
        let (tag, value) = changes.last();
        spelled(changes.drop_last()) + value.map_values(|c: char| (tag, c))
    }
}

/// Joining changes keeps every character with its tag, in order, and so the texts that
/// they lead from and to and how much they change; neighbours then differ in their
/// tags; and changes whose neighbours do so already stay as they are.
pub proof fn law_joining_keeps_the_changes(changes: Seq<(ChangeTag, Seq<char>)>)
    ensures
        spelled(joined(changes)) == spelled(changes),
        old_side(joined(changes)) == old_side(changes),
        new_side(joined(changes)) == new_side(changes),
        changed_len(joined(changes)) == changed_len(changes),
        alternate(joined(changes)),
        none_empty(changes) ==> none_empty(joined(changes)),
        alternate(changes) ==> joined(changes) == changes,
{
    lemma_joined(changes);
    if alternate(changes) {
        lemma_nothing_to_join(changes);
    }
}

/// Where neighbours differ in their tags there is nothing to join.
proof fn lemma_nothing_to_join(changes: Seq<(ChangeTag, Seq<char>)>)
    requires
        alternate(changes),
    ensures
        joined(changes) == changes,
    decreases changes.len(),
{
    if changes.len() > 0 {
        let init = changes.drop_last();
        assert forall|i: int, j: int|
            0 <= i && i + 1 == j && j < init.len() implies (#[trigger] init[i]).0 != (
        #[trigger] init[j]).0 by {
            assert(changes[i].0 != changes[j].0);
        }
        lemma_nothing_to_join(init);
        if init.len() > 0 {
            assert(changes[changes.len() - 1].0 != changes[changes.len() - 2].0);
        }
        assert(changes =~= init.push(changes.last()));
    } else {
        assert(joined(changes) =~= changes);
    }
}

/// Joins neighbouring changes of one tag.
pub fn join_changes(changes: &Vec<Change>) -> (out: Vec<Change>)
    ensures
        changes_view(out@) == joined(changes_view(changes@)),
{
    let mut out: Vec<Change> = Vec::new();
    let ghost all = changes_view(changes@);
    let mut i: usize = 0;
    assert(changes_view(out@) =~= joined(all.take(0)));
    while i < changes.len()
        invariant
            i <= changes@.len(),
            all == changes_view(changes@),
            changes_view(out@) == joined(all.take(i as int)),
        decreases changes@.len() - i,
    {
        let change = &changes[i];
        let ghost before = out@;
        let ghost more = all.take(i + 1);
        assert(more.drop_last() =~= all.take(i as int));
        assert(more.last() == change@);
        match out.pop() {
            Some(last) => {
                assert(changes_view(before).last() == last@);
                assert(changes_view(before).drop_last() =~= changes_view(out@));
                let mut last = last;
                if same_tag(last.tag, change.tag) {
                    last.value.append(change.value.as_str());
                    let ghost rest = out@;
                    out.push(last);
                    assert(changes_view(out@) =~= changes_view(rest).push(last@));
                } else {
                    let ghost rest = out@;
                    out.push(last);
                    assert(changes_view(out@) =~= changes_view(before));
                    out.push(Change { tag: change.tag, value: change.value.clone() });
                    assert(changes_view(out@) =~= changes_view(before).push(change@));
                }
            },
            None => {
                out.push(Change { tag: change.tag, value: change.value.clone() });
                assert(changes_view(out@) =~= changes_view(before).push(change@));
            },
        }
        i += 1;
    }
    assert(all.take(changes@.len() as int) =~= all);
    out
}

/// Tells whether two tags are the same.
fn same_tag(a: ChangeTag, b: ChangeTag) -> (same: bool)
    ensures
        same == (a == b),
{
    match (a, b) {
        (ChangeTag::Equal, ChangeTag::Equal) => true,
        (ChangeTag::Delete, ChangeTag::Delete) => true,
        (ChangeTag::Insert, ChangeTag::Insert) => true,
        _ => false,
    }
}

/// Whether an edit does something: it inserts some text, or deletes some.
pub open spec fn is_effective(edit: Edit) -> bool {
    match edit.kind {
        EditKind::Insert => edit.content.len() > 0 && edit.len == 0,
        EditKind::Delete => edit.content.len() == 0 && edit.len > 0,
    }
}

/// The edits of changes with text do something.
proof fn lemma_effective(changes: Seq<(ChangeTag, Seq<char>)>)
    requires
        none_empty(changes),
    ensures
        forall|i: int| 0 <= i < edits_of(changes).len() ==> is_effective(
            #[trigger] edits_of(changes)[i],
        ),
    decreases changes.len(),
{
    if changes.len() > 0 {
        let init = changes.drop_last();
        assert forall|i: int| 0 <= i < init.len() implies (#[trigger] init[i]).1.len() > 0 by {
            assert(changes[i].1.len() > 0);
        }
        lemma_effective(init);
        assert(changes.last().1.len() > 0);
        assert forall|i: int| 0 <= i < edits_of(changes).len() implies is_effective(
            #[trigger] edits_of(changes)[i],
        ) by {
            if i < edits_of(init).len() {
                assert(is_effective(edits_of(init)[i]));
            }
        }
    }
}

/// The edits of some changes touch what the changes do.
proof fn lemma_touched(changes: Seq<(ChangeTag, Seq<char>)>)
    ensures
        touched(edits_of(changes)) == changed_len(changes),
    decreases changes.len(),
{
    if changes.len() > 0 {
        lemma_touched(changes.drop_last());
        if changes.last().0 != ChangeTag::Equal {
            assert(edits_of(changes).drop_last() =~= edits_of(changes.drop_last()));
        }
    }
}

/// Whether edits of the same kind have something between them: they could not be
/// one edit.
pub open spec fn stand_apart(edits: Seq<Edit>) -> bool {
    forall|i: int, j: int|
        0 <= i && i + 1 == j && j < edits.len() && (#[trigger] edits[i]).kind == (
        #[trigger] edits[j]).kind ==> position_after(edits[i]) < edits[j].pos
}

/// The edits of changes whose neighbours differ in their tags stand apart.
proof fn lemma_apart(changes: Seq<(ChangeTag, Seq<char>)>)
    requires
        none_empty(changes),
        alternate(changes),
    ensures
        stand_apart(edits_of(changes)),
        edits_of(changes).len() > 0 ==> {
            let last = edits_of(changes).last();
            &&& position_after(last) <= new_side(changes).len()
            &&& changes.last().0 == ChangeTag::Equal ==> position_after(last) < new_side(
                changes,
            ).len()
            &&& changes.last().0 == ChangeTag::Delete ==> last.kind == EditKind::Delete
            &&& changes.last().0 == ChangeTag::Insert ==> last.kind == EditKind::Insert
        },
    decreases changes.len(),
{
    if changes.len() > 0 {
        let init = changes.drop_last();
        assert forall|i: int| 0 <= i < init.len() implies (#[trigger] init[i]).1.len() > 0 by {
            assert(changes[i].1.len() > 0);
        }
        assert forall|i: int, j: int|
            0 <= i && i + 1 == j && j < init.len() implies (#[trigger] init[i]).0 != (
        #[trigger] init[j]).0 by {
            assert(changes[i].0 != changes[j].0);
        }
        lemma_apart(init);
        assert(changes.last().1.len() > 0);
        let before = edits_of(init);
        let edits = edits_of(changes);
        if changes.last().0 != ChangeTag::Equal {
            assert(edits.drop_last() =~= before);
            if init.len() > 0 {
                assert(changes[changes.len() - 1].0 != changes[changes.len() - 2].0);
                assert(init.last() == changes[changes.len() - 2]);
            }
            assert forall|i: int, j: int|
                0 <= i && i + 1 == j && j < edits.len() && (#[trigger] edits[i]).kind == (
                #[trigger] edits[j]).kind implies position_after(edits[i]) < edits[j].pos by {
                if j < before.len() {
                    assert(before[i].kind == before[j].kind);
                } else {
                    assert(edits[i] == before.last());
                }
            }
        }
    }
}

/// A change has no more text than both sides.
proof fn lemma_value_within_sides(changes: Seq<(ChangeTag, Seq<char>)>, i: int)
    requires
        0 <= i < changes.len(),
    ensures
        changes[i].1.len() <= old_side(changes).len() || changes[i].1.len() <= new_side(
            changes,
        ).len(),
    decreases changes.len(),
{
    if i < changes.len() - 1 {
        lemma_value_within_sides(changes.drop_last(), i);
    }
}

/// The edits that [`compute_diff`] finds.
pub open spec fn diff_edits(old: Seq<char>, new: Seq<char>) -> Seq<Edit> {
    if old == new {
        Seq::empty()
    } else {
        edits_of(joined(char_diff(old, new)))
    }
}

/// Computes edits that lead from `old` to `new`, to be applied in order.
///
/// There are none exactly if the texts are equal. They touch as few characters as
/// any edits between the texts. Neighbouring characters that are inserted, or
/// deleted, make one edit.
pub fn compute_diff(old: &str, new: &str) -> (ops: Vec<EditOp>)
    requires
        old@ != new@ ==> old@.len() <= u32::MAX && new@.len() <= u32::MAX,
    ensures
        old@ == new@ <==> ops@.len() == 0,
        edits_view(ops@) == diff_edits(old@, new@),
        is_script(old@, edits_view(ops@), new@),
        forall|i: int| 0 <= i < ops@.len() ==> is_effective((#[trigger] ops@[i])@),
        is_least(old@, new@, touched(edits_view(ops@))),
        stand_apart(edits_view(ops@)),
{
    if same_text(old, new) {
        let ops: Vec<EditOp> = Vec::new();
        assert(edits_view(ops@) =~= Seq::empty());
        proof {
            lemma_none_is_least(old@);
        }
        return ops;
    }
    let changes = char_changes(old, new);
    let runs = join_changes(&changes);
    let ghost found = changes_view(changes@);
    let ghost all = changes_view(runs@);
    proof {
        assert forall|i: int| 0 <= i < found.len() implies (#[trigger] found[i]).1.len() > 0 by {
            assert(changes@[i].value@.len() == 1);
        }
        lemma_joined(found);
        assert forall|i: int| 0 <= i < runs@.len() implies (#[trigger] runs@[i]).value@.len()
            <= u32::MAX by {
            lemma_value_within_sides(all, i);
            assert(all[i] == runs@[i]@);
        }
    }
    let ops = edits_from_changes(&runs);
    proof {
        law_edits_lead_to_new_side(all);
        lemma_effective(all);
        lemma_touched(all);
        lemma_apart(all);
        if ops@.len() == 0 {
            lemma_no_edits(all);
        }
        assert forall|i: int| 0 <= i < ops@.len() implies is_effective((#[trigger] ops@[i])@) by {
            assert(edits_view(ops@)[i] == ops@[i]@);
        }
    }
    ops
}

} // verus!
