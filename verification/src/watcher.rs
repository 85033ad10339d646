//! Which of the things that happen in the file system matter.
use vstd::prelude::*;
use crate::text::same_bytes;

verus! {

/// What kind of thing happened.
#[derive(Debug, Clone, Copy, PartialEq)]
pub enum FsEventKind {
    /// Something was created.
    Create,
    /// Something was modified or renamed.
    Modify,
    /// Anything else, such as an access or a removal.
    Other,
}

/// Something that happened in the file system. A path is given by the bytes of
/// its components, so that two paths are the same if their components are.
#[derive(Debug, Clone)]
pub struct FsEvent {
    pub kind: FsEventKind,
    pub paths: Vec<Vec<Vec<u8>>>,
}

/// What to do about an event.
#[derive(Debug, Clone, Copy, PartialEq)]
pub enum Reaction {
    /// It is none of ours.
    Ignore,
    /// It is our own write.
    Suppress,
    /// Tell the session.
    Notify,
}

/// The components of a path.
pub open spec fn parts_view(path: Seq<Vec<u8>>) -> Seq<Seq<u8>> {
    path.map_values(|part: Vec<u8>| part@)
}

/// Whether an event creates or modifies the file at `target`.
pub open spec fn concerns(event: &FsEvent, target: Seq<Seq<u8>>) -> bool {
    &&& event.kind == FsEventKind::Create || event.kind == FsEventKind::Modify
    &&& exists|i: int|
        0 <= i < event.paths@.len() && parts_view((#[trigger] event.paths@[i])@) == target
}

/// What to do about an event, while the watcher is or is not suppressed.
pub open spec fn reaction_to(
    event: &FsEvent,
    target: Seq<Seq<u8>>,
    suppressed: bool,
) -> Reaction {
    if !concerns(event, target) {
        Reaction::Ignore
    } else if suppressed {
        Reaction::Suppress
    } else {
        Reaction::Notify
    }
}

/// Nothing that happens while the watcher is suppressed reaches the session.
pub proof fn law_suppressed_events_stay_unheard(event: &FsEvent, target: Seq<Seq<u8>>)
    ensures
        reaction_to(event, target, true) != Reaction::Notify,
{
}

/// What happens to other files does not reach the session.
pub proof fn law_other_files_stay_unheard(event: &FsEvent, target: Seq<Seq<u8>>, suppressed: bool)
    requires
        forall|i: int|
            0 <= i < event.paths@.len() ==> parts_view((#[trigger] event.paths@[i])@) != target,
    ensures
        reaction_to(event, target, suppressed) == Reaction::Ignore,
{
}

/// What happens to the file reaches the session: that it was created or modified,
/// alone or among other files, unless it is written here just now.
pub proof fn law_change_of_the_file_is_heard(
    event: &FsEvent,
    target: Seq<Seq<u8>>,
    suppressed: bool,
    i: int,
)
    requires
        event.kind == FsEventKind::Create || event.kind == FsEventKind::Modify,
        0 <= i < event.paths@.len(),
        event.paths@[i]@.len() == target.len(),
        forall|k: int| 0 <= k < target.len() ==> (#[trigger] event.paths@[i]@[k])@ == target[k],
    ensures
        reaction_to(event, target, suppressed) == (if suppressed {
            Reaction::Suppress
        } else {
            Reaction::Notify
        }),
{
    assert(parts_view(event.paths@[i]@) =~= target);
}

/// What is neither a creation nor a modification does not reach the session.
pub proof fn law_other_events_stay_unheard(
    event: &FsEvent,
    target: Seq<Seq<u8>>,
    suppressed: bool,
)
    requires
        event.kind == FsEventKind::Other,
    ensures
        reaction_to(event, target, suppressed) == Reaction::Ignore,
{
}

/// Two paths are the same if they have the same components in the same order, and
/// only then.
pub proof fn law_paths_differ_in_a_component(a: Seq<Vec<u8>>, b: Seq<Vec<u8>>)
    ensures
        parts_view(a) == parts_view(b) <==> a.len() == b.len() && forall|i: int|
            0 <= i < a.len() ==> (#[trigger] a[i])@ == b[i]@,
{
    assert(parts_view(a).len() == a.len() && parts_view(b).len() == b.len());
    if parts_view(a) == parts_view(b) {
        assert forall|i: int| 0 <= i < a.len() implies (#[trigger] a[i])@ == b[i]@ by {
            assert(parts_view(a)[i] == parts_view(b)[i]);
        }
    }
    if a.len() == b.len() && forall|i: int| 0 <= i < a.len() ==> (#[trigger] a[i])@ == b[i]@ {
        assert(parts_view(a) =~= parts_view(b));
    }
}

/// Tells whether two paths are the same.
fn same_path(a: &Vec<Vec<u8>>, b: &Vec<Vec<u8>>) -> (same: bool)
    ensures
        same == (parts_view(a@) == parts_view(b@)),
{
    assert(parts_view(a@).len() == a@.len() && parts_view(b@).len() == b@.len());
    if a.len() != b.len() {
        return false;
    }
    let mut i: usize = 0;
    while i < a.len()
        invariant
            i <= a@.len(),
            a@.len() == b@.len(),
            forall|j: int| 0 <= j < i ==> (#[trigger] a@[j])@ == b@[j]@,
        decreases a@.len() - i,
    {
        if !same_bytes(a[i].as_slice(), b[i].as_slice()) {
            assert(parts_view(a@)[i as int] != parts_view(b@)[i as int]);
            return false;
        }
        i += 1;
    }
    assert(parts_view(a@) =~= parts_view(b@));
    true
}

/// Tells whether an event creates or modifies the file at `target`.
pub fn is_relevant_event(event: &FsEvent, target: &Vec<Vec<u8>>) -> (relevant: bool)
    ensures
        relevant == concerns(event, parts_view(target@)),
{
    match event.kind {
        FsEventKind::Modify | FsEventKind::Create => {},
        FsEventKind::Other => {
            return false;
        },
    }
    let mut i: usize = 0;
    while i < event.paths.len()
        invariant
            i <= event.paths@.len(),
            event.kind == FsEventKind::Create || event.kind == FsEventKind::Modify,
            forall|j: int|
                0 <= j < i ==> parts_view((#[trigger] event.paths@[j])@) != parts_view(target@),
        decreases event.paths@.len() - i,
    {
        if same_path(&event.paths[i], target) {
            return true;
        }
        i += 1;
    }
    false
}

/// Computes [`reaction_to`].
pub fn react(event: &FsEvent, target: &Vec<Vec<u8>>, suppressed: bool) -> (reaction: Reaction)
    ensures
        reaction == reaction_to(event, parts_view(target@), suppressed),
{
    if !is_relevant_event(event, target) {
        Reaction::Ignore
    } else if suppressed {
        Reaction::Suppress
    } else {
        Reaction::Notify
    }
}

/// Whether to tell the session to poll: not while the file is being written
/// here, and not if it is not there.
pub fn poll_due(suppressed: bool, file_exists: bool) -> (due: bool)
    ensures
        due == (!suppressed && file_exists),
{
    !suppressed && file_exists
}

} // verus!
