//! How a file is replaced: its new content goes to a temporary file beside it,
//! which is then renamed.
use vstd::prelude::*;

verus! {

/// How long the watcher stays suppressed after a write, in milliseconds.
pub const SUPPRESS_MS: u64 = 50;

/// The name of the temporary file for a file called `name`.
pub open spec fn tmp_name(name: Seq<char>) -> Seq<char> {
    ".entangle-"@ + name + ".tmp"@
}

/// The name of the temporary file for a target, by the target's name if that is
/// known as text.
pub fn tmp_file_name(name: Option<&str>) -> (tmp: String)
    ensures
        tmp@ == tmp_name(
            match name {
                Some(name) => name@,
                None => "file"@,
            },
        ),
{
    let name = match name {
        Some(name) => name,
        None => "file",
    };
    let mut tmp = ".entangle-".to_owned();
    tmp.append(name);
    tmp.append(".tmp");
    tmp
}

/// A temporary file is hidden and has the whole of its target's name, between what
/// marks it as one of this program and its extension.
pub proof fn law_tmp_name_holds_the_target(name: Seq<char>)
    ensures
        tmp_name(name).len() == name.len() + 14,
        tmp_name(name)[0] == '.',
        tmp_name(name).take(10) == ".entangle-"@,
        tmp_name(name).subrange(10, 10 + name.len() as int) == name,
        tmp_name(name).skip(10 + name.len() as int) == ".tmp"@,
{
    reveal_strlit(".entangle-");
    reveal_strlit(".tmp");
    assert(tmp_name(name).take(10) =~= ".entangle-"@);
    assert(tmp_name(name).subrange(10, 10 + name.len() as int) =~= name);
    assert(tmp_name(name).skip(10 + name.len() as int) =~= ".tmp"@);
}

/// The temporary file is not the target.
pub proof fn law_tmp_name_differs_from_target(name: Seq<char>)
    ensures
        tmp_name(name) != name,
{
    reveal_strlit(".entangle-");
    assert(tmp_name(name).len() > name.len());
}

/// Different targets have different temporary files.
pub proof fn law_tmp_names_differ(name1: Seq<char>, name2: Seq<char>)
    requires
        tmp_name(name1) == tmp_name(name2),
    ensures
        name1 == name2,
{
    reveal_strlit(".entangle-");
    reveal_strlit(".tmp");
    let n = ".entangle-"@.len() as int;
    assert(tmp_name(name1).len() == n + name1.len() + 4);
    assert(tmp_name(name2).len() == n + name2.len() + 4);
    assert(tmp_name(name1).subrange(n, n + name1.len()) =~= name1);
    assert(tmp_name(name2).subrange(n, n + name2.len()) =~= name2);
}

} // verus!
