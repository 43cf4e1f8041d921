//! Choosing among the entries found under a directory: by their kind, and by
//! patterns for their names.

use crate::echo::{join, joined};
use crate::grep::Pattern;
use crate::lines::texts;
use vstd::prelude::*;

verus! {

/// The kinds of entries that can be asked for.
#[derive(Debug, Eq, PartialEq, Clone, Copy, Structural)]
pub enum EntryType {
    /// A directory.
    Dir,
    /// An ordinary file.
    File,
    /// A symbolic link.
    Link,
}

/// An entry that a walk through a directory found.
#[derive(Debug, Clone)]
pub struct Entry {
    /// The path of the entry, as it is written.
    pub path: String,
    /// The last part of the path.
    pub file_name: String,
    /// The kind of the entry; `None` for an entry of no kind that can be
    /// asked for.
    pub kind: Option<EntryType>,
}

/// Whether an entry of the given kind is of one of the kinds asked for; every
/// entry is where no kind is asked for.
pub open spec fn type_accepted(kind: Option<EntryType>, entry_types: Seq<EntryType>) -> bool {
    entry_types.len() == 0 || exists|j: int|
        0 <= j < entry_types.len() && kind == Some(#[trigger] entry_types[j])
}

/// Whether one of the patterns matches somewhere in the name; every name is
/// accepted where there is no pattern.
pub open spec fn name_accepted(file_name: Seq<char>, names: Seq<Pattern>) -> bool {
    names.len() == 0 || exists|j: int|
        0 <= j < names.len() && (#[trigger] names[j]).matches(file_name)
}

/// Whether the entry is among those that are written.
pub open spec fn accepted(entry: Entry, names: Seq<Pattern>, entry_types: Seq<EntryType>) -> bool {
    type_accepted(entry.kind, entry_types) && name_accepted(entry.file_name@, names)
}

/// The paths of the entries that are accepted, in order.
pub open spec fn accepted_paths(
    entries: Seq<Entry>,
    names: Seq<Pattern>,
    entry_types: Seq<EntryType>,
) -> Seq<Seq<char>>
    decreases entries.len(),
{
    if entries.len() == 0 {
        Seq::empty()
    } else {
        accepted_paths(entries.drop_last(), names, entry_types) + if accepted(
            entries.last(),
            names,
            entry_types,
        ) {
            seq![entries.last().path@]
        } else {
            Seq::empty()
        }
    }
}

/// Whether an entry of the given kind is of one of the kinds asked for.
pub fn type_filter(kind: Option<EntryType>, entry_types: &Vec<EntryType>) -> (r: bool)
    ensures
        r == type_accepted(kind, entry_types@),
{
    if entry_types.len() == 0 {
        return true;
    }
    let mut j: usize = 0;
    while j < entry_types.len()
        invariant
            j <= entry_types.len(),
            forall|k: int| 0 <= k < j ==> kind != Some(#[trigger] entry_types[k]),
        decreases entry_types.len() - j,
    {
        if let Some(found) = kind {
            if found == entry_types[j] {
                return true;
            }
        }
        j += 1;
    }
    false
}

/// For each entry, whether its name is accepted.
pub fn name_filter(entries: &Vec<Entry>, names: &Vec<Pattern>) -> (r: Vec<bool>)
    ensures
        r.len() == entries.len(),
        forall|i: int|
            0 <= i < entries.len() ==> r[i] == name_accepted(
                (#[trigger] entries[i]).file_name@,
                names@,
            ),
{
    let mut file_names: Vec<String> = Vec::new();
    let mut i: usize = 0;
    while i < entries.len()
        invariant
            i <= entries.len(),
            file_names.len() == i,
            forall|k: int| 0 <= k < i ==> (#[trigger] file_names[k])@ == entries[k].file_name@,
        decreases entries.len() - i,
    {
        file_names.push(entries[i].file_name.clone());
        i += 1;
    }
    let mut found: Vec<bool> = Vec::new();
    let mut i: usize = 0;
    while i < entries.len()
        invariant
            i <= entries.len(),
            found.len() == i,
            forall|k: int| 0 <= k < i ==> !#[trigger] found[k],
        decreases entries.len() - i,
    {
        found.push(false);
        i += 1;
    }
    let mut j: usize = 0;
    while j < names.len()
        invariant
            j <= names.len(),
            found.len() == entries.len(),
            file_names.len() == entries.len(),
            forall|k: int|
                0 <= k < entries.len() ==> (#[trigger] file_names[k])@ == entries[k].file_name@,
            forall|k: int|
                0 <= k < entries.len() ==> (#[trigger] found[k] <==> exists|m: int|
                    0 <= m < j && (#[trigger] names[m]).matches(entries[k].file_name@)),
        decreases names.len() - j,
    {
        let matched = names[j].match_all(&file_names);
        let ghost before = found@;
        let mut i: usize = 0;
        while i < entries.len()
            invariant
                i <= entries.len(),
                j < names.len(),
                found.len() == entries.len(),
                matched.len() == entries.len(),
                before.len() == entries.len(),
                forall|k: int| 0 <= k < i ==> #[trigger] found[k] == (before[k] || matched[k]),
                forall|k: int| i <= k < entries.len() ==> #[trigger] found[k] == before[k],
            decreases entries.len() - i,
        {
            let now = found[i] || matched[i];
            found.set(i, now);
            i += 1;
        }
        proof {
            assert forall|k: int| 0 <= k < entries.len() implies (#[trigger] found[k]
                <==> exists|m: int|
                0 <= m < j + 1 && (#[trigger] names[m]).matches(entries[k].file_name@)) by {
                assert(matched[k] == names[j as int].matches(file_names[k]@));
                if before[k] {
                    let m = choose|m: int|
                        0 <= m < j && (#[trigger] names[m]).matches(entries[k].file_name@);
                    assert(names[m].matches(entries[k].file_name@));
                }
            }
        }
        j += 1;
    }
    if names.len() == 0 {
        let mut i: usize = 0;
        while i < entries.len()
            invariant
                i <= entries.len(),
                found.len() == entries.len(),
                forall|k: int| 0 <= k < i ==> #[trigger] found[k],
            decreases entries.len() - i,
        {
            found.set(i, true);
            i += 1;
        }
    }
    found
}

/// The text written for the entries of one walk: the paths of the accepted
/// entries, each on a line.
pub open spec fn walk_output(
    entries: Seq<Entry>,
    names: Seq<Pattern>,
    entry_types: Seq<EntryType>,
) -> Seq<char> {
    joined(accepted_paths(entries, names, entry_types), seq!['\n']) + seq!['\n']
}

/// Chooses among the entries of one walk and gives the text to write.
pub fn handle_walk(entries: &Vec<Entry>, names: &Vec<Pattern>, entry_types: &Vec<EntryType>) -> (r:
    String)
    ensures
        r@ == walk_output(entries@, names@, entry_types@),
{
    let by_name = name_filter(entries, names);
    let mut paths: Vec<String> = Vec::new();
    let mut i: usize = 0;
    while i < entries.len()
        invariant
            i <= entries.len(),
            by_name.len() == entries.len(),
            forall|k: int|
                0 <= k < entries.len() ==> by_name[k] == name_accepted(
                    (#[trigger] entries[k]).file_name@,
                    names@,
                ),
            texts(paths@) == accepted_paths(entries@.take(i as int), names@, entry_types@),
        decreases entries.len() - i,
    {
        proof {
            let now = entries@.take(i + 1);
            assert(now.drop_last() == entries@.take(i as int));
            assert(now.last() == entries[i as int]);
        }
        if type_filter(entries[i].kind, entry_types) && by_name[i] {
            let ghost before = paths@;
            let path = entries[i].path.clone();
            paths.push(path);
            assert(texts(paths@) == texts(before).push(path@));
        } else {
            assert(texts(paths@) + Seq::<Seq<char>>::empty() == texts(paths@));
        }
        i += 1;
    }
    assert(entries@.take(i as int) == entries@);
    let listing = join(paths.as_slice(), "\n");
    proof {
        reveal_strlit("\n");
        assert("\n"@ == seq!['\n']);
    }
    let mut out = crate::text::chars_of(listing.as_str());
    out.push('\n');
    crate::text::string_of(&out)
}

/// What each walk holds.
pub open spec fn walks_view(walks: Seq<Vec<Entry>>) -> Seq<Seq<Entry>> {
    walks.map_values(|entries: Vec<Entry>| entries@)
}

/// Chooses among the entries found under each starting point, given as one
/// walk for each, and gives the text to write for each.
pub fn find(walks: &Vec<Vec<Entry>>, names: &Vec<Pattern>, entry_types: &Vec<EntryType>) -> (r: Vec<
    String,
>)
    ensures
        texts(r@) == walks_view(walks@).map_values(
            |entries: Seq<Entry>| walk_output(entries, names@, entry_types@),
        ),
{
    let ghost f = |entries: Seq<Entry>| walk_output(entries, names@, entry_types@);
    let mut out: Vec<String> = Vec::new();
    let mut i: usize = 0;
    while i < walks.len()
        invariant
            i <= walks.len(),
            f == |entries: Seq<Entry>| walk_output(entries, names@, entry_types@),
            texts(out@) == walks_view(walks@).take(i as int).map_values(f),
        decreases walks.len() - i,
    {
        let text = handle_walk(&walks[i], names, entry_types);
        let ghost before = out@;
        out.push(text);
        assert(texts(out@) == texts(before).push(text@));
        assert(walks_view(walks@).take(i + 1).map_values(f) == walks_view(walks@).take(
            i as int,
        ).map_values(f).push(text@));
        i += 1;
    }
    assert(walks_view(walks@).take(i as int) == walks_view(walks@));
    out
}

} // verus!
