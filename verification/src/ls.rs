//! Listing directories: which entries are shown, and the long form of an
//! entry with its permissions.

use crate::lines::texts;
use crate::text::{chars_of, decimal, decimal_chars, push_str, string_of};
use vstd::prelude::*;

verus! {

/// Whose permissions are meant.
#[derive(Clone, Copy, Debug, PartialEq, Eq, Structural)]
pub enum Owner {
    /// The user who owns the file.
    User,
    /// The group that owns the file.
    Group,
    /// Everybody else.
    Other,
}

impl Owner {
    /// The bits of a file mode that stand for this owner's permission to
    /// read, to write and to execute.
    pub open spec fn mask_bits(self) -> (u32, u32, u32) {
        match self {
            Owner::User => (0o400, 0o200, 0o100),
            Owner::Group => (0o040, 0o020, 0o010),
            Owner::Other => (0o004, 0o002, 0o001),
        }
    }

    /// The bits of a file mode that stand for this owner's permission to
    /// read, to write and to execute, in that order.
    pub fn masks(&self) -> (r: [u32; 3])
        ensures
            (r[0], r[1], r[2]) == self.mask_bits(),
    {
        match self {
            Owner::User => [0o400, 0o200, 0o100],
            Owner::Group => [0o040, 0o020, 0o010],
            Owner::Other => [0o004, 0o002, 0o001],
        }
    }
}

/// The permissions of one owner as three characters: `r`, `w` and `x` for
/// what is permitted, `-` for what is not.
pub open spec fn triple(mode: u32, owner: Owner) -> Seq<char> {
    let (read, write, execute) = owner.mask_bits();
    seq![
        if mode & read == 0 {
            '-'
        } else {
            'r'
        },
        if mode & write == 0 {
            '-'
        } else {
            'w'
        },
        if mode & execute == 0 {
            '-'
        } else {
            'x'
        },
    ]
}

/// The permissions of one owner, such as `r-x`.
pub fn mk_triple(mode: u32, owner: Owner) -> (r: String)
    ensures
        r@ == triple(mode, owner),
{
    let masks = owner.masks();
    let read = masks[0];
    let write = masks[1];
    let execute = masks[2];
    let mut out: Vec<char> = Vec::new();
    out.push(if mode & read == 0 { '-' } else { 'r' });
    out.push(if mode & write == 0 { '-' } else { 'w' });
    out.push(if mode & execute == 0 { '-' } else { 'x' });
    assert(out@ == triple(mode, owner));
    string_of(&out)
}

/// The permissions of a file mode, such as `rwxr-x--x` for `0o751`: those of
/// the user, of the group and of the others.
pub open spec fn mode_text(mode: u32) -> Seq<char> {
    triple(mode, Owner::User) + triple(mode, Owner::Group) + triple(mode, Owner::Other)
}

/// The permissions of a file mode as nine characters.
pub fn format_mode(mode: u32) -> (r: String)
    ensures
        r@ == mode_text(mode),
{
    let mut out: Vec<char> = Vec::new();
    push_str(&mut out, mk_triple(mode, Owner::User).as_str());
    push_str(&mut out, mk_triple(mode, Owner::Group).as_str());
    push_str(&mut out, mk_triple(mode, Owner::Other).as_str());
    string_of(&out)
}

/// Whether a name is hidden: it starts with a dot.
pub open spec fn hidden(file_name: Seq<char>) -> bool {
    file_name.len() > 0 && file_name[0] == '.'
}

/// Whether a file of this name is hidden.
pub fn is_hidden(file_name: &str) -> (r: bool)
    ensures
        r == hidden(file_name@),
{
    let chars = chars_of(file_name);
    chars.len() > 0 && chars[0] == '.'
}

/// An entry of a directory.
#[derive(Debug, Clone)]
pub struct Child {
    /// The path of the entry.
    pub path: String,
    /// The last part of the path, where it has one.
    pub file_name: Option<String>,
}

/// What was found at a path that is to be listed.
#[derive(Debug, Clone)]
pub enum Listing {
    /// Nothing could be found out; it holds the reason.
    Missing(String),
    /// A directory, with its entries.
    Dir(Vec<Child>),
    /// Anything that is no directory.
    File,
}

/// A path that is to be listed, with what was found there.
#[derive(Debug, Clone)]
pub struct Listed {
    /// The path as it was given.
    pub name: String,
    /// What was found there.
    pub listing: Listing,
}

/// Whether an entry of a directory is shown: every entry is where the hidden
/// are shown, else those whose name does not start with a dot.
pub open spec fn child_shown(child: Child, show_hidden: bool) -> bool {
    show_hidden || match child.file_name {
        Some(name) => !hidden(name@),
        None => true,
    }
}

/// The paths of the entries of a directory that are shown.
pub open spec fn shown_children(children: Seq<Child>, show_hidden: bool) -> Seq<Seq<char>>
    decreases children.len(),
{
    if children.len() == 0 {
        Seq::empty()
    } else {
        shown_children(children.drop_last(), show_hidden) + if child_shown(
            children.last(),
            show_hidden,
        ) {
            seq![children.last().path@]
        } else {
            Seq::empty()
        }
    }
}

/// The paths that one listed path stands for: the shown entries of a
/// directory, the path itself for anything else that is there.
pub open spec fn paths_of(listed: Listed, show_hidden: bool) -> Seq<Seq<char>> {
    match listed.listing {
        Listing::Missing(_) => Seq::empty(),
        Listing::Dir(children) => shown_children(children@, show_hidden),
        Listing::File => seq![listed.name@],
    }
}

/// The report on one listed path: its name and the reason, where nothing
/// could be found out about it.
pub open spec fn report_of(listed: Listed) -> Seq<Seq<char>> {
    match listed.listing {
        Listing::Missing(reason) => seq![listed.name@ + ": "@ + reason@],
        _ => Seq::empty(),
    }
}

/// The paths that all listed paths stand for, in order.
pub open spec fn found_paths(paths: Seq<Listed>, show_hidden: bool) -> Seq<Seq<char>>
    decreases paths.len(),
{
    if paths.len() == 0 {
        Seq::empty()
    } else {
        found_paths(paths.drop_last(), show_hidden) + paths_of(paths.last(), show_hidden)
    }
}

/// The reports on all listed paths, in order.
pub open spec fn found_reports(paths: Seq<Listed>) -> Seq<Seq<char>>
    decreases paths.len(),
{
    if paths.len() == 0 {
        Seq::empty()
    } else {
        found_reports(paths.drop_last()) + report_of(paths.last())
    }
}

/// The paths to list, and the reports on the paths about which nothing could
/// be found out.
#[derive(Debug)]
pub struct Found {
    /// The paths to list, in order.
    pub paths: Vec<String>,
    /// The lines that report a failure, in order.
    pub errors: Vec<String>,
}

/// Finds what is to be listed for the paths given: for a directory its
/// entries, without the hidden ones unless they are asked for; for anything
/// else the path itself. A path about which nothing could be found out is
/// reported and passed over.
pub fn find_files(paths: &Vec<Listed>, show_hidden: bool) -> (r: Found)
    ensures
        texts(r.paths@) == found_paths(paths@, show_hidden),
        texts(r.errors@) == found_reports(paths@),
{
    let mut found: Vec<String> = Vec::new();
    let mut errors: Vec<String> = Vec::new();
    let mut i: usize = 0;
    while i < paths.len()
        invariant
            i <= paths.len(),
            texts(found@) == found_paths(paths@.take(i as int), show_hidden),
            texts(errors@) == found_reports(paths@.take(i as int)),
        decreases paths.len() - i,
    {
        proof {
            let now = paths@.take(i + 1);
            assert(now.drop_last() == paths@.take(i as int));
            assert(now.last() == paths@[i as int]);
        }
        let ghost found_before = texts(found@);
        let ghost errors_before = texts(errors@);
        match &paths[i].listing {
            Listing::Missing(reason) => {
                let mut line = chars_of(paths[i].name.as_str());
                push_str(&mut line, ": ");
                push_str(&mut line, reason.as_str());
                let text = string_of(&line);
                let ghost before = errors@;
                errors.push(text);
                assert(texts(errors@) == texts(before).push(text@));
                assert(found_before + Seq::<Seq<char>>::empty() == found_before);
            },
            Listing::Dir(children) => {
                let mut k: usize = 0;
                while k < children.len()
                    invariant
                        k <= children.len(),
                        texts(found@) == found_before + shown_children(
                            children@.take(k as int),
                            show_hidden,
                        ),
                    decreases children.len() - k,
                {
                    proof {
                        let now = children@.take(k + 1);
                        assert(now.drop_last() == children@.take(k as int));
                        assert(now.last() == children@[k as int]);
                    }
                    let is_shown = show_hidden || match &children[k].file_name {
                        Some(name) => !is_hidden(name.as_str()),
                        None => true,
                    };
                    if is_shown {
                        let ghost before = found@;
                        let path = children[k].path.clone();
                        found.push(path);
                        assert(texts(found@) == texts(before).push(path@));
                    }
                    k += 1;
                }
                assert(children@.take(k as int) == children@);
                assert(errors_before + Seq::<Seq<char>>::empty() == errors_before);
            },
            Listing::File => {
                let ghost before = found@;
                let path = paths[i].name.clone();
                found.push(path);
                assert(texts(found@) == texts(before).push(path@));
                assert(errors_before + Seq::<Seq<char>>::empty() == errors_before);
            },
        }
        i += 1;
    }
    assert(paths@.take(i as int) == paths@);
    Found { paths: found, errors }
}

/// What the long form tells of one path.
#[derive(Debug, Clone)]
pub struct LongEntry {
    /// Whether the path is a directory.
    pub is_dir: bool,
    /// The file mode.
    pub mode: u32,
    /// The number of hard links.
    pub nlink: u64,
    /// The name of the user who owns the file, or the user's number.
    pub user: String,
    /// The name of the group that owns the file, or the group's number.
    pub group: String,
    /// The size in bytes.
    pub len: u64,
    /// The time of the last change, as it is written.
    pub modified: String,
    /// The path, as it is written.
    pub path: String,
}

/// The layout of the long form: eight columns.
pub open spec fn long_format() -> Seq<char> {
    "{:<}{:<}  {:>}  {:<}  {:<}  {:>}  {:<}  {:<}"@
}

/// The eight cells of an entry in the long form: the kind, the permissions,
/// the links, the user, the group, the size, the time and the path.
pub open spec fn cells_of(entry: LongEntry) -> Seq<Seq<char>> {
    seq![
        if entry.is_dir {
            seq!['d']
        } else {
            seq!['-']
        },
        mode_text(entry.mode),
        decimal(entry.nlink as nat),
        entry.user@,
        entry.group@,
        decimal(entry.len as nat),
        entry.modified@,
        entry.path@,
    ]
}

/// The number of columns of a table that `tabular::Table::new_safe` makes
/// from a layout, where it accepts the layout.
pub uninterp spec fn table_columns(format: Seq<char>) -> Option<nat>;

/// The text that a table of the `tabular` crate with the given layout and
/// rows is written as.
pub uninterp spec fn table_text(format: Seq<char>, rows: Seq<Seq<Seq<char>>>) -> Seq<char>;

/// `tabular::Table::column_count`, of a table that `tabular::Table::new_safe`
/// makes from `format`: the number of columns of the layout, or `None` for a
/// layout that is refused.
#[verifier::external_body]
fn column_count(format: &str) -> (r: Option<usize>)
    ensures
        match r {
            Some(n) => table_columns(format@) == Some(n as nat),
            None => table_columns(format@) is None,
        },
{
    tabular::Table::new_safe(format).ok().map(|table| table.column_count())
}

/// The cells of each row.
pub open spec fn rows_view(rows: Seq<Vec<String>>) -> Seq<Seq<Seq<char>>> {
    rows.map_values(|cells: Vec<String>| texts(cells@))
}

/// `tabular::Table::add_row` for each of `rows`, on a table that
/// `tabular::Table::new` makes from `format`, and the text that the table is
/// then written as. Both calls panic unless the layout is accepted and each
/// row has as many cells as the layout has columns.
#[verifier::external_body]
fn render_table(format: &str, rows: &Vec<Vec<String>>) -> (r: String)
    requires
        table_columns(format@) is Some,
        forall|i: int| 0 <= i < rows.len() ==> (#[trigger] rows[i]).len() == table_columns(format@)->0,
    ensures
        r@ == table_text(format@, rows_view(rows@)),
{
    let mut table = tabular::Table::new(format);
    for cells in rows {
        table.add_row(tabular::Row::from_cells(cells.iter().cloned()));
    }
    table.to_string()
}

fn long_cells(entry: &LongEntry) -> (r: Vec<String>)
    ensures
        r.len() == 8,
        texts(r@) == cells_of(*entry),
{
    let mut cells: Vec<String> = Vec::new();
    let kind = if entry.is_dir {
        "d"
    } else {
        "-"
    };
    proof {
        reveal_strlit("d");
        reveal_strlit("-");
        assert("d"@ == seq!['d']);
        assert("-"@ == seq!['-']);
    }
    cells.push(kind.to_owned());
    cells.push(format_mode(entry.mode));
    cells.push(string_of(&decimal_chars(entry.nlink)));
    cells.push(entry.user.clone());
    cells.push(entry.group.clone());
    cells.push(string_of(&decimal_chars(entry.len)));
    cells.push(entry.modified.clone());
    cells.push(entry.path.clone());
    assert(texts(cells@) == cells_of(*entry));
    cells
}

/// The long form of `entries`: a table with a row of eight cells for each,
/// or `None` where the `tabular` crate does not take the layout for one of
/// eight columns.
pub open spec fn long_listing(entries: Seq<LongEntry>) -> Option<Seq<char>> {
    if table_columns(long_format()) == Some(8nat) {
        Some(table_text(long_format(), entries.map_values(|entry: LongEntry| cells_of(entry))))
    } else {
        None
    }
}

/// Writes `paths` in the long form, as one table.
pub fn format_output(paths: &Vec<LongEntry>) -> (r: Option<String>)
    ensures
        match long_listing(paths@) {
            Some(text) => r matches Some(out) && out@ == text,
            None => r is None,
        },
{
    let fmt = "{:<}{:<}  {:>}  {:<}  {:<}  {:>}  {:<}  {:<}";
    match column_count(fmt) {
        Some(8) => {},
        _ => {
            return None;
        },
    }
    let ghost f = |entry: LongEntry| cells_of(entry);
    let mut rows: Vec<Vec<String>> = Vec::new();
    let mut i: usize = 0;
    while i < paths.len()
        invariant
            i <= paths.len(),
            rows.len() == i,
            f == |entry: LongEntry| cells_of(entry),
            forall|k: int| 0 <= k < i ==> (#[trigger] rows[k]).len() == 8,
            rows_view(rows@) == paths@.take(i as int).map_values(f),
        decreases paths.len() - i,
    {
        let cells = long_cells(&paths[i]);
        let ghost before = rows@;
        rows.push(cells);
        assert(rows_view(rows@) == rows_view(before).push(texts(cells@)));
        assert(paths@.take(i + 1).map_values(f) == paths@.take(i as int).map_values(f).push(
            texts(cells@),
        ));
        i += 1;
    }
    assert(paths@.take(i as int) == paths@);
    Some(render_table(fmt, &rows))
}

/// The text written for the paths `paths`: their long form where it is asked
/// for, else the paths, each on a line.
pub open spec fn ls_output(paths: Seq<LongEntry>, long: bool) -> Option<Seq<char>> {
    if long {
        match long_listing(paths) {
            Some(text) => Some(text + seq!['\n']),
            None => None,
        }
    } else {
        Some(plain_listing(paths))
    }
}

/// The paths, each followed by a line feed.
pub open spec fn plain_listing(paths: Seq<LongEntry>) -> Seq<char>
    decreases paths.len(),
{
    if paths.len() == 0 {
        Seq::empty()
    } else {
        plain_listing(paths.drop_last()) + paths.last().path@ + seq!['\n']
    }
}

/// Lists the paths that were found: in the long form as one table, else each
/// path on a line.
pub fn ls(paths: &Vec<LongEntry>, long: bool) -> (r: Option<String>)
    ensures
        match ls_output(paths@, long) {
            Some(text) => r matches Some(out) && out@ == text,
            None => r is None,
        },
{
    let mut out: Vec<char> = Vec::new();
    if long {
        match format_output(paths) {
            Some(table) => {
                push_str(&mut out, table.as_str());
                out.push('\n');
            },
            None => {
                return None;
            },
        }
    } else {
        let mut i: usize = 0;
        while i < paths.len()
            invariant
                i <= paths.len(),
                out@ == plain_listing(paths@.take(i as int)),
            decreases paths.len() - i,
        {
            proof {
                let now = paths@.take(i + 1);
                assert(now.drop_last() == paths@.take(i as int));
                assert(now.last() == paths@[i as int]);
            }
            push_str(&mut out, paths[i].path.as_str());
            out.push('\n');
            i += 1;
        }
        assert(paths@.take(i as int) == paths@);
    }
    Some(string_of(&out))
}

} // verus!
