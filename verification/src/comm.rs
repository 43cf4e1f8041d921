//! Comparing two files line by line: the lines of both are walked together,
//! and each line is put in the column of the first file, of the second file
//! or of both.

use crate::lines::{read_lines, strip_terminator, text_lines, texts, without_terminator, Source};
use crate::text::{push_str, string_of};
use vstd::prelude::*;
use vstd::utf8::encode_utf8;

verus! {

/// A line, with the column it belongs in.
#[derive(Debug, Clone, Copy)]
pub enum Column<'a> {
    /// A line of the first file only.
    Col1(&'a str),
    /// A line of the second file only.
    Col2(&'a str),
    /// A line of both files.
    Col3(&'a str),
}

/// Why two files could not be compared.
#[derive(Debug, Clone, PartialEq, Eq)]
pub enum CommError {
    /// Both files are the standard input.
    BothStdin,
    /// A file could not be opened; it holds the file's name.
    Unreadable(String),
}

/// A [`CommError`] as a mathematical value.
pub enum CommFault {
    BothStdin,
    Unreadable(Seq<char>),
}

impl View for CommError {
    type V = CommFault;

    open spec fn view(&self) -> CommFault {
        match self {
            CommError::BothStdin => CommFault::BothStdin,
            CommError::Unreadable(name) => CommFault::Unreadable(name@),
        }
    }
}

impl CommFault {
    /// The fault in words.
    pub open spec fn message(self) -> Seq<char> {
        match self {
            CommFault::BothStdin => "comm: input files cannot be both STDIN (\"-\")"@,
            CommFault::Unreadable(name) => "comm: "@ + name + ": cannot be opened"@,
        }
    }
}

impl CommError {
    /// The error in words, as it is reported.
    pub fn message(&self) -> (r: String)
        ensures
            r@ == self@.message(),
    {
        let mut out: Vec<char> = Vec::new();
        match self {
            CommError::BothStdin => {
                push_str(&mut out, "comm: input files cannot be both STDIN (\"-\")");
            },
            CommError::Unreadable(name) => {
                push_str(&mut out, "comm: ");
                push_str(&mut out, name.as_str());
                push_str(&mut out, ": cannot be opened");
            },
        }
        string_of(&out)
    }
}

/// What `str::to_lowercase` makes of a text.
pub uninterp spec fn lowercase(s: Seq<char>) -> Seq<char>;

/// `str::to_lowercase` returns the lower-case equivalent of the string.
pub assume_specification[ str::to_lowercase ](s: &str) -> (r: String)
    ensures
        r@ == lowercase(s@),
;

/// Whether `name` names the standard input.
pub open spec fn is_stdin(name: Seq<char>) -> bool {
    name == seq!['-']
}

fn names_stdin(name: &str) -> (r: bool)
    ensures
        r == is_stdin(name@),
{
    let chars = crate::text::chars_of(name);
    if chars.len() == 1 && chars[0] == '-' {
        assert(chars@ == seq!['-']);
        true
    } else {
        false
    }
}

/// Refuses two files that are both the standard input.
pub fn validate_file_name(file_1: &str, file_2: &str) -> (r: Result<(), CommError>)
    ensures
        r is Err <==> is_stdin(file_1@) && is_stdin(file_2@),
        r matches Err(e) ==> e@ == CommFault::BothStdin,
{
    if names_stdin(file_1) && names_stdin(file_2) {
        return Err(CommError::BothStdin);
    }
    Ok(())
}

/// A line as it is compared and written: without its line terminator, and in
/// lower case where case is ignored.
pub open spec fn prepared_line(line: Seq<char>, ignore_case: bool) -> Seq<char> {
    if ignore_case {
        lowercase(without_terminator(line))
    } else {
        without_terminator(line)
    }
}

/// The lines of a file as they are compared: those before the first that is
/// not text.
pub open spec fn prepared(content: Seq<u8>, ignore_case: bool) -> Seq<Seq<char>> {
    text_lines(content).map_values(|line: Seq<char>| prepared_line(line, ignore_case))
}

/// The lines of a file, given by its contents, made ready to be compared.
/// Reading ends without a fault at a line that is not text.
pub fn prepare_line_iterator(content: &[u8], ignore_case: bool) -> (r: Vec<String>)
    ensures
        texts(r@) == prepared(content@, ignore_case),
{
    let file = read_lines(content);
    let ghost f = |line: Seq<char>| prepared_line(line, ignore_case);
    let mut out: Vec<String> = Vec::new();
    let mut i: usize = 0;
    while i < file.lines.len()
        invariant
            i <= file.lines.len(),
            texts(file.lines@) == text_lines(content@),
            f == |line: Seq<char>| prepared_line(line, ignore_case),
            texts(out@) == text_lines(content@).take(i as int).map_values(f),
        decreases file.lines.len() - i,
    {
        let bare = strip_terminator(file.lines[i].as_str());
        let line = if ignore_case {
            bare.as_str().to_lowercase()
        } else {
            bare
        };
        let ghost before = out@;
        out.push(line);
        proof {
            let all = text_lines(content@);
            assert(all[i as int] == file.lines@[i as int]@);
            assert(texts(out@) == texts(before).push(line@));
            assert(all.take(i + 1).map_values(f) == all.take(i as int).map_values(f).push(line@));
        }
        i += 1;
    }
    assert(text_lines(content@).take(i as int) == text_lines(content@));
    out
}

/// `count` times `delimiter`, then `value`.
pub open spec fn indented(delimiter: Seq<char>, count: nat, value: Seq<char>) -> Seq<char>
    decreases count,
{
    if count == 0 {
        value
    } else {
        delimiter + indented(delimiter, (count - 1) as nat, value)
    }
}

/// The line written for a line in the column `column` (1, 2 or 3): nothing
/// where the column is not shown; else the line, after one delimiter for
/// each shown column before its own.
pub open spec fn column_line(
    show_col_1: bool,
    show_col_2: bool,
    show_col_3: bool,
    delimiter: Seq<char>,
    column: int,
    value: Seq<char>,
) -> Option<Seq<char>> {
    let first: nat = if show_col_1 {
        1
    } else {
        0
    };
    let second: nat = if show_col_2 {
        1
    } else {
        0
    };
    if column == 1 {
        if show_col_1 {
            Some(value)
        } else {
            None
        }
    } else if column == 2 {
        if show_col_2 {
            Some(indented(delimiter, first, value))
        } else {
            None
        }
    } else {
        if show_col_3 {
            Some(indented(delimiter, first + second, value))
        } else {
            None
        }
    }
}

impl Column<'_> {
    /// The number of the column.
    pub open spec fn number(self) -> int {
        match self {
            Column::Col1(_) => 1,
            Column::Col2(_) => 2,
            Column::Col3(_) => 3,
        }
    }

    /// The line.
    pub open spec fn value(self) -> Seq<char> {
        match self {
            Column::Col1(v) => v@,
            Column::Col2(v) => v@,
            Column::Col3(v) => v@,
        }
    }
}

/// The line to write for `col`, without its line feed, if its column is
/// shown.
pub fn log_data(
    show_col_1: bool,
    show_col_2: bool,
    show_col_3: bool,
    delimiter: &str,
    col: Column,
) -> (r: Option<String>)
    ensures
        match column_line(
            show_col_1,
            show_col_2,
            show_col_3,
            delimiter@,
            col.number(),
            col.value(),
        ) {
            Some(line) => r matches Some(text) && text@ == line,
            None => r is None,
        },
{
    let mut out: Vec<char> = Vec::new();
    match col {
        Column::Col1(val) => {
            if !show_col_1 {
                return None;
            }
            push_str(&mut out, val);
        },
        Column::Col2(val) => {
            if !show_col_2 {
                return None;
            }
            if show_col_1 {
                push_str(&mut out, delimiter);
            }
            push_str(&mut out, val);
            proof {
                reveal_with_fuel(indented, 2);
            }
        },
        Column::Col3(val) => {
            if !show_col_3 {
                return None;
            }
            if show_col_1 {
                push_str(&mut out, delimiter);
            }
            if show_col_2 {
                push_str(&mut out, delimiter);
            }
            push_str(&mut out, val);
            proof {
                reveal_with_fuel(indented, 3);
                assert(delimiter@ + delimiter@ + val@ == delimiter@ + (delimiter@ + val@));
            }
        },
    }
    Some(string_of(&out))
}

/// How `a` stands to `b` in the order of byte strings: negative where `a`
/// comes first, zero where they are the same, positive where `b` comes
/// first. The first byte in which they differ decides; a string comes
/// before every string that it starts.
pub open spec fn bytes_order(a: Seq<u8>, b: Seq<u8>) -> int
    decreases a.len(),
{
    if a.len() == 0 && b.len() == 0 {
        0
    } else if a.len() == 0 {
        -1
    } else if b.len() == 0 {
        1
    } else if a[0] < b[0] {
        -1
    } else if a[0] > b[0] {
        1
    } else {
        bytes_order(a.drop_first(), b.drop_first())
    }
}

/// Strings are ordered as std orders them, by their bytes.
fn order_of(a: &str, b: &str) -> (r: i8)
    ensures
        r == bytes_order(encode_utf8(a@), encode_utf8(b@)),
{
    let x = a.as_bytes();
    let y = b.as_bytes();
    let mut i: usize = 0;
    assert(x@.skip(0) == x@ && y@.skip(0) == y@);
    while i < x.len() && i < y.len()
        invariant
            i <= x.len(),
            i <= y.len(),
            x@ == encode_utf8(a@),
            y@ == encode_utf8(b@),
            bytes_order(x@, y@) == bytes_order(x@.skip(i as int), y@.skip(i as int)),
        decreases x.len() - i,
    {
        assert(x@.skip(i as int)[0] == x@[i as int]);
        assert(y@.skip(i as int)[0] == y@[i as int]);
        if x[i] < y[i] {
            return -1;
        }
        if x[i] > y[i] {
            return 1;
        }
        assert(x@.skip(i as int).drop_first() == x@.skip(i + 1));
        assert(y@.skip(i as int).drop_first() == y@.skip(i + 1));
        i += 1;
    }
    if i < y.len() {
        -1
    } else if i < x.len() {
        1
    } else {
        0
    }
}

/// Zero or one line: what is written for a line in a column.
pub open spec fn column_lines(
    show_col_1: bool,
    show_col_2: bool,
    show_col_3: bool,
    delimiter: Seq<char>,
    column: int,
    value: Seq<char>,
) -> Seq<Seq<char>> {
    match column_line(show_col_1, show_col_2, show_col_3, delimiter, column, value) {
        Some(line) => seq![line],
        None => Seq::empty(),
    }
}

/// The lines written for the lines `a` of the first file and `b` of the
/// second. The first lines of both are compared: equal lines go to the third
/// column and both files move on; else the line that comes first in the order
/// of strings goes to its file's column and that file moves on. When one
/// file has ended, the lines of the other go to its column.
pub open spec fn compared(
    a: Seq<Seq<char>>,
    b: Seq<Seq<char>>,
    show_col_1: bool,
    show_col_2: bool,
    show_col_3: bool,
    delimiter: Seq<char>,
) -> Seq<Seq<char>>
    decreases a.len() + b.len(),
{
    if a.len() == 0 && b.len() == 0 {
        Seq::empty()
    } else if b.len() == 0 || (a.len() > 0 && bytes_order(encode_utf8(a[0]), encode_utf8(b[0]))
        < 0) {
        column_lines(show_col_1, show_col_2, show_col_3, delimiter, 1, a[0]) + compared(
            a.drop_first(),
            b,
            show_col_1,
            show_col_2,
            show_col_3,
            delimiter,
        )
    } else if a.len() == 0 || bytes_order(encode_utf8(a[0]), encode_utf8(b[0])) > 0 {
        column_lines(show_col_1, show_col_2, show_col_3, delimiter, 2, b[0]) + compared(
            a,
            b.drop_first(),
            show_col_1,
            show_col_2,
            show_col_3,
            delimiter,
        )
    } else {
        column_lines(show_col_1, show_col_2, show_col_3, delimiter, 3, a[0]) + compared(
            a.drop_first(),
            b.drop_first(),
            show_col_1,
            show_col_2,
            show_col_3,
            delimiter,
        )
    }
}

/// What comparing two files gives: the fault that two standard inputs or a
/// file that could not be opened are, the first file before the second; else
/// the lines written.
pub open spec fn comm_output(
    file_1: Source,
    file_2: Source,
    show_col_1: bool,
    show_col_2: bool,
    show_col_3: bool,
    ignore_case: bool,
    delimiter: Seq<char>,
) -> Result<Seq<Seq<char>>, CommFault> {
    if is_stdin(file_1.name@) && is_stdin(file_2.name@) {
        Err(CommFault::BothStdin)
    } else if file_1.content is None {
        Err(CommFault::Unreadable(file_1.name@))
    } else if file_2.content is None {
        Err(CommFault::Unreadable(file_2.name@))
    } else {
        Ok(
            compared(
                prepared(file_1.content->0@, ignore_case),
                prepared(file_2.content->0@, ignore_case),
                show_col_1,
                show_col_2,
                show_col_3,
                delimiter,
            ),
        )
    }
}

/// Compares two files line by line and gives the lines to write, without
/// their line feeds.
pub fn comm(
    file_1: &Source,
    file_2: &Source,
    show_col_1: bool,
    show_col_2: bool,
    show_col_3: bool,
    ignore_case: bool,
    delimiter: &str,
) -> (r: Result<Vec<String>, CommError>)
    ensures
        match comm_output(
            *file_1,
            *file_2,
            show_col_1,
            show_col_2,
            show_col_3,
            ignore_case,
            delimiter@,
        ) {
            Ok(lines) => r matches Ok(out) && texts(out@) == lines,
            Err(fault) => r matches Err(e) && e@ == fault,
        },
{
    validate_file_name(file_1.name.as_str(), file_2.name.as_str())?;
    let lines_1 = match &file_1.content {
        Some(content) => prepare_line_iterator(content.as_slice(), ignore_case),
        None => {
            return Err(CommError::Unreadable(file_1.name.clone()));
        },
    };
    let lines_2 = match &file_2.content {
        Some(content) => prepare_line_iterator(content.as_slice(), ignore_case),
        None => {
            return Err(CommError::Unreadable(file_2.name.clone()));
        },
    };
    let ghost a = texts(lines_1@);
    let ghost b = texts(lines_2@);
    let ghost d = delimiter@;
    let mut out: Vec<String> = Vec::new();
    let mut i: usize = 0;
    let mut j: usize = 0;
    assert(a.skip(0) == a && b.skip(0) == b);
    assert(texts(out@) + compared(a, b, show_col_1, show_col_2, show_col_3, d) == compared(
        a,
        b,
        show_col_1,
        show_col_2,
        show_col_3,
        d,
    ));
    while i < lines_1.len() || j < lines_2.len()
        invariant
            i <= lines_1.len(),
            j <= lines_2.len(),
            a == texts(lines_1@),
            b == texts(lines_2@),
            d == delimiter@,
            compared(a, b, show_col_1, show_col_2, show_col_3, d) == texts(out@) + compared(
                a.skip(i as int),
                b.skip(j as int),
                show_col_1,
                show_col_2,
                show_col_3,
                d,
            ),
        decreases lines_1.len() - i + lines_2.len() - j,
    {
        let ghost rest_a = a.skip(i as int);
        let ghost rest_b = b.skip(j as int);
        proof {
            if i < lines_1.len() {
                assert(rest_a[0] == lines_1@[i as int]@);
                assert(rest_a.drop_first() == a.skip(i + 1));
            }
            if j < lines_2.len() {
                assert(rest_b[0] == lines_2@[j as int]@);
                assert(rest_b.drop_first() == b.skip(j + 1));
            }
        }
        let order: i8 = if j >= lines_2.len() {
            -1
        } else if i >= lines_1.len() {
            1
        } else {
            order_of(lines_1[i].as_str(), lines_2[j].as_str())
        };
        let col = if order < 0 {
            Column::Col1(lines_1[i].as_str())
        } else if order > 0 {
            Column::Col2(lines_2[j].as_str())
        } else {
            Column::Col3(lines_1[i].as_str())
        };
        let ghost before = out@;
        let ghost step = column_lines(
            show_col_1,
            show_col_2,
            show_col_3,
            d,
            col.number(),
            col.value(),
        );
        match log_data(show_col_1, show_col_2, show_col_3, delimiter, col) {
            Some(line) => {
                out.push(line);
                assert(texts(out@) == texts(before).push(line@));
            },
            None => {},
        }
        assert(texts(out@) == texts(before) + step);
        if order <= 0 {
            i += 1;
        }
        if order >= 0 {
            j += 1;
        }
        proof {
            let next = compared(
                a.skip(i as int),
                b.skip(j as int),
                show_col_1,
                show_col_2,
                show_col_3,
                d,
            );
            assert(compared(rest_a, rest_b, show_col_1, show_col_2, show_col_3, d) == step + next);
            assert(texts(before) + (step + next) == texts(before) + step + next);
        }
    }
    assert(compared(a.skip(i as int), b.skip(j as int), show_col_1, show_col_2, show_col_3, d)
        == Seq::<Seq<char>>::empty());
    assert(texts(out@) + Seq::<Seq<char>>::empty() == texts(out@));
    Ok(out)
}

} // verus!
