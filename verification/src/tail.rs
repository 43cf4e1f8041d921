//! Selecting the last part of a file: a signed count is parsed into a
//! [`TakeValue`], resolved against the file's totals into a start offset, and
//! the lines or bytes from that offset on are emitted.

use crate::lines::{byte_seqs, chunks, decode_lossy, split_lines, texts, utf8_lossy, Source};
use crate::logging::{display_file_header, header, shows_header};
use crate::text::{chars_of, numeral_value, parse_numeral, push_str, slice_chars, string_of};
use vstd::prelude::*;

verus! {

/// How long a follower waits, in seconds, before it looks at the file again.
pub const SLEEP_INTERVAL: u64 = 1;

/// Why a file's end could not be selected.
#[derive(Debug, Clone, PartialEq, Eq)]
pub enum TailError {
    /// The number of lines is no count; it holds the text as given.
    InvalidLineCount(String),
    /// The number of bytes is no count; it holds the text as given.
    InvalidByteCount(String),
}

/// A [`TailError`] as a mathematical value.
pub enum TailFault {
    InvalidLineCount(Seq<char>),
    InvalidByteCount(Seq<char>),
}

impl View for TailError {
    type V = TailFault;

    open spec fn view(&self) -> TailFault {
        match self {
            TailError::InvalidLineCount(s) => TailFault::InvalidLineCount(s@),
            TailError::InvalidByteCount(s) => TailFault::InvalidByteCount(s@),
        }
    }
}

impl TailFault {
    /// The fault in words.
    pub open spec fn message(self) -> Seq<char> {
        match self {
            TailFault::InvalidLineCount(text) => "tail: invalid number of lines: `"@ + text + "`"@,
            TailFault::InvalidByteCount(text) => "tail: invalid number of bytes: `"@ + text + "`"@,
        }
    }
}

impl TailError {
    /// The error in words, as it is reported.
    pub fn message(&self) -> (r: String)
        ensures
            r@ == self@.message(),
    {
        let mut out: Vec<char> = Vec::new();
        match self {
            TailError::InvalidLineCount(text) => {
                push_str(&mut out, "tail: invalid number of lines: `");
                push_str(&mut out, text.as_str());
            },
            TailError::InvalidByteCount(text) => {
                push_str(&mut out, "tail: invalid number of bytes: `");
                push_str(&mut out, text.as_str());
            },
        }
        push_str(&mut out, "`");
        string_of(&out)
    }
}

/// The totals of one file, found by reading it once from start to end.
#[derive(Clone, Copy, Debug, PartialEq, Eq, Structural)]
pub struct FileStats {
    /// The number of lines; a last line without a line feed counts.
    pub total_lines: i64,
    /// The number of bytes.
    pub total_bytes: i64,
}

/// A parsed count: `+0` is kept apart from every other number, because it asks
/// for everything while a plain zero asks for nothing.
#[derive(Clone, Copy, Debug, PartialEq, Eq, Structural)]
pub enum TakeValue {
    /// The text `+0`: start at the very first element.
    PlusZero,
    /// A positive number counts from the start (1-based), a negative one from
    /// the end; zero selects nothing.
    TakeNum(i64),
}

/// The zero-based offset at which output starts, or `None` where nothing is
/// to be emitted, for a signed count `value` and a total of `total` elements.
pub open spec fn start_index(value: int, total: int) -> Option<int> {
    if value == 0 || total == 0 || value > total {
        None
    } else if value < 0 {
        Some(if total + value < 0 { 0 } else { total + value })
    } else {
        Some(value - 1)
    }
}

/// The start offset that a [`TakeValue`] selects among `total` elements.
pub open spec fn resolved_start(take: TakeValue, total: int) -> Option<int> {
    match take {
        TakeValue::PlusZero => if total > 0 { Some(0) } else { None },
        TakeValue::TakeNum(n) => start_index(n as int, total),
    }
}

/// Resolves a signed count against a total into a zero-based start offset.
pub fn get_start_index(value: i64, total: i64) -> (r: Option<u64>)
    requires
        0 <= total,
    ensures
        r is Some <==> start_index(value as int, total as int) is Some,
        r matches Some(s) ==> start_index(value as int, total as int) == Some(s as int),
{
    if value == 0 || total == 0 || value > total {
        None
    } else if value < 0 {
        let start: i64 = total + value;
        if start < 0 {
            Some(0)
        } else {
            Some(start as u64)
        }
    } else {
        Some((value - 1) as u64)
    }
}

/// Resolves a parsed count against a total into a zero-based start offset.
pub fn resolve_start(take: TakeValue, total: i64) -> (r: Option<u64>)
    requires
        0 <= total,
    ensures
        r is Some <==> resolved_start(take, total as int) is Some,
        r matches Some(s) ==> resolved_start(take, total as int) == Some(s as int),
{
    match take {
        TakeValue::PlusZero => if total > 0 { Some(0) } else { None },
        TakeValue::TakeNum(n) => get_start_index(n, total),
    }
}

/// The count that `text` writes: an optional sign, then one or more ASCII
/// digits. Without a sign, and with `-`, the number counts from the end and
/// is negative; `+0` is [`TakeValue::PlusZero`]. A number that does not fit
/// in 64 bits with its sign writes no count.
pub open spec fn take_value(text: Seq<char>) -> Option<TakeValue> {
    if text.len() > 0 && text[0] == '+' {
        match numeral_value(text.skip(1), i64::MAX as nat) {
            Some(n) => Some(
                if n == 0 {
                    TakeValue::PlusZero
                } else {
                    TakeValue::TakeNum(n as i64)
                },
            ),
            None => None,
        }
    } else {
        let digits = if text.len() > 0 && text[0] == '-' {
            text.skip(1)
        } else {
            text
        };
        match numeral_value(digits, (i64::MAX + 1) as nat) {
            Some(n) => Some(TakeValue::TakeNum((-n) as i64)),
            None => None,
        }
    }
}

/// Parses a count such as `+5`, `-3` or `10`. Text that writes no count is
/// handed back as the error.
pub fn parse_num(val: String) -> (r: Result<TakeValue, String>)
    ensures
        r is Ok <==> take_value(val@) is Some,
        r matches Ok(v) ==> take_value(val@) == Some(v),
        r matches Err(text) ==> text@ == val@,
{
    match count_in(val.as_str()) {
        Some(v) => Ok(v),
        None => Err(val),
    }
}

fn count_in(val: &str) -> (r: Option<TakeValue>)
    ensures
        r == take_value(val@),
{
    let chars = chars_of(val);
    if chars.len() > 0 && chars[0] == '+' {
        let digits = slice_chars(&chars, 1, chars.len());
        assert(digits@ == val@.skip(1));
        match parse_numeral(&digits, 0x7fff_ffff_ffff_ffffu64) {
            Some(n) => Some(
                if n == 0 {
                    TakeValue::PlusZero
                } else {
                    TakeValue::TakeNum(n as i64)
                },
            ),
            None => None,
        }
    } else {
        let from: usize = if chars.len() > 0 && chars[0] == '-' {
            1
        } else {
            0
        };
        let digits = slice_chars(&chars, from, chars.len());
        assert(digits@ == val@.skip(from as int));
        assert(val@.skip(0) == val@);
        match parse_numeral(&digits, 0x8000_0000_0000_0000u64) {
            Some(n) => {
                if n == 0x8000_0000_0000_0000u64 {
                    Some(TakeValue::TakeNum(i64::MIN))
                } else {
                    Some(TakeValue::TakeNum(-(n as i64)))
                }
            },
            None => None,
        }
    }
}

/// The counts that the arguments write: the number of lines, and the number
/// of bytes where one is given; or the fault of the first that is no count.
pub open spec fn counts_of(lines: Seq<char>, bytes: Option<Seq<char>>) -> Result<
    (TakeValue, Option<TakeValue>),
    TailFault,
> {
    match take_value(lines) {
        None => Err(TailFault::InvalidLineCount(lines)),
        Some(lines_count) => match bytes {
            None => Ok((lines_count, None)),
            Some(text) => match take_value(text) {
                None => Err(TailFault::InvalidByteCount(text)),
                Some(bytes_count) => Ok((lines_count, Some(bytes_count))),
            },
        },
    }
}

/// Parses the number of lines and, where given, the number of bytes.
pub fn parse_lines_bytes(lines: String, bytes: Option<String>) -> (r: Result<
    (TakeValue, Option<TakeValue>),
    TailError,
>)
    ensures
        match counts_of(
            lines@,
            match bytes {
                Some(text) => Some(text@),
                None => None,
            },
        ) {
            Ok(counts) => r == Ok::<(TakeValue, Option<TakeValue>), TailError>(counts),
            Err(fault) => r matches Err(e) && e@ == fault,
        },
{
    let lines_count = match parse_num(lines) {
        Ok(v) => v,
        Err(text) => {
            return Err(TailError::InvalidLineCount(text));
        },
    };
    let bytes_count = match bytes {
        None => None,
        Some(text) => match parse_num(text) {
            Ok(v) => Some(v),
            Err(text) => {
                return Err(TailError::InvalidByteCount(text));
            },
        },
    };
    Ok((lines_count, bytes_count))
}

/// Counts the lines and the bytes of a file. A line ends with its line feed;
/// what follows the last line feed is a line too.
pub fn count_lines_bytes(content: &[u8]) -> (r: FileStats)
    requires
        content.len() <= i64::MAX,
    ensures
        r.total_lines == chunks(content@).len(),
        r.total_bytes == content@.len(),
{
    let mut lines_count: i64 = 0;
    let mut bytes_count: i64 = 0;
    let mut start: usize = 0;
    assert(content@.skip(0) == content@);
    while start < content.len()
        invariant
            start <= content.len() <= i64::MAX,
            bytes_count == start,
            0 <= lines_count <= start,
            chunks(content@).len() == lines_count + chunks(content@.skip(start as int)).len(),
        decreases content.len() - start,
    {
        let end = crate::lines::chunk_end(content, start);
        lines_count += 1;
        bytes_count += (end - start) as i64;
        start = end;
    }
    assert(chunks(content@.skip(start as int)).len() == 0);
    FileStats { total_lines: lines_count, total_bytes: bytes_count }
}

/// The lines that are written for `take` among `total` lines: those of
/// `content` from the resolved start on, each read as text.
pub open spec fn window_lines(content: Seq<u8>, take: TakeValue, total: int) -> Seq<Seq<char>> {
    match resolved_start(take, total) {
        None => Seq::empty(),
        Some(start) => if start >= chunks(content).len() {
            Seq::empty()
        } else {
            chunks(content).skip(start).map_values(|piece: Seq<u8>| utf8_lossy(piece))
        },
    }
}

/// The text that is written for `take` among `total` bytes: what `content`
/// holds from the resolved start on, read as text.
pub open spec fn window_bytes(content: Seq<u8>, take: TakeValue, total: int) -> Seq<char> {
    match resolved_start(take, total) {
        None => Seq::empty(),
        Some(start) => if start >= content.len() {
            Seq::empty()
        } else {
            utf8_lossy(content.skip(start))
        },
    }
}

/// The lines of `content` from the line on that `lines_count` resolves to
/// among `total_lines`, in their order, each read as text.
pub fn print_lines(content: &[u8], lines_count: TakeValue, total_lines: i64) -> (r: Vec<String>)
    requires
        0 <= total_lines,
    ensures
        texts(r@) == window_lines(content@, lines_count, total_lines as int),
{
    let mut out: Vec<String> = Vec::new();
    if let Some(start) = resolve_start(lines_count, total_lines) {
        let pieces = split_lines(content);
        let ghost f = |piece: Seq<u8>| utf8_lossy(piece);
        if start >= pieces.len() as u64 {
            return out;
        }
        let first: usize = start as usize;
        let mut line_num: usize = first;
        assert(chunks(content@).subrange(first as int, first as int).map_values(f) == texts(out@));
        while line_num < pieces.len()
            invariant
                first <= line_num <= pieces.len(),
                byte_seqs(pieces@) == chunks(content@),
                f == |piece: Seq<u8>| utf8_lossy(piece),
                texts(out@) == chunks(content@).subrange(first as int, line_num as int).map_values(
                    f,
                ),
            decreases pieces.len() - line_num,
        {
            let text = decode_lossy(pieces[line_num].as_slice());
            let ghost before = out@;
            out.push(text);
            proof {
                let all = chunks(content@);
                assert(all[line_num as int] == pieces@[line_num as int]@);
                assert(texts(out@) == texts(before).push(text@));
                assert(all.subrange(first as int, line_num + 1).map_values(f) == all.subrange(
                    first as int,
                    line_num as int,
                ).map_values(f).push(text@));
            }
            line_num += 1;
        }
        assert(chunks(content@).subrange(first as int, line_num as int) == chunks(content@).skip(
            first as int,
        ));
    }
    out
}

/// What `content` holds from the byte on that `bytes_count` resolves to among
/// `total_bytes`, read as text.
pub fn print_bytes(content: &[u8], bytes_count: TakeValue, total_bytes: i64) -> (r: String)
    requires
        0 <= total_bytes,
    ensures
        r@ == window_bytes(content@, bytes_count, total_bytes as int),
{
    if let Some(start) = resolve_start(bytes_count, total_bytes) {
        if start < content.len() as u64 {
            let rest = crate::lines::copy_bytes(content, start as usize, content.len());
            assert(rest@ == content@.skip(start as int));
            return decode_lossy(rest.as_slice());
        }
    }
    String::new()
}

/// What is written for one file, and whether the file is then followed.
#[derive(Debug)]
pub struct TailOutput {
    /// The header that precedes the file's output, with its line feed.
    pub header: Option<String>,
    /// The pieces of text to write, in order.
    pub body: Vec<String>,
    /// Whether data that is appended to the file is to be written as it
    /// comes.
    pub follow: bool,
}

impl TailOutput {
    /// The output as a mathematical value.
    pub open spec fn parts(&self) -> (Option<Seq<char>>, Seq<Seq<char>>, bool) {
        (
            match self.header {
                Some(text) => Some(text@),
                None => None,
            },
            texts(self.body@),
            self.follow,
        )
    }
}

/// The window of a file: the end of its bytes where a number of bytes is
/// given, as one piece unless it is empty; else the end of its lines. The
/// counts are resolved against the file's own totals.
pub open spec fn file_window(
    content: Seq<u8>,
    lines_count: TakeValue,
    bytes_count: Option<TakeValue>,
) -> Seq<Seq<char>> {
    match bytes_count {
        Some(count) => {
            let text = window_bytes(content, count, content.len() as int);
            if text.len() == 0 {
                Seq::empty()
            } else {
                seq![text]
            }
        },
        None => window_lines(content, lines_count, chunks(content).len() as int),
    }
}

/// What is written for the file `filename`, the `file_num`-th of
/// `files_count` files counted from zero.
pub open spec fn file_output(
    content: Seq<u8>,
    filename: Seq<char>,
    file_num: int,
    files_count: int,
    quiet: bool,
    verbose: bool,
    follow: bool,
    lines_count: TakeValue,
    bytes_count: Option<TakeValue>,
) -> (Option<Seq<char>>, Seq<Seq<char>>, bool) {
    (
        if shows_header(quiet, verbose, files_count) {
            Some(header(filename, file_num))
        } else {
            None
        },
        file_window(content, lines_count, bytes_count),
        follow,
    )
}

/// Works on one file: the header where files get one, then the file is read
/// once for its totals, the count is resolved against them, and the file is
/// read again for its window.
pub fn handle_file(
    content: &[u8],
    filename: &str,
    file_num: usize,
    files_count: usize,
    quiet: bool,
    verbose: bool,
    follow: bool,
    lines_count: TakeValue,
    bytes_count: Option<TakeValue>,
) -> (r: TailOutput)
    requires
        content.len() <= i64::MAX,
    ensures
        r.parts() == file_output(
            content@,
            filename@,
            file_num as int,
            files_count as int,
            quiet,
            verbose,
            follow,
            lines_count,
            bytes_count,
        ),
{
    let header = display_file_header(filename, quiet, verbose, files_count, file_num);
    let stats = count_lines_bytes(content);
    let body = if let Some(count) = bytes_count {
        let text = print_bytes(content, count, stats.total_bytes);
        let mut body: Vec<String> = Vec::new();
        if !text.as_str().is_empty() {
            let ghost shown = text@;
            body.push(text);
            assert(texts(body@) == seq![shown]);
        } else {
            assert(texts(body@) == Seq::<Seq<char>>::empty());
        }
        body
    } else {
        print_lines(content, lines_count, stats.total_lines)
    };
    TailOutput { header, body, follow }
}

/// What a follower does next.
#[derive(Debug, Clone, PartialEq, Eq)]
pub enum FollowAction {
    /// Write the text, then try to read again.
    Print(String),
    /// Wait for [`SLEEP_INTERVAL`] seconds, go to the end of the file, then
    /// try to read again.
    Wait,
    /// Leave the file.
    Stop,
}

/// One step of following a file, after an attempt to read up to the next
/// line feed gave `chunk`: what was read is written at once; where nothing
/// was read the follower waits. A follower that was `cancelled` stops.
pub fn follow_file(chunk: &[u8], cancelled: bool) -> (r: FollowAction)
    ensures
        cancelled ==> r == FollowAction::Stop,
        !cancelled && chunk@.len() == 0 ==> r == FollowAction::Wait,
        !cancelled && chunk@.len() > 0 ==> (r matches FollowAction::Print(text) && text@
            == utf8_lossy(chunk@)),
{
    if cancelled {
        FollowAction::Stop
    } else if chunk.len() == 0 {
        FollowAction::Wait
    } else {
        FollowAction::Print(decode_lossy(chunk))
    }
}

/// The outputs as mathematical values.
pub open spec fn outputs_view(outputs: Seq<TailOutput>) -> Seq<
    (Option<Seq<char>>, Seq<Seq<char>>, bool),
> {
    outputs.map_values(|o: TailOutput| o.parts())
}

/// What is written for the `i`-th of `files`: nothing for a file that could
/// not be opened.
pub open spec fn source_output(
    files: Seq<Source>,
    i: int,
    quiet: bool,
    verbose: bool,
    follow: bool,
    lines_count: TakeValue,
    bytes_count: Option<TakeValue>,
) -> (Option<Seq<char>>, Seq<Seq<char>>, bool) {
    match files[i].content {
        None => (None, Seq::empty(), false),
        Some(content) => file_output(
            content@,
            files[i].name@,
            i,
            files.len() as int,
            quiet,
            verbose,
            follow,
            lines_count,
            bytes_count,
        ),
    }
}

/// Selects the end of each of `files`. Counts that are no counts are refused
/// before any file is looked at; a file that could not be opened is passed
/// over, and still counts among the files.
pub fn tail(
    files: &Vec<Source>,
    lines: String,
    bytes: Option<String>,
    quiet: bool,
    verbose: bool,
    follow: bool,
) -> (r: Result<Vec<TailOutput>, TailError>)
    requires
        forall|i: int|
            0 <= i < files.len() ==> (#[trigger] files[i].content matches Some(content)
                ==> content.len() <= i64::MAX),
    ensures
        match counts_of(
            lines@,
            match bytes {
                Some(text) => Some(text@),
                None => None,
            },
        ) {
            Err(fault) => r matches Err(e) && e@ == fault,
            Ok((lines_count, bytes_count)) => r matches Ok(outputs) && outputs.len() == files.len()
                && forall|i: int|
                0 <= i < files.len() ==> (#[trigger] outputs[i]).parts() == source_output(
                    files@,
                    i,
                    quiet,
                    verbose,
                    follow,
                    lines_count,
                    bytes_count,
                ),
        },
{
    let (lines_count, bytes_count) = parse_lines_bytes(lines, bytes)?;
    let mut outputs: Vec<TailOutput> = Vec::new();
    let mut file_num: usize = 0;
    while file_num < files.len()
        invariant
            file_num <= files.len(),
            outputs.len() == file_num,
            forall|i: int|
                0 <= i < files.len() ==> (#[trigger] files[i].content matches Some(content)
                    ==> content.len() <= i64::MAX),
            forall|i: int|
                0 <= i < file_num ==> (#[trigger] outputs[i]).parts() == source_output(
                    files@,
                    i,
                    quiet,
                    verbose,
                    follow,
                    lines_count,
                    bytes_count,
                ),
        decreases files.len() - file_num,
    {
        let output = match &files[file_num].content {
            None => TailOutput { header: None, body: Vec::new(), follow: false },
            Some(content) => handle_file(
                content.as_slice(),
                files[file_num].name.as_str(),
                file_num,
                files.len(),
                quiet,
                verbose,
                follow,
                lines_count,
                bytes_count,
            ),
        };
        assert(files[file_num as int].content is None ==> texts(output.body@) == Seq::<
            Seq<char>,
        >::empty());
        outputs.push(output);
        file_num += 1;
    }
    Ok(outputs)
}

} // verus!
