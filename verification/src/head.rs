//! Writing the start of files: the first lines, or the first bytes.

use crate::lines::{
    all_valid, copy_bytes, decode_lossy, decoded_prefix, first_chunks, read_first_lines, texts,
    utf8_lossy, Source,
};
use crate::logging::{display_file_header, header, shows_header};
use vstd::prelude::*;

verus! {

/// What is written for one file.
#[derive(Debug)]
pub struct HeadOutput {
    /// The header that precedes the file's output, with its line feed.
    pub header: Option<String>,
    /// The pieces of text to write, in order.
    pub body: Vec<String>,
    /// Whether all that was asked for could be read: lines are read up to the
    /// first that is not well-formed UTF-8.
    pub complete: bool,
}

impl HeadOutput {
    /// The output as a mathematical value.
    pub open spec fn parts(&self) -> (Option<Seq<char>>, Seq<Seq<char>>, bool) {
        (
            match self.header {
                Some(text) => Some(text@),
                None => None,
            },
            texts(self.body@),
            self.complete,
        )
    }
}

/// The start of a file: its first `bytes` bytes read as text, as one piece,
/// where a number of bytes is given; else its first `lines` lines, as far as
/// they are text. The flag says whether they all are.
pub open spec fn file_start(content: Seq<u8>, bytes: Option<u64>, lines: u64) -> (
    Seq<Seq<char>>,
    bool,
) {
    match bytes {
        Some(count) => (
            seq![
                utf8_lossy(
                    if count < content.len() {
                        content.take(count as int)
                    } else {
                        content
                    },
                ),
            ],
            true,
        ),
        None => (
            decoded_prefix(first_chunks(content, lines as nat)),
            all_valid(first_chunks(content, lines as nat)),
        ),
    }
}

/// What is written for the file `filename`, the `file_num`-th of
/// `files_count` files counted from zero.
pub open spec fn file_output(
    content: Seq<u8>,
    filename: Seq<char>,
    files_count: int,
    file_num: int,
    bytes: Option<u64>,
    lines: u64,
    quiet: bool,
    verbose: bool,
) -> (Option<Seq<char>>, Seq<Seq<char>>, bool) {
    (
        if shows_header(quiet, verbose, files_count) {
            Some(header(filename, file_num))
        } else {
            None
        },
        file_start(content, bytes, lines).0,
        file_start(content, bytes, lines).1,
    )
}

/// Works on one file, given by its contents: the header where files get one,
/// then the start of the file.
pub fn handle_file(
    content: &[u8],
    filename: &str,
    files_count: usize,
    file_num: usize,
    bytes: Option<u64>,
    lines: u64,
    quiet: bool,
    verbose: bool,
) -> (r: HeadOutput)
    ensures
        r.parts() == file_output(
            content@,
            filename@,
            files_count as int,
            file_num as int,
            bytes,
            lines,
            quiet,
            verbose,
        ),
{
    let header = display_file_header(filename, quiet, verbose, files_count, file_num);
    if let Some(num_bytes) = bytes {
        let end: usize = if num_bytes < content.len() as u64 {
            num_bytes as usize
        } else {
            content.len()
        };
        let start = copy_bytes(content, 0, end);
        assert(start@ == if num_bytes < content@.len() {
            content@.take(num_bytes as int)
        } else {
            content@
        });
        let text = decode_lossy(start.as_slice());
        let mut body: Vec<String> = Vec::new();
        body.push(text);
        assert(texts(body@) == seq![text@]);
        HeadOutput { header, body, complete: true }
    } else {
        let file = read_first_lines(content, lines);
        HeadOutput { header, body: file.lines, complete: file.complete }
    }
}

/// What is written for the `i`-th of `files`: nothing for a file that could
/// not be opened.
pub open spec fn source_output(
    files: Seq<Source>,
    i: int,
    lines: u64,
    bytes: Option<u64>,
    quiet: bool,
    verbose: bool,
) -> (Option<Seq<char>>, Seq<Seq<char>>, bool) {
    match files[i].content {
        None => (None, Seq::empty(), true),
        Some(content) => file_output(
            content@,
            files[i].name@,
            files.len() as int,
            i,
            bytes,
            lines,
            quiet,
            verbose,
        ),
    }
}

/// Writes the start of each of `files`. A file that could not be opened is
/// passed over, and still counts among the files. The work ends with the
/// first file of which not all that was asked for could be read: the outputs
/// are those of the files up to and including that one.
pub fn head(files: &Vec<Source>, lines: u64, bytes: Option<u64>, quiet: bool, verbose: bool) -> (r:
    Vec<HeadOutput>)
    ensures
        r.len() <= files.len(),
        forall|i: int|
            0 <= i < r.len() ==> (#[trigger] r[i]).parts() == source_output(
                files@,
                i,
                lines,
                bytes,
                quiet,
                verbose,
            ),
        forall|i: int| 0 <= i < r.len() - 1 ==> (#[trigger] r[i]).complete,
        r.len() < files.len() ==> r.len() > 0 && !r[r.len() - 1].complete,
{
    let mut outputs: Vec<HeadOutput> = Vec::new();
    let mut file_num: usize = 0;
    while file_num < files.len()
        invariant
            file_num <= files.len(),
            outputs.len() == file_num,
            forall|i: int|
                0 <= i < file_num ==> (#[trigger] outputs[i]).parts() == source_output(
                    files@,
                    i,
                    lines,
                    bytes,
                    quiet,
                    verbose,
                ),
            forall|i: int| 0 <= i < file_num ==> (#[trigger] outputs[i]).complete,
        decreases files.len() - file_num,
    {
        let output = match &files[file_num].content {
            None => HeadOutput { header: None, body: Vec::new(), complete: true },
            Some(content) => handle_file(
                content.as_slice(),
                files[file_num].name.as_str(),
                files.len(),
                file_num,
                bytes,
                lines,
                quiet,
                verbose,
            ),
        };
        assert(files[file_num as int].content is None ==> texts(output.body@) == Seq::<
            Seq<char>,
        >::empty());
        let complete = output.complete;
        outputs.push(output);
        if !complete {
            return outputs;
        }
        file_num += 1;
    }
    outputs
}

} // verus!
