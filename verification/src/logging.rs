//! The texts that tell of a file: the header that precedes a file's part of
//! the output, and the lines that report a failure.

use crate::text::{push_str, string_of};
use vstd::prelude::*;

verus! {

/// Whether files get a header: always when `verbose`, and for more than one
/// file unless `quiet`.
pub open spec fn shows_header(quiet: bool, verbose: bool, files_count: int) -> bool {
    verbose || (files_count > 1 && !quiet)
}

/// The header of the file `filename`, with its line feed; an empty line
/// precedes the header of every file but the first.
pub open spec fn header(filename: Seq<char>, file_num: int) -> Seq<char> {
    (if file_num > 0 {
        "\n"@
    } else {
        Seq::empty()
    }) + "==> "@ + filename + " <==\n"@
}

/// The header to write before the output of the file `filename`, the
/// `file_num`-th of `files_count` files counted from zero, or `None` where
/// files get no header.
pub fn display_file_header(
    filename: &str,
    quiet: bool,
    verbose: bool,
    files_count: usize,
    file_num: usize,
) -> (r: Option<String>)
    ensures
        r is Some <==> shows_header(quiet, verbose, files_count as int),
        r matches Some(text) ==> text@ == header(filename@, file_num as int),
{
    if verbose || (files_count > 1 && !quiet) {
        let mut text: Vec<char> = Vec::new();
        if file_num > 0 {
            push_str(&mut text, "\n");
        }
        push_str(&mut text, "==> ");
        push_str(&mut text, filename);
        push_str(&mut text, " <==\n");
        Some(string_of(&text))
    } else {
        None
    }
}

/// The line that reports a failure of `subcommand`.
pub fn display_error(subcommand: &str, error: &str) -> (r: String)
    ensures
        r@ == subcommand@ + ": "@ + error@,
{
    let mut text: Vec<char> = Vec::new();
    push_str(&mut text, subcommand);
    push_str(&mut text, ": ");
    push_str(&mut text, error);
    string_of(&text)
}

/// The line that reports a failure of `subcommand` on the file `filename`.
pub fn display_file_error(subcommand: &str, filename: &str, error: &str) -> (r: String)
    ensures
        r@ == subcommand@ + ": "@ + filename@ + ": "@ + error@,
{
    let mut text: Vec<char> = Vec::new();
    push_str(&mut text, subcommand);
    push_str(&mut text, ": ");
    push_str(&mut text, filename);
    push_str(&mut text, ": ");
    push_str(&mut text, error);
    string_of(&text)
}

} // verus!
