//! Writing files one after another, with the lines numbered or runs of empty
//! lines squeezed where asked.

use crate::lines::{
    is_text, lemma_lines_at_most_bytes, lemma_sources_size_prefix, read_lines, sources_size,
    strip_terminator, text_lines, texts, without_terminator, Source,
};
use crate::text::{decimal, decimal_chars, justify_right, push_str, right_justified, string_of};
use vstd::prelude::*;

verus! {

/// How the lines are written.
#[derive(Clone, Copy, Debug, PartialEq, Eq, Structural)]
pub struct CatFlags {
    /// Number every line.
    pub number_lines: bool,
    /// Number the lines that are not empty.
    pub number_nonblank_lines: bool,
    /// Leave out an empty line that follows an empty line or starts a file.
    pub squeeze_blank_lines: bool,
}

/// Whether the `k`-th of `lines` is written: every line is, but an empty line
/// that is squeezed because it starts the file or follows an empty line.
pub open spec fn kept(lines: Seq<Seq<char>>, k: int, flags: CatFlags) -> bool {
    !(flags.squeeze_blank_lines && lines[k].len() == 0 && (k == 0 || lines[k - 1].len() == 0))
}

/// Whether `line` gets a number where it is written.
pub open spec fn numbers(line: Seq<char>, flags: CatFlags) -> bool {
    flags.number_lines || (flags.number_nonblank_lines && line.len() > 0)
}

/// How many of `lines` are written with a number.
pub open spec fn count_numbered(lines: Seq<Seq<char>>, flags: CatFlags) -> nat
    decreases lines.len(),
{
    if lines.len() == 0 {
        0
    } else {
        count_numbered(lines.drop_last(), flags) + if kept(lines, lines.len() - 1, flags)
            && numbers(lines.last(), flags) {
            1nat
        } else {
            0nat
        }
    }
}

/// A line with its number: the number in a field of six, a tab, the line.
pub open spec fn numbered(n: nat, line: Seq<char>) -> Seq<char> {
    right_justified(decimal(n), 6) + seq!['\t'] + line
}

/// The lines written for the `lines` of one file, where `start` lines were
/// numbered before it.
pub open spec fn cat_output(lines: Seq<Seq<char>>, flags: CatFlags, start: nat) -> Seq<Seq<char>>
    decreases lines.len(),
{
    if lines.len() == 0 {
        Seq::empty()
    } else {
        cat_output(lines.drop_last(), flags, start) + if !kept(lines, lines.len() - 1, flags) {
            Seq::empty()
        } else if numbers(lines.last(), flags) {
            seq![numbered(start + count_numbered(lines, flags), lines.last())]
        } else {
            seq![lines.last()]
        }
    }
}

/// The lines of a file without their line terminators, up to the first that
/// is not text.
pub open spec fn bare_lines(content: Seq<u8>) -> Seq<Seq<char>> {
    text_lines(content).map_values(|line: Seq<char>| without_terminator(line))
}

/// What is written for a file, and whether the file was read to its end.
#[derive(Debug)]
pub struct CatOutput {
    /// The lines to write, without their line feeds.
    pub lines: Vec<String>,
    /// Whether every file was text to its end.
    pub complete: bool,
}

fn number_line(n: u64, line: &str) -> (r: String)
    ensures
        r@ == numbered(n as nat, line@),
{
    let digits = decimal_chars(n);
    let mut out = justify_right(&digits, 6);
    out.push('\t');
    push_str(&mut out, line);
    string_of(&out)
}

/// Writes the lines of one file, given by its contents. `line_num` is the
/// number of the last line that was numbered, and is carried on.
pub fn handle_file(content: &[u8], flags: CatFlags, line_num: &mut u64) -> (r: CatOutput)
    requires
        *old(line_num) + content@.len() <= u64::MAX,
    ensures
        texts(r.lines@) == cat_output(bare_lines(content@), flags, *old(line_num) as nat),
        *final(line_num) == *old(line_num) + count_numbered(bare_lines(content@), flags),
        r.complete == is_text(content@),
{
    let file = read_lines(content);
    let ghost all = bare_lines(content@);
    let ghost start = *line_num as nat;
    proof {
        lemma_lines_at_most_bytes(content@);
    }
    let mut out: Vec<String> = Vec::new();
    let mut prev_empty = true;
    let mut i: usize = 0;
    while i < file.lines.len()
        invariant
            i <= file.lines.len(),
            texts(file.lines@) == text_lines(content@),
            all == bare_lines(content@),
            all.len() == file.lines.len(),
            start + file.lines.len() <= u64::MAX,
            prev_empty == (i == 0 || all[i - 1].len() == 0),
            *line_num == start + count_numbered(all.take(i as int), flags),
            count_numbered(all.take(i as int), flags) <= i,
            texts(out@) == cat_output(all.take(i as int), flags, start),
        decreases file.lines.len() - i,
    {
        let line = strip_terminator(file.lines[i].as_str());
        let empty = line.as_str().is_empty();
        proof {
            let now = all.take(i + 1);
            assert(all[i as int] == line@);
            assert(now.drop_last() == all.take(i as int));
            assert(now.last() == line@);
            if i > 0 {
                assert(now[i - 1] == all[i - 1]);
            }
            assert(kept(now, i as int, flags) == !(flags.squeeze_blank_lines && empty
                && prev_empty));
        }
        if flags.squeeze_blank_lines && empty && prev_empty {
            assert(texts(out@) + Seq::<Seq<char>>::empty() == texts(out@));
        } else {
            let ghost before = out@;
            let text = if flags.number_lines || (flags.number_nonblank_lines && !empty) {
                *line_num += 1;
                number_line(*line_num, line.as_str())
            } else {
                line
            };
            out.push(text);
            assert(texts(out@) == texts(before).push(text@));
        }
        prev_empty = empty;
        i += 1;
    }
    assert(all.take(i as int) == all);
    CatOutput { lines: out, complete: file.complete }
}

/// The lines of a file that was named, without their terminators: none for a
/// file that could not be opened.
pub open spec fn source_lines(source: Source) -> Seq<Seq<char>> {
    match source.content {
        None => Seq::empty(),
        Some(content) => bare_lines(content@),
    }
}

/// Whether the work goes on after a file: it does unless the file was opened
/// and is not text to its end.
pub open spec fn passes(source: Source) -> bool {
    match source.content {
        None => true,
        Some(content) => is_text(content@),
    }
}

/// How many lines of all `files` are written with a number.
pub open spec fn numbered_in(files: Seq<Source>, flags: CatFlags) -> nat
    decreases files.len(),
{
    if files.len() == 0 {
        0
    } else {
        numbered_in(files.drop_last(), flags) + count_numbered(source_lines(files.last()), flags)
    }
}

/// The lines written for `files`, one file after another; the numbers run on
/// from file to file.
pub open spec fn cat_files(files: Seq<Source>, flags: CatFlags) -> Seq<Seq<char>>
    decreases files.len(),
{
    if files.len() == 0 {
        Seq::empty()
    } else {
        cat_files(files.drop_last(), flags) + cat_output(
            source_lines(files.last()),
            flags,
            numbered_in(files.drop_last(), flags),
        )
    }
}

proof fn lemma_count_numbered_bound(lines: Seq<Seq<char>>, flags: CatFlags)
    ensures
        count_numbered(lines, flags) <= lines.len(),
    decreases lines.len(),
{
    if lines.len() > 0 {
        lemma_count_numbered_bound(lines.drop_last(), flags);
    }
}

proof fn lemma_numbered_in_bound(files: Seq<Source>, flags: CatFlags)
    ensures
        numbered_in(files, flags) <= sources_size(files),
    decreases files.len(),
{
    if files.len() > 0 {
        lemma_numbered_in_bound(files.drop_last(), flags);
        lemma_count_numbered_bound(source_lines(files.last()), flags);
        if let Some(content) = files.last().content {
            lemma_lines_at_most_bytes(content@);
        }
    }
}

/// Whether the work ends at the `k`-th of `files`: it is the first that does
/// not let the work go on.
pub open spec fn ends_at(files: Seq<Source>, k: int) -> bool {
    &&& 0 <= k < files.len()
    &&& !passes(files[k])
    &&& forall|i: int| 0 <= i < k ==> passes(#[trigger] files[i])
}

/// Writes `files` one after another. A file that could not be opened is
/// passed over. A file that is not text to its end is written as far as it
/// is text, and ends the work: no file after it is written.
pub fn cat(
    files: &Vec<Source>,
    number_lines: bool,
    number_nonblank_lines: bool,
    squeeze_blank_lines: bool,
) -> (r: CatOutput)
    requires
        sources_size(files@) <= u64::MAX,
    ensures
        r.complete <==> forall|i: int| 0 <= i < files.len() ==> passes(#[trigger] files[i]),
        r.complete ==> texts(r.lines@) == cat_files(
            files@,
            CatFlags { number_lines, number_nonblank_lines, squeeze_blank_lines },
        ),
        !r.complete ==> exists|k: int|
            #[trigger] ends_at(files@, k) && texts(r.lines@) == cat_files(
                files@.take(k + 1),
                CatFlags { number_lines, number_nonblank_lines, squeeze_blank_lines },
            ),
{
    let flags = CatFlags { number_lines, number_nonblank_lines, squeeze_blank_lines };
    let mut out: Vec<String> = Vec::new();
    let mut line_num: u64 = 0;
    let mut i: usize = 0;
    while i < files.len()
        invariant
            i <= files.len(),
            sources_size(files@) <= u64::MAX,
            flags == (CatFlags { number_lines, number_nonblank_lines, squeeze_blank_lines }),
            forall|k: int| 0 <= k < i ==> passes(#[trigger] files[k]),
            line_num == numbered_in(files@.take(i as int), flags),
            texts(out@) == cat_files(files@.take(i as int), flags),
        decreases files.len() - i,
    {
        proof {
            let now = files@.take(i + 1);
            assert(now.drop_last() == files@.take(i as int));
            assert(now.last() == files@[i as int]);
            lemma_sources_size_prefix(files@, i + 1);
            lemma_numbered_in_bound(files@.take(i as int), flags);
        }
        match &files[i].content {
            None => {
                assert(texts(out@) + Seq::<Seq<char>>::empty() == texts(out@));
            },
            Some(content) => {
                let mut part = handle_file(content.as_slice(), flags, &mut line_num);
                let ghost before = texts(out@);
                let ghost added = texts(part.lines@);
                append_lines(&mut out, &mut part.lines);
                assert(texts(out@) == before + added);
                if !part.complete {
                    proof {
                        let k = i as int;
                        assert(!passes(files[k]));
                        assert(texts(out@) == cat_files(files@.take(k + 1), flags));
                        assert(ends_at(files@, k));
                    }
                    return CatOutput { lines: out, complete: false };
                }
            },
        }
        i += 1;
    }
    assert(files@.take(i as int) == files@);
    CatOutput { lines: out, complete: true }
}

fn append_lines(out: &mut Vec<String>, more: &mut Vec<String>)
    ensures
        final(out)@ == old(out)@ + old(more)@,
{
    out.append(more);
}

} // verus!
