//! Collapsing runs of equal lines: consecutive lines that compare equal are
//! one run, written as its first line, with the run's length where asked.
//! Lines that are equal but apart are not brought together.

use crate::lines::{
    are_lines, bytes_of, is_line, is_text, lemma_lines_of_bytes, lemma_text_lines_are_lines,
    read_lines, text_lines, texts, TextLines,
};
use crate::text::{
    chars_of, decimal, decimal_chars, justify_right, push_str, right_justified, same_chars,
    string_of,
};
use vstd::prelude::*;
use vstd::utf8::encode_utf8;

verus! {

/// What is shown of the runs, and how lines are compared.
#[derive(Clone, Copy, Debug, PartialEq, Eq, Structural)]
pub struct UniqFlags {
    /// Precede each line by the length of its run.
    pub show_count: bool,
    /// Show the runs of one line.
    pub show_unique: bool,
    /// Show the runs of more than one line.
    pub show_repeated: bool,
    /// Compare lines without regard to case.
    pub ignore_case: bool,
}

/// What `str::trim_end` leaves of a text: the text without the white space at
/// its end.
pub uninterp spec fn trimmed_end(s: Seq<char>) -> Seq<char>;

/// What `str::to_uppercase` makes of a text.
pub uninterp spec fn uppercase(s: Seq<char>) -> Seq<char>;

/// `str::trim_end` returns the part of the string before its trailing white
/// space.
pub assume_specification[ str::trim_end ](s: &str) -> (r: &str)
    ensures
        r@ == trimmed_end(s@),
;

/// `str::to_uppercase` returns the upper-case equivalent of the string.
pub assume_specification[ str::to_uppercase ](s: &str) -> (r: String)
    ensures
        r@ == uppercase(s@),
;

/// What of a line counts in a comparison: the line without the white space at
/// its end, in upper case where case is ignored.
pub open spec fn line_key(line: Seq<char>, ignore_case: bool) -> Seq<char> {
    if ignore_case {
        uppercase(trimmed_end(line))
    } else {
        trimmed_end(line)
    }
}

/// Whether two lines compare equal.
pub open spec fn same_line(a: Seq<char>, b: Seq<char>, ignore_case: bool) -> bool {
    line_key(a, ignore_case) == line_key(b, ignore_case)
}

/// Whether two lines compare equal: white space at their ends does not count,
/// nor does case where it is ignored.
pub fn compare_lines(prev_line: &str, curr_line: &str, ignore_case: bool) -> (r: bool)
    ensures
        r == same_line(prev_line@, curr_line@, ignore_case),
{
    if ignore_case {
        let a = prev_line.trim_end().to_uppercase();
        let b = curr_line.trim_end().to_uppercase();
        a == b
    } else {
        let a = chars_of(prev_line.trim_end());
        let b = chars_of(curr_line.trim_end());
        same_chars(&a, &b)
    }
}

/// The text written for a run of `counter` lines whose first line is `text`:
/// nothing for no lines; else the line, after the count in a field of four
/// and one space where `flag` is set.
pub open spec fn formatted(flag: bool, counter: nat, text: Seq<char>) -> Seq<char> {
    if counter == 0 {
        Seq::empty()
    } else if flag {
        right_justified(decimal(counter), 4) + seq![' '] + text
    } else {
        text
    }
}

/// The text to write for a run.
pub fn format_data(flag: bool, counter: u64, text: &str) -> (r: String)
    ensures
        r@ == formatted(flag, counter as nat, text@),
{
    if counter == 0 {
        String::new()
    } else if flag {
        let digits = decimal_chars(counter);
        let mut out = justify_right(&digits, 4);
        out.push(' ');
        push_str(&mut out, text);
        string_of(&out)
    } else {
        text.to_owned()
    }
}

/// Whether a run of `counter` lines is shown: a run of one line where the
/// unique are shown, a longer run where the repeated are shown, every run
/// where neither is asked for. A run without lines is never shown.
pub open spec fn shown(counter: nat, flags: UniqFlags) -> bool {
    counter > 0 && ((flags.show_unique && counter == 1) || (flags.show_repeated && counter > 1)
        || (!flags.show_unique && !flags.show_repeated))
}

/// What is written when a run of `counter` lines with the first line `text`
/// closes, if anything.
pub fn log_data(counter: u64, text: &str, flags: &UniqFlags) -> (r: Option<String>)
    ensures
        r is Some <==> shown(counter as nat, *flags),
        r matches Some(out) ==> out@ == formatted(flags.show_count, counter as nat, text@),
{
    if counter > 0 && ((flags.show_unique && counter == 1) || (flags.show_repeated && counter > 1)
        || (!flags.show_unique && !flags.show_repeated)) {
        Some(format_data(flags.show_count, counter, text))
    } else {
        None
    }
}

/// The runs that are closed, and the one that is open at the end, when the
/// run of `count` lines with the first line `rep` is open and `lines` come
/// in: each run as its length and its first line.
pub open spec fn runs_from(
    rep: Seq<char>,
    count: nat,
    lines: Seq<Seq<char>>,
    ignore_case: bool,
) -> Seq<(nat, Seq<char>)>
    decreases lines.len(),
{
    if lines.len() == 0 {
        seq![(count, rep)]
    } else if same_line(rep, lines[0], ignore_case) {
        runs_from(rep, count + 1, lines.drop_first(), ignore_case)
    } else {
        seq![(count, rep)] + runs_from(lines[0], 1, lines.drop_first(), ignore_case)
    }
}

/// The runs of `lines`. The work starts on a run without lines whose first
/// line is the empty text, so lines at the start that compare equal to the
/// empty text are a run with the empty text as its first line.
pub open spec fn runs(lines: Seq<Seq<char>>, ignore_case: bool) -> Seq<(nat, Seq<char>)> {
    runs_from(Seq::empty(), 0, lines, ignore_case)
}

/// The texts written for `runs`, in order: one for each run that is shown.
pub open spec fn written(runs: Seq<(nat, Seq<char>)>, flags: UniqFlags) -> Seq<Seq<char>>
    decreases runs.len(),
{
    if runs.len() == 0 {
        Seq::empty()
    } else {
        let run = runs.last();
        written(runs.drop_last(), flags) + if shown(run.0, flags) {
            seq![formatted(flags.show_count, run.0, run.1)]
        } else {
            Seq::empty()
        }
    }
}

/// The run that is open while lines come in.
#[derive(Debug, Clone)]
pub struct RunState {
    /// The first line of the open run.
    pub representative: String,
    /// The number of lines of the open run.
    pub run_length: u64,
    /// What is shown, and how lines are compared.
    pub flags: UniqFlags,
}

impl RunState {
    /// The state before any line: an open run without lines, with the empty
    /// text as its first line.
    pub fn new(flags: UniqFlags) -> (r: RunState)
        ensures
            r.representative@ == Seq::<char>::empty(),
            r.run_length == 0,
            r.flags == flags,
    {
        RunState { representative: String::new(), run_length: 0, flags }
    }

    /// Takes one more line. A line that compares equal to the first line of
    /// the open run joins it; any other closes the run, which is written if
    /// it is shown, and opens a run of its own.
    pub fn push(&mut self, line: &str) -> (r: Option<String>)
        requires
            old(self).run_length < u64::MAX,
        ensures
            final(self).flags == old(self).flags,
            same_line(old(self).representative@, line@, old(self).flags.ignore_case) ==> {
                &&& r is None
                &&& final(self).representative@ == old(self).representative@
                &&& final(self).run_length == old(self).run_length + 1
            },
            !same_line(old(self).representative@, line@, old(self).flags.ignore_case) ==> {
                &&& r is Some <==> shown(old(self).run_length as nat, old(self).flags)
                &&& r matches Some(out) ==> out@ == formatted(
                    old(self).flags.show_count,
                    old(self).run_length as nat,
                    old(self).representative@,
                )
                &&& final(self).representative@ == line@
                &&& final(self).run_length == 1
            },
    {
        let mut out: Option<String> = None;
        if !compare_lines(self.representative.as_str(), line, self.flags.ignore_case) {
            out = log_data(self.run_length, self.representative.as_str(), &self.flags);
            self.representative = line.to_owned();
            self.run_length = 0;
        }
        self.run_length += 1;
        out
    }

    /// Closes the open run at the end of the lines; it is written if it is
    /// shown.
    pub fn finish(&self) -> (r: Option<String>)
        ensures
            r is Some <==> shown(self.run_length as nat, self.flags),
            r matches Some(out) ==> out@ == formatted(
                self.flags.show_count,
                self.run_length as nat,
                self.representative@,
            ),
    {
        log_data(self.run_length, self.representative.as_str(), &self.flags)
    }
}

/// What is written for lines that were read: the shown runs of the lines.
/// Where the reading failed before the end, the run that was open at the
/// failure is not written.
pub open spec fn lines_output(lines: Seq<Seq<char>>, complete: bool, flags: UniqFlags) -> Seq<
    Seq<char>,
> {
    let all = runs(lines, flags.ignore_case);
    written(
        if complete {
            all
        } else {
            all.drop_last()
        },
        flags,
    )
}

/// What is written for a file's contents and whether the file was read to its
/// end.
pub open spec fn file_output(content: Seq<u8>, flags: UniqFlags) -> (Seq<Seq<char>>, bool) {
    (lines_output(text_lines(content), is_text(content), flags), is_text(content))
}

/// The shown runs of the lines of one file, as the texts to write in order.
pub fn handle_file(file: &TextLines, flags: &UniqFlags) -> (r: Vec<String>)
    ensures
        texts(r@) == lines_output(texts(file.lines@), file.complete, *flags),
{
    let ghost lines = texts(file.lines@);
    let ghost ic = flags.ignore_case;
    let mut state = RunState::new(*flags);
    let mut out: Vec<String> = Vec::new();
    let ghost mut closed: Seq<(nat, Seq<char>)> = Seq::empty();
    let mut i: usize = 0;
    assert(lines.skip(0) == lines);
    assert(closed + runs_from(state.representative@, 0, lines, ic) == runs(lines, ic));
    while i < file.lines.len()
        invariant
            i <= file.lines.len(),
            lines == texts(file.lines@),
            ic == flags.ignore_case,
            state.flags == *flags,
            state.run_length <= i,
            runs(lines, ic) == closed + runs_from(
                state.representative@,
                state.run_length as nat,
                lines.skip(i as int),
                ic,
            ),
            texts(out@) == written(closed, *flags),
        decreases file.lines.len() - i,
    {
        let ghost rest = lines.skip(i as int);
        let ghost rep = state.representative@;
        let ghost count = state.run_length as nat;
        assert(rest[0] == file.lines@[i as int]@);
        assert(rest.drop_first() == lines.skip(i + 1));
        let shown_text = state.push(file.lines[i].as_str());
        proof {
            if !same_line(rep, rest[0], ic) {
                let before = closed;
                closed = closed.push((count, rep));
                assert(closed.drop_last() == before);
                assert(before + (seq![(count, rep)] + runs_from(
                    rest[0],
                    1,
                    rest.drop_first(),
                    ic,
                )) == closed + runs_from(rest[0], 1, rest.drop_first(), ic));
            }
        }
        if let Some(text) = shown_text {
            let ghost before = out@;
            out.push(text);
            assert(texts(out@) == texts(before).push(text@));
        } else {
            assert(texts(out@) + Seq::<Seq<char>>::empty() == texts(out@));
        }
        i += 1;
    }
    proof {
        let last = (state.run_length as nat, state.representative@);
        assert(runs(lines, ic) == closed.push(last));
        assert(closed.push(last).drop_last() == closed);
    }
    if file.complete {
        if let Some(text) = state.finish() {
            let ghost before = out@;
            out.push(text);
            assert(texts(out@) == texts(before).push(text@));
        } else {
            assert(texts(out@) + Seq::<Seq<char>>::empty() == texts(out@));
        }
    }
    out
}

/// What the work on a file gave.
#[derive(Debug)]
pub struct UniqOutput {
    /// The texts to write, in order.
    pub written: Vec<String>,
    /// Whether the file was read to its end; a file is read up to the first
    /// line that is not well-formed UTF-8.
    pub complete: bool,
}

/// Collapses the runs of equal lines of a file, given by its contents.
pub fn uniq(content: &[u8], flags: &UniqFlags) -> (r: UniqOutput)
    ensures
        (texts(r.written@), r.complete) == file_output(content@, *flags),
{
    let file = read_lines(content);
    let written = handle_file(&file, flags);
    UniqOutput { written, complete: file.complete }
}

/// The lengths of the runs among `runs` that are shown, added up.
pub open spec fn shown_length(runs: Seq<(nat, Seq<char>)>, flags: UniqFlags) -> nat
    decreases runs.len(),
{
    if runs.len() == 0 {
        0
    } else {
        shown_length(runs.drop_last(), flags) + if shown(runs.last().0, flags) {
            runs.last().0
        } else {
            0
        }
    }
}

proof fn lemma_shown_length_concat(
    a: Seq<(nat, Seq<char>)>,
    b: Seq<(nat, Seq<char>)>,
    flags: UniqFlags,
)
    ensures
        shown_length(a + b, flags) == shown_length(a, flags) + shown_length(b, flags),
    decreases b.len(),
{
    if b.len() == 0 {
        assert(a + b == a);
    } else {
        assert((a + b).drop_last() == a + b.drop_last());
        lemma_shown_length_concat(a, b.drop_last(), flags);
    }
}

proof fn lemma_shown_length_from(
    rep: Seq<char>,
    count: nat,
    lines: Seq<Seq<char>>,
    flags: UniqFlags,
)
    requires
        !flags.show_unique,
        !flags.show_repeated,
    ensures
        shown_length(runs_from(rep, count, lines, flags.ignore_case), flags) == count
            + lines.len(),
    decreases lines.len(),
{
    let ic = flags.ignore_case;
    let one = seq![(count, rep)];
    assert(one.drop_last() == Seq::<(nat, Seq<char>)>::empty());
    assert(shown_length(one.drop_last(), flags) == 0);
    assert(one.last() == (count, rep));
    assert(shown_length(one, flags) == count);
    if lines.len() == 0 {
    } else if same_line(rep, lines[0], ic) {
        lemma_shown_length_from(rep, count + 1, lines.drop_first(), flags);
    } else {
        lemma_shown_length_from(lines[0], 1, lines.drop_first(), flags);
        lemma_shown_length_concat(one, runs_from(lines[0], 1, lines.drop_first(), ic), flags);
    }
}

/// Where every run is shown, the lengths of the runs that are written add up
/// to the number of lines that came in, whatever the lines are.
pub proof fn lemma_run_lengths_sum(lines: Seq<Seq<char>>, flags: UniqFlags)
    requires
        !flags.show_unique,
        !flags.show_repeated,
    ensures
        shown_length(runs(lines, flags.ignore_case), flags) == lines.len(),
{
    lemma_shown_length_from(Seq::empty(), 0, lines, flags);
}

/// The flags that show every run and no counts.
pub open spec fn plain_flags(ignore_case: bool) -> UniqFlags {
    UniqFlags { show_count: false, show_unique: false, show_repeated: false, ignore_case }
}

/// What is written for `lines` that were read to the end when every run is
/// shown and no counts are: the first line of each run.
pub open spec fn collapsed(lines: Seq<Seq<char>>, ignore_case: bool) -> Seq<Seq<char>> {
    lines_output(lines, true, plain_flags(ignore_case))
}

/// Whether no two neighbours in `lines` compare equal.
pub open spec fn neighbours_differ(lines: Seq<Seq<char>>, ignore_case: bool) -> bool {
    forall|i: int|
        0 <= i < lines.len() - 1 ==> !same_line(#[trigger] lines[i], lines[i + 1], ignore_case)
}

/// The runs that are closed: all runs where the lines were read to the end,
/// all but the open one where they were not.
pub open spec fn settled(runs: Seq<(nat, Seq<char>)>, complete: bool) -> Seq<(nat, Seq<char>)> {
    if complete {
        runs
    } else {
        runs.drop_last()
    }
}

proof fn lemma_written_concat(
    a: Seq<(nat, Seq<char>)>,
    b: Seq<(nat, Seq<char>)>,
    flags: UniqFlags,
)
    ensures
        written(a + b, flags) == written(a, flags) + written(b, flags),
    decreases b.len(),
{
    if b.len() == 0 {
        assert(a + b == a);
        assert(written(a, flags) + Seq::<Seq<char>>::empty() == written(a, flags));
    } else {
        assert((a + b).drop_last() == a + b.drop_last());
        lemma_written_concat(a, b.drop_last(), flags);
        let tail = if shown(b.last().0, flags) {
            seq![formatted(flags.show_count, b.last().0, b.last().1)]
        } else {
            Seq::empty()
        };
        assert(written(a, flags) + written(b.drop_last(), flags) + tail == written(a, flags) + (
        written(b.drop_last(), flags) + tail));
    }
}

proof fn lemma_written_one(count: nat, rep: Seq<char>, ignore_case: bool)
    ensures
        written(seq![(count, rep)], plain_flags(ignore_case)) == if count > 0 {
            seq![rep]
        } else {
            Seq::<Seq<char>>::empty()
        },
{
    let flags = plain_flags(ignore_case);
    let one = seq![(count, rep)];
    assert(one.drop_last() == Seq::<(nat, Seq<char>)>::empty());
    assert(written(one.drop_last(), flags) == Seq::<Seq<char>>::empty());
    if count > 0 {
        assert(Seq::<Seq<char>>::empty() + seq![rep] == seq![rep]);
    } else {
        assert(Seq::<Seq<char>>::empty() + Seq::<Seq<char>>::empty() == Seq::<
            Seq<char>,
        >::empty());
    }
}

proof fn lemma_runs_not_empty(rep: Seq<char>, count: nat, lines: Seq<Seq<char>>, ignore_case: bool)
    ensures
        runs_from(rep, count, lines, ignore_case).len() > 0,
    decreases lines.len(),
{
    if lines.len() > 0 && same_line(rep, lines[0], ignore_case) {
        lemma_runs_not_empty(rep, count + 1, lines.drop_first(), ignore_case);
    }
}

/// With one run before them, the closed runs are that run and the closed
/// runs after it.
proof fn lemma_settled_after(
    first: (nat, Seq<char>),
    more: Seq<(nat, Seq<char>)>,
    complete: bool,
    ignore_case: bool,
)
    requires
        more.len() > 0,
    ensures
        written(settled(seq![first] + more, complete), plain_flags(ignore_case)) == written(
            seq![first],
            plain_flags(ignore_case),
        ) + written(settled(more, complete), plain_flags(ignore_case)),
{
    assert((seq![first] + more).drop_last() == seq![first] + more.drop_last());
    lemma_written_concat(seq![first], settled(more, complete), plain_flags(ignore_case));
}

proof fn lemma_lines_after(first: Seq<char>, lines: Seq<Seq<char>>, kept: Seq<Seq<char>>)
    requires
        are_lines(seq![first] + lines),
        lines.len() > 0,
        are_lines(kept),
    ensures
        are_lines(seq![first] + kept),
        are_lines(lines),
{
    let all = seq![first] + lines;
    let out = seq![first] + kept;
    assert(all[0] == first);
    assert(is_line(all[0]));
    assert forall|i: int| 0 <= i < out.len() implies is_line(#[trigger] out[i]) && (i < out.len()
        - 1 ==> out[i].last() == '\n') by {
        if i > 0 {
            assert(out[i] == kept[i - 1]);
        }
    }
    assert forall|i: int| 0 <= i < lines.len() implies is_line(#[trigger] lines[i]) && (i
        < lines.len() - 1 ==> lines[i].last() == '\n') by {
        assert(lines[i] == all[i + 1]);
    }
}

/// What is written from an open run with at least one line starts with that
/// run's first line, no two neighbours in it compare equal, and where the
/// lines that came in are the lines of a file, so are the lines written.
proof fn lemma_output_shape(
    rep: Seq<char>,
    count: nat,
    lines: Seq<Seq<char>>,
    complete: bool,
    ignore_case: bool,
)
    requires
        count > 0,
    ensures
        ({
            let out = written(
                settled(runs_from(rep, count, lines, ignore_case), complete),
                plain_flags(ignore_case),
            );
            &&& complete ==> out.len() > 0
            &&& out.len() > 0 ==> out[0] == rep
            &&& neighbours_differ(out, ignore_case)
            &&& are_lines(seq![rep] + lines) ==> are_lines(out)
        }),
    decreases lines.len(),
{
    let flags = plain_flags(ignore_case);
    let all = runs_from(rep, count, lines, ignore_case);
    let out = written(settled(all, complete), flags);
    lemma_written_one(count, rep, ignore_case);
    if lines.len() == 0 {
        assert(all.drop_last() == Seq::<(nat, Seq<char>)>::empty());
        if are_lines(seq![rep] + lines) {
            assert((seq![rep] + lines)[0] == rep);
            assert(is_line((seq![rep] + lines)[0]));
        }
    } else if same_line(rep, lines[0], ignore_case) {
        let rest = lines.drop_first();
        lemma_output_shape(rep, count + 1, rest, complete, ignore_case);
        if are_lines(seq![rep] + lines) {
            let before = seq![rep] + lines;
            let after = seq![rep] + rest;
            assert forall|i: int| 0 <= i < after.len() implies is_line(#[trigger] after[i]) && (i
                < after.len() - 1 ==> after[i].last() == '\n') by {
                if i > 0 {
                    assert(after[i] == before[i + 1]);
                } else {
                    assert(after[0] == before[0]);
                }
            }
        }
    } else {
        let rest = lines.drop_first();
        let more = runs_from(lines[0], 1, rest, ignore_case);
        let tail = written(settled(more, complete), flags);
        lemma_runs_not_empty(lines[0], 1, rest, ignore_case);
        lemma_settled_after((count, rep), more, complete, ignore_case);
        lemma_output_shape(lines[0], 1, rest, complete, ignore_case);
        assert(out == seq![rep] + tail);
        assert(seq![lines[0]] + rest == lines);
        assert forall|i: int| 0 <= i < out.len() - 1 implies !same_line(
            #[trigger] out[i],
            out[i + 1],
            ignore_case,
        ) by {
            if i > 0 {
                assert(out[i] == tail[i - 1]);
                assert(out[i + 1] == tail[i]);
            } else {
                assert(out[1] == tail[0]);
            }
        }
        if are_lines(seq![rep] + lines) {
            lemma_lines_after(rep, lines, Seq::empty());
            lemma_lines_after(rep, lines, tail);
        }
    }
}

/// Lines of which no two neighbours compare equal are written as they are.
proof fn lemma_collapsed_fixed(lines: Seq<Seq<char>>, ignore_case: bool)
    requires
        lines.len() > 0,
        neighbours_differ(lines, ignore_case),
    ensures
        written(
            runs_from(lines[0], 1, lines.drop_first(), ignore_case),
            plain_flags(ignore_case),
        ) == lines,
    decreases lines.len(),
{
    let flags = plain_flags(ignore_case);
    let rest = lines.drop_first();
    lemma_written_one(1, lines[0], ignore_case);
    if rest.len() == 0 {
        assert(lines == seq![lines[0]]);
    } else {
        assert(rest[0] == lines[1]);
        assert(!same_line(lines[0], lines[1], ignore_case));
        assert forall|i: int| 0 <= i < rest.len() - 1 implies !same_line(
            #[trigger] rest[i],
            rest[i + 1],
            ignore_case,
        ) by {
            assert(rest[i] == lines[i + 1]);
            assert(rest[i + 1] == lines[i + 2]);
        }
        lemma_collapsed_fixed(rest, ignore_case);
        lemma_written_concat(
            seq![(1nat, lines[0])],
            runs_from(rest[0], 1, rest.drop_first(), ignore_case),
            flags,
        );
        assert(seq![lines[0]] + rest == lines);
    }
}

/// Lines of which no two neighbours compare equal, and of which the first
/// does not compare equal to the empty text, are written as they are.
proof fn lemma_collapsed_headed(lines: Seq<Seq<char>>, ignore_case: bool)
    requires
        neighbours_differ(lines, ignore_case),
        lines.len() > 0 ==> !same_line(Seq::empty(), lines[0], ignore_case),
    ensures
        collapsed(lines, ignore_case) == lines,
{
    let flags = plain_flags(ignore_case);
    let start = Seq::<char>::empty();
    lemma_written_one(0, start, ignore_case);
    if lines.len() > 0 {
        lemma_collapsed_fixed(lines, ignore_case);
        lemma_written_concat(
            seq![(0nat, start)],
            runs_from(lines[0], 1, lines.drop_first(), ignore_case),
            flags,
        );
        assert(Seq::<Seq<char>>::empty() + lines == lines);
    }
}

/// Collapsing what collapsing gave changes nothing: with every run shown and
/// no counts, the lines written for any lines are written again, one for one,
/// when they come in as the lines.
pub proof fn lemma_collapse_idempotent(lines: Seq<Seq<char>>, ignore_case: bool)
    ensures
        collapsed(collapsed(lines, ignore_case), ignore_case) == collapsed(lines, ignore_case),
{
    let flags = plain_flags(ignore_case);
    let start = Seq::<char>::empty();
    let once = collapsed(lines, ignore_case);
    lemma_written_one(0, start, ignore_case);
    if lines.len() == 0 {
        assert(once == Seq::<Seq<char>>::empty());
    } else {
        let rest = lines.drop_first();
        if same_line(start, lines[0], ignore_case) {
            // The run that is open before the first line takes the line in:
            // what is written starts with the empty text.
            lemma_output_shape(start, 1, rest, true, ignore_case);
            lemma_collapsed_fixed(once, ignore_case);
        } else {
            lemma_output_shape(lines[0], 1, rest, true, ignore_case);
            lemma_written_concat(
                seq![(0nat, start)],
                runs_from(lines[0], 1, rest, ignore_case),
                flags,
            );
            assert(Seq::<Seq<char>>::empty() + written(
                runs_from(lines[0], 1, rest, ignore_case),
                flags,
            ) == written(runs_from(lines[0], 1, rest, ignore_case), flags));
            lemma_collapsed_headed(once, ignore_case);
        }
    }
}

/// What is written without the empty text that may stand at its start.
pub open spec fn without_blank(pieces: Seq<Seq<char>>) -> Seq<Seq<char>> {
    if pieces.len() > 0 && pieces[0].len() == 0 {
        pieces.drop_first()
    } else {
        pieces
    }
}

/// What is written for the lines of a file, from the start of the work or
/// after lines that compare equal to the empty text: but for an empty text
/// at the start these are the lines of a file, no two neighbours among them
/// compare equal, and the first does not compare equal to the empty text.
proof fn lemma_blank_start(count: nat, lines: Seq<Seq<char>>, complete: bool, ignore_case: bool)
    requires
        are_lines(lines),
    ensures
        ({
            let out = written(
                settled(runs_from(Seq::empty(), count, lines, ignore_case), complete),
                plain_flags(ignore_case),
            );
            let kept = without_blank(out);
            &&& are_lines(kept)
            &&& neighbours_differ(kept, ignore_case)
            &&& kept.len() > 0 ==> !same_line(Seq::empty(), kept[0], ignore_case)
            &&& bytes_of(out) == bytes_of(kept)
        }),
    decreases lines.len(),
{
    let flags = plain_flags(ignore_case);
    let start = Seq::<char>::empty();
    let all = runs_from(start, count, lines, ignore_case);
    let out = written(settled(all, complete), flags);
    lemma_written_one(count, start, ignore_case);
    assert(encode_utf8(start) == Seq::<u8>::empty());
    if lines.len() == 0 {
        assert(all.drop_last() == Seq::<(nat, Seq<char>)>::empty());
        if out.len() > 0 {
            assert(out == seq![start]);
            assert(out.drop_first() == Seq::<Seq<char>>::empty());
            assert(bytes_of(out) == encode_utf8(start) + bytes_of(out.drop_first()));
        }
    } else {
        let rest = lines.drop_first();
        assert forall|i: int| 0 <= i < rest.len() implies is_line(#[trigger] rest[i]) && (i
            < rest.len() - 1 ==> rest[i].last() == '\n') by {
            assert(rest[i] == lines[i + 1]);
        }
        if same_line(start, lines[0], ignore_case) {
            lemma_blank_start(count + 1, rest, complete, ignore_case);
        } else {
            let more = runs_from(lines[0], 1, rest, ignore_case);
            let tail = written(settled(more, complete), flags);
            lemma_runs_not_empty(lines[0], 1, rest, ignore_case);
            lemma_settled_after((count, start), more, complete, ignore_case);
            lemma_output_shape(lines[0], 1, rest, complete, ignore_case);
            assert(seq![lines[0]] + rest == lines);
            assert(is_line(lines[0]));
            if count > 0 {
                assert(out == seq![start] + tail);
                assert(out.drop_first() == tail);
                assert(bytes_of(out) == encode_utf8(start) + bytes_of(out.drop_first()));
            } else {
                assert(Seq::<Seq<char>>::empty() + tail == tail);
            }
        }
    }
}

/// The bytes written for a file with every run shown and no counts.
pub open spec fn collapsed_bytes(content: Seq<u8>, ignore_case: bool) -> Seq<u8> {
    bytes_of(file_output(content, plain_flags(ignore_case)).0)
}

/// Collapsing a file twice gives what collapsing it once gives, byte for
/// byte: with every run shown and no counts, what is written for any file is
/// text, and what is written for that text is the same text again.
pub proof fn lemma_uniq_idempotent(content: Seq<u8>, ignore_case: bool)
    ensures
        is_text(collapsed_bytes(content, ignore_case)),
        collapsed_bytes(collapsed_bytes(content, ignore_case), ignore_case) == collapsed_bytes(
            content,
            ignore_case,
        ),
{
    let flags = plain_flags(ignore_case);
    let lines = text_lines(content);
    lemma_text_lines_are_lines(content);
    lemma_blank_start(0, lines, is_text(content), ignore_case);
    let out = file_output(content, flags).0;
    let kept = without_blank(out);
    lemma_lines_of_bytes(kept);
    lemma_collapsed_headed(kept, ignore_case);
}

} // verus!
