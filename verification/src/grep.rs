//! Searching files for the lines that a pattern matches.

use crate::lines::{is_text, read_lines, text_lines, texts, Source};
use crate::logging::display_error;
use crate::text::{chars_of, decimal, decimal_chars, push_str, string_of};
use vstd::prelude::*;

verus! {

/// Why a search could not be made.
#[derive(Debug, Clone, PartialEq, Eq)]
pub enum GrepError {
    /// The pattern is no regular expression; it holds the pattern.
    InvalidPattern(String),
}

/// A [`GrepError`] as a mathematical value.
pub enum GrepFault {
    InvalidPattern(Seq<char>),
}

impl View for GrepError {
    type V = GrepFault;

    open spec fn view(&self) -> GrepFault {
        match self {
            GrepError::InvalidPattern(pattern) => GrepFault::InvalidPattern(pattern@),
        }
    }
}

impl GrepFault {
    /// The fault in words.
    pub open spec fn message(self) -> Seq<char> {
        match self {
            GrepFault::InvalidPattern(pattern) => "grep: invalid pattern `"@ + pattern + "`"@,
        }
    }
}

impl GrepError {
    /// The error in words, as it is reported.
    pub fn message(&self) -> (r: String)
        ensures
            r@ == self@.message(),
    {
        let mut out: Vec<char> = Vec::new();
        match self {
            GrepError::InvalidPattern(pattern) => {
                push_str(&mut out, "grep: invalid pattern `");
                push_str(&mut out, pattern.as_str());
                push_str(&mut out, "`");
            },
        }
        string_of(&out)
    }
}

/// Whether `regex::RegexBuilder::build` accepts the pattern, with matching
/// that ignores case or does not.
pub uninterp spec fn regex_compiles(pattern: Seq<char>, ignore_case: bool) -> bool;

/// Whether the regular expression that `regex::RegexBuilder::build` makes of
/// the pattern matches somewhere in `text`, as `regex::Regex::is_match` tells.
pub uninterp spec fn regex_matches(pattern: Seq<char>, ignore_case: bool, text: Seq<char>) -> bool;

/// `regex::RegexBuilder::build`, then `regex::Regex::is_match` on each of
/// `texts`: `None` where the pattern is refused, else for each text whether
/// the regular expression matches somewhere in it.
#[verifier::external_body]
pub(crate) fn match_each(pattern: &str, ignore_case: bool, texts: &Vec<String>) -> (r: Option<
    Vec<bool>,
>)
    ensures
        r is Some <==> regex_compiles(pattern@, ignore_case),
        r matches Some(found) ==> found.len() == texts.len() && forall|i: int|
            0 <= i < texts.len() ==> found[i] == regex_matches(
                pattern@,
                ignore_case,
                (#[trigger] texts[i])@,
            ),
{
    match regex::RegexBuilder::new(pattern).case_insensitive(ignore_case).build() {
        Ok(regex) => Some(texts.iter().map(|text| regex.is_match(text)).collect()),
        Err(_) => None,
    }
}

/// A pattern that is a regular expression.
#[derive(Debug)]
pub struct Pattern {
    source: String,
    ignore_case: bool,
}

impl Pattern {
    #[verifier::type_invariant]
    spec fn compiles(&self) -> bool {
        regex_compiles(self.source@, self.ignore_case)
    }

    /// The pattern as it was written.
    pub closed spec fn source(&self) -> Seq<char> {
        self.source@
    }

    /// Whether matching ignores case.
    pub closed spec fn ignores_case(&self) -> bool {
        self.ignore_case
    }

    /// Whether the pattern matches somewhere in `text`.
    pub open spec fn matches(&self, text: Seq<char>) -> bool {
        regex_matches(self.source(), self.ignores_case(), text)
    }

    /// The pattern as it was written.
    pub fn as_str(&self) -> (r: &str)
        ensures
            r@ == self.source(),
    {
        self.source.as_str()
    }

    /// For each of `texts`, whether the pattern matches somewhere in it.
    pub fn match_all(&self, texts: &Vec<String>) -> (r: Vec<bool>)
        ensures
            r.len() == texts.len(),
            forall|i: int| 0 <= i < texts.len() ==> r[i] == self.matches((#[trigger] texts[i])@),
    {
        proof {
            use_type_invariant(self);
        }
        match match_each(self.source.as_str(), self.ignore_case, texts) {
            Some(found) => found,
            None => Vec::new(),
        }
    }
}

/// Makes a pattern of `pattern`, if it is a regular expression.
pub fn build_regex_pattern(pattern: &str, ignore_case: bool) -> (r: Result<Pattern, GrepError>)
    ensures
        r is Ok <==> regex_compiles(pattern@, ignore_case),
        r matches Ok(p) ==> p.source() == pattern@ && p.ignores_case() == ignore_case,
        r matches Err(e) ==> e@ == GrepFault::InvalidPattern(pattern@),
{
    let none: Vec<String> = Vec::new();
    match match_each(pattern, ignore_case, &none) {
        Some(_) => Ok(Pattern { source: pattern.to_owned(), ignore_case }),
        None => Err(GrepError::InvalidPattern(pattern.to_owned())),
    }
}

/// The `lines` for which `found` is other than `invert`, in order; none where
/// `found` does not tell of each line.
pub open spec fn selected(lines: Seq<Seq<char>>, found: Seq<bool>, invert: bool) -> Seq<Seq<char>>
    decreases lines.len(),
{
    if lines.len() == 0 || found.len() != lines.len() {
        Seq::empty()
    } else {
        selected(lines.drop_last(), found.drop_last(), invert) + if found.last() != invert {
            seq![lines.last()]
        } else {
            Seq::empty()
        }
    }
}

/// The lines among `lines` that are found, or that are not found where the
/// search is inverted.
pub fn select_lines(lines: &Vec<String>, found: &Vec<bool>, invert: bool) -> (r: Vec<String>)
    ensures
        texts(r@) == selected(texts(lines@), found@, invert),
{
    let mut out: Vec<String> = Vec::new();
    if found.len() != lines.len() {
        return out;
    }
    let mut i: usize = 0;
    while i < lines.len()
        invariant
            i <= lines.len(),
            found.len() == lines.len(),
            texts(out@) == selected(texts(lines@).take(i as int), found@.take(i as int), invert),
        decreases lines.len() - i,
    {
        proof {
            let now = texts(lines@).take(i + 1);
            assert(now.drop_last() == texts(lines@).take(i as int));
            assert(found@.take(i + 1).drop_last() == found@.take(i as int));
            assert(now.last() == lines@[i as int]@);
        }
        if found[i] != invert {
            let ghost before = out@;
            let line = lines[i].clone();
            out.push(line);
            assert(texts(out@) == texts(before).push(line@));
        } else {
            assert(texts(out@) + Seq::<Seq<char>>::empty() == texts(out@));
        }
        i += 1;
    }
    assert(texts(lines@).take(i as int) == texts(lines@));
    assert(found@.take(i as int) == found@);
    out
}

/// The lines of a file that the pattern matches, or those that it does not
/// match where the search is inverted; none for a file that is not text to
/// its end.
pub open spec fn found_lines(
    content: Seq<u8>,
    pattern: Seq<char>,
    ignore_case: bool,
    invert: bool,
) -> Option<Seq<Seq<char>>> {
    if is_text(content) {
        let lines = text_lines(content);
        Some(
            selected(
                lines,
                lines.map_values(|line: Seq<char>| regex_matches(pattern, ignore_case, line)),
                invert,
            ),
        )
    } else {
        None
    }
}

/// Searches a file, given by its contents, for the lines that `pattern`
/// matches. The lines come with their line feeds.
pub fn find_lines(content: &[u8], pattern: &Pattern, invert: bool) -> (r: Option<Vec<String>>)
    ensures
        match found_lines(content@, pattern.source(), pattern.ignores_case(), invert) {
            Some(lines) => r matches Some(out) && texts(out@) == lines,
            None => r is None,
        },
{
    let file = read_lines(content);
    if !file.complete {
        return None;
    }
    let found = pattern.match_all(&file.lines);
    assert(found@ == text_lines(content@).map_values(
        |line: Seq<char>| regex_matches(pattern.source(), pattern.ignores_case(), line),
    )) by {
        let all = text_lines(content@);
        assert forall|i: int| 0 <= i < found.len() implies found@[i] == pattern.matches(all[i]) by {
            assert(all[i] == file.lines[i]@);
        }
    }
    Some(select_lines(&file.lines, &found, invert))
}

/// A piece of output as it is written: after the file's name and a colon
/// where more than one file is searched.
pub open spec fn labelled(files_count: int, file_name: Seq<char>, value: Seq<char>) -> Seq<char> {
    if files_count > 1 {
        file_name + seq![':'] + value
    } else {
        value
    }
}

/// The text to write for `value`, found in the file `file_name`.
pub fn log_data(files_count: usize, file_name: &str, value: &str) -> (r: String)
    ensures
        r@ == labelled(files_count as int, file_name@, value@),
{
    if files_count > 1 {
        let mut out: Vec<char> = Vec::new();
        push_str(&mut out, file_name);
        out.push(':');
        push_str(&mut out, value);
        string_of(&out)
    } else {
        value.to_owned()
    }
}

/// What is written for a file in which `lines` were found: their number on a
/// line where the number is asked for, else the lines.
pub open spec fn file_report(
    files_count: int,
    file_name: Seq<char>,
    lines: Seq<Seq<char>>,
    count: bool,
) -> Seq<Seq<char>> {
    if count {
        seq![labelled(files_count, file_name, decimal(lines.len()) + seq!['\n'])]
    } else {
        lines.map_values(|line: Seq<char>| labelled(files_count, file_name, line))
    }
}

/// What is written for the `i`-th of `files`; `None` for a file that could
/// not be opened or is not text to its end.
pub open spec fn source_report(
    files: Seq<Source>,
    i: int,
    pattern: Seq<char>,
    ignore_case: bool,
    count: bool,
    invert: bool,
) -> Option<Seq<Seq<char>>> {
    match files[i].content {
        None => None,
        Some(content) => match found_lines(content@, pattern, ignore_case, invert) {
            None => None,
            Some(lines) => Some(file_report(files.len() as int, files[i].name@, lines, count)),
        },
    }
}

/// The output for one file as a mathematical value.
pub open spec fn report_view(report: Option<Vec<String>>) -> Option<Seq<Seq<char>>> {
    match report {
        Some(lines) => Some(texts(lines@)),
        None => None,
    }
}

/// Searches each of `files` for the lines that `pattern` matches. A pattern
/// that is no regular expression is refused before any file is looked at.
/// For each file the result holds the pieces of text to write, or `None`
/// where the file could not be searched.
pub fn grep(pattern: &str, files: &Vec<Source>, ignore_case: bool, count: bool, invert: bool) -> (r:
    Result<Vec<Option<Vec<String>>>, GrepError>)
    ensures
        r is Ok <==> regex_compiles(pattern@, ignore_case),
        r matches Err(e) ==> e@ == GrepFault::InvalidPattern(pattern@),
        r matches Ok(reports) ==> reports.len() == files.len() && forall|i: int|
            0 <= i < files.len() ==> report_view(#[trigger] reports[i]) == source_report(
                files@,
                i,
                pattern@,
                ignore_case,
                count,
                invert,
            ),
{
    let ghost source = pattern@;
    let pattern = build_regex_pattern(pattern, ignore_case)?;
    let files_count = files.len();
    let mut reports: Vec<Option<Vec<String>>> = Vec::new();
    let mut i: usize = 0;
    while i < files.len()
        invariant
            i <= files.len(),
            files_count == files.len(),
            reports.len() == i,
            pattern.source() == source,
            pattern.ignores_case() == ignore_case,
            forall|k: int|
                0 <= k < i ==> report_view(#[trigger] reports[k]) == source_report(
                    files@,
                    k,
                    source,
                    ignore_case,
                    count,
                    invert,
                ),
        decreases files.len() - i,
    {
        let mut report: Option<Vec<String>> = None;
        if let Some(content) = &files[i].content {
            if let Some(matches) = find_lines(content.as_slice(), &pattern, invert) {
                let name = files[i].name.as_str();
                if count {
                    let mut value = decimal_chars(matches.len() as u64);
                    value.push('\n');
                    let line = log_data(files_count, name, string_of(&value).as_str());
                    let mut out: Vec<String> = Vec::new();
                    out.push(line);
                    assert(texts(out@) == seq![line@]);
                    assert(value@ == decimal(texts(matches@).len()) + seq!['\n']);
                    report = Some(out);
                } else {
                    let ghost f = |line: Seq<char>| labelled(files_count as int, name@, line);
                    let mut out: Vec<String> = Vec::new();
                    let mut k: usize = 0;
                    while k < matches.len()
                        invariant
                            k <= matches.len(),
                            f == |line: Seq<char>| labelled(files_count as int, name@, line),
                            texts(out@) == texts(matches@).take(k as int).map_values(f),
                        decreases matches.len() - k,
                    {
                        let line = log_data(files_count, name, matches[k].as_str());
                        let ghost before = out@;
                        out.push(line);
                        assert(texts(out@) == texts(before).push(line@));
                        assert(texts(matches@).take(k + 1).map_values(f) == texts(matches@).take(
                            k as int,
                        ).map_values(f).push(line@));
                        k += 1;
                    }
                    assert(texts(matches@).take(k as int) == texts(matches@));
                    report = Some(out);
                }
            }
        }
        assert(report_view(report) == source_report(
            files@,
            i as int,
            source,
            ignore_case,
            count,
            invert,
        ));
        reports.push(report);
        i += 1;
    }
    Ok(reports)
}

/// What was found at a path that is to be searched.
#[derive(Debug, Clone)]
pub enum PathKind {
    /// Nothing could be found out; it holds the reason.
    Missing(String),
    /// An ordinary file.
    File,
    /// A directory, with the paths of the ordinary files below it.
    Dir(Vec<String>),
    /// Anything else.
    Other,
}

/// A path that is to be searched, with what was found there.
#[derive(Debug, Clone)]
pub struct SearchPath {
    /// The path as it was given.
    pub path: String,
    /// What was found there; it does not count for the standard input,
    /// which is named `-`.
    pub kind: PathKind,
}

/// The files that one path stands for: the standard input and an ordinary
/// file stand for themselves, a directory for the files below it where the
/// search goes into directories.
pub open spec fn files_of(path: SearchPath, recursive: bool) -> Seq<Seq<char>> {
    if path.path@ == seq!['-'] {
        seq![path.path@]
    } else {
        match path.kind {
            PathKind::File => seq![path.path@],
            PathKind::Dir(below) => if recursive {
                crate::lines::texts(below@)
            } else {
                Seq::empty()
            },
            _ => Seq::empty(),
        }
    }
}

/// The report on one path: on a path about which nothing could be found out,
/// and on a directory where the search does not go into directories.
pub open spec fn report_of(path: SearchPath, recursive: bool) -> Seq<Seq<char>> {
    if path.path@ == seq!['-'] {
        Seq::empty()
    } else {
        match path.kind {
            PathKind::Missing(reason) => seq!["grep"@ + ": "@ + (path.path@ + ": "@ + reason@)],
            PathKind::Dir(_) => if recursive {
                Seq::empty()
            } else {
                seq!["grep"@ + ": "@ + (path.path@ + " is a directory"@)]
            },
            _ => Seq::empty(),
        }
    }
}

/// The files that all paths stand for, in order.
pub open spec fn found_files(paths: Seq<SearchPath>, recursive: bool) -> Seq<Seq<char>>
    decreases paths.len(),
{
    if paths.len() == 0 {
        Seq::empty()
    } else {
        found_files(paths.drop_last(), recursive) + files_of(paths.last(), recursive)
    }
}

/// The reports on all paths, in order.
pub open spec fn found_reports(paths: Seq<SearchPath>, recursive: bool) -> Seq<Seq<char>>
    decreases paths.len(),
{
    if paths.len() == 0 {
        Seq::empty()
    } else {
        found_reports(paths.drop_last(), recursive) + report_of(paths.last(), recursive)
    }
}

/// The files to search, and the reports on the paths that are not searched.
#[derive(Debug)]
pub struct FoundFiles {
    /// The names of the files to search, in order.
    pub files: Vec<String>,
    /// The lines that report a failure, in order.
    pub errors: Vec<String>,
}

/// Finds the files to search for the paths given.
pub fn find_files(paths: &Vec<SearchPath>, recursive: bool) -> (r: FoundFiles)
    ensures
        texts(r.files@) == found_files(paths@, recursive),
        texts(r.errors@) == found_reports(paths@, recursive),
{
    let mut files: Vec<String> = Vec::new();
    let mut errors: Vec<String> = Vec::new();
    let mut i: usize = 0;
    while i < paths.len()
        invariant
            i <= paths.len(),
            texts(files@) == found_files(paths@.take(i as int), recursive),
            texts(errors@) == found_reports(paths@.take(i as int), recursive),
        decreases paths.len() - i,
    {
        proof {
            let now = paths@.take(i + 1);
            assert(now.drop_last() == paths@.take(i as int));
            assert(now.last() == paths@[i as int]);
        }
        let ghost files_before = texts(files@);
        let ghost errors_before = texts(errors@);
        let ghost entry = paths@[i as int];
        let name = chars_of(paths[i].path.as_str());
        let mut add_file = false;
        if name.len() == 1 && name[0] == '-' {
            assert(name@ == seq!['-']);
            add_file = true;
        } else {
            match &paths[i].kind {
                PathKind::Missing(reason) => {
                    let mut text = chars_of(paths[i].path.as_str());
                    push_str(&mut text, ": ");
                    push_str(&mut text, reason.as_str());
                    let line = display_error("grep", string_of(&text).as_str());
                    let ghost before = errors@;
                    errors.push(line);
                    assert(texts(errors@) == texts(before).push(line@));
                },
                PathKind::File => {
                    add_file = true;
                },
                PathKind::Dir(below) => {
                    if !recursive {
                        let mut text = chars_of(paths[i].path.as_str());
                        push_str(&mut text, " is a directory");
                        let line = display_error("grep", string_of(&text).as_str());
                        let ghost before = errors@;
                        errors.push(line);
                        assert(texts(errors@) == texts(before).push(line@));
                    } else {
                        let mut k: usize = 0;
                        while k < below.len()
                            invariant
                                k <= below.len(),
                                texts(files@) == files_before + texts(below@).take(k as int),
                            decreases below.len() - k,
                        {
                            let ghost before = files@;
                            let file = below[k].clone();
                            files.push(file);
                            assert(texts(files@) == texts(before).push(file@));
                            assert(texts(below@).take(k + 1) == texts(below@).take(k as int).push(
                                file@,
                            ));
                            k += 1;
                        }
                        assert(texts(below@).take(k as int) == texts(below@));
                    }
                },
                PathKind::Other => {},
            }
        }
        if add_file {
            let ghost before = files@;
            let file = paths[i].path.clone();
            files.push(file);
            assert(texts(files@) == texts(before).push(file@));
        }
        assert(texts(files@) == files_before + files_of(entry, recursive));
        assert(texts(errors@) == errors_before + report_of(entry, recursive));
        i += 1;
    }
    assert(paths@.take(i as int) == paths@);
    FoundFiles { files, errors }
}

} // verus!
