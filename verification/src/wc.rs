//! Counting the lines, words, bytes and characters of files.

use crate::lines::{
    all_valid, chunk_end, chunks, copy_bytes, decode_strict, decoded_prefix, is_text,
    lemma_chars_at_most_bytes, lemma_sources_size_prefix, sources_size, text_lines, Source,
};
use crate::text::{
    chars_of, decimal, decimal_chars, justify_right, push_chars, push_str, right_justified,
    string_of,
};
use vstd::prelude::*;
use vstd::utf8::decode_utf8_encode_utf8;

verus! {

/// The counts of one file.
#[derive(Clone, Copy, Debug, PartialEq, Eq, Structural)]
pub struct FileData {
    /// The number of lines; a last line without a line feed counts.
    pub num_lines: usize,
    /// The number of words.
    pub num_words: usize,
    /// The number of bytes.
    pub num_bytes: usize,
    /// The number of characters.
    pub num_chars: usize,
}

impl FileData {
    /// The four counts as numbers: lines, words, bytes, characters.
    pub open spec fn view(&self) -> (nat, nat, nat, nat) {
        (self.num_lines as nat, self.num_words as nat, self.num_bytes as nat, self.num_chars as nat)
    }
}

/// Whether `c` is ASCII white space: a space, a tab, a line feed, a form feed
/// or a carriage return.
pub open spec fn is_space(c: char) -> bool {
    c == ' ' || c == '\t' || c == '\n' || c == '\x0C' || c == '\r'
}

/// The number of words in `s`: the places where a character that is no white
/// space stands first or follows white space.
pub open spec fn word_count(s: Seq<char>) -> nat
    decreases s.len(),
{
    if s.len() == 0 {
        0
    } else {
        word_count(s.drop_last()) + if !is_space(s.last()) && (s.len() == 1 || is_space(
            s[s.len() - 2],
        )) {
            1nat
        } else {
            0nat
        }
    }
}

/// The words of all `lines`.
pub open spec fn total_words(lines: Seq<Seq<char>>) -> nat
    decreases lines.len(),
{
    if lines.len() == 0 {
        0
    } else {
        total_words(lines.drop_last()) + word_count(lines.last())
    }
}

/// The characters of all `lines`.
pub open spec fn total_chars(lines: Seq<Seq<char>>) -> nat
    decreases lines.len(),
{
    if lines.len() == 0 {
        0
    } else {
        total_chars(lines.drop_last()) + lines.last().len()
    }
}

/// The counts of a file with the given contents, where the file is text.
pub open spec fn file_data(content: Seq<u8>) -> Option<(nat, nat, nat, nat)> {
    if is_text(content) {
        let lines = text_lines(content);
        Some((lines.len(), total_words(lines), content.len(), total_chars(lines)))
    } else {
        None
    }
}

fn count_words(chars: &Vec<char>) -> (r: usize)
    ensures
        r == word_count(chars@),
        r <= chars.len(),
{
    let mut words: usize = 0;
    let mut i: usize = 0;
    while i < chars.len()
        invariant
            i <= chars.len(),
            words == word_count(chars@.take(i as int)),
            words <= i,
        decreases chars.len() - i,
    {
        let c = chars[i];
        let space = c == ' ' || c == '\t' || c == '\n' || c == '\x0C' || c == '\r';
        let after_space = if i == 0 {
            true
        } else {
            let p = chars[i - 1];
            p == ' ' || p == '\t' || p == '\n' || p == '\x0C' || p == '\r'
        };
        proof {
            let now = chars@.take(i + 1);
            assert(now.drop_last() == chars@.take(i as int));
            assert(now.last() == c);
            if i > 0 {
                assert(now[now.len() - 2] == chars@[i - 1]);
            }
        }
        if !space && after_space {
            words += 1;
        }
        i += 1;
    }
    assert(chars@.take(i as int) == chars@);
    words
}

/// Counts the lines, words, bytes and characters of a file, given by its
/// contents. A file that is not text throughout has no counts.
pub fn count(content: &[u8]) -> (r: Option<FileData>)
    ensures
        r is Some <==> file_data(content@) is Some,
        r matches Some(data) ==> file_data(content@) == Some(data.view()) && data.num_lines
            <= data.num_bytes && data.num_words <= data.num_chars <= data.num_bytes,
{
    let mut num_lines: usize = 0;
    let mut num_words: usize = 0;
    let mut num_chars: usize = 0;
    let ghost mut seen: Seq<Seq<char>> = Seq::empty();
    let mut start: usize = 0;
    assert(content@.skip(0) == content@);
    assert(seen + decoded_prefix(chunks(content@)) == decoded_prefix(chunks(content@)));
    while start < content.len()
        invariant
            start <= content.len(),
            text_lines(content@) == seen + decoded_prefix(chunks(content@.skip(start as int))),
            is_text(content@) == all_valid(chunks(content@.skip(start as int))),
            num_lines == seen.len(),
            num_words == total_words(seen),
            num_chars == total_chars(seen),
            num_lines <= start,
            num_words <= num_chars <= start,
        decreases content.len() - start,
    {
        let end = chunk_end(content, start);
        let piece = copy_bytes(content, start, end);
        let ghost rest = chunks(content@.skip(start as int));
        let ghost next = chunks(content@.skip(end as int));
        assert(rest[0] == piece@);
        assert(rest.drop_first() == next);
        match decode_strict(piece.as_slice()) {
            None => {
                return None;
            },
            Some(line) => {
                let chars = chars_of(line);
                proof {
                    decode_utf8_encode_utf8(piece@);
                    lemma_chars_at_most_bytes(chars@);
                    let before = seen;
                    seen = seen.push(chars@);
                    assert(seen.drop_last() == before);
                    assert(before + (seq![chars@] + decoded_prefix(next)) == seen + decoded_prefix(
                        next,
                    ));
                    assert(all_valid(rest) == all_valid(next)) by {
                        if all_valid(next) {
                            assert forall|i: int| 0 <= i < rest.len() implies vstd::utf8::valid_utf8(
                                #[trigger] rest[i],
                            ) by {
                                if i > 0 {
                                    assert(rest[i] == next[i - 1]);
                                }
                            }
                        }
                        if all_valid(rest) {
                            assert forall|i: int| 0 <= i < next.len() implies vstd::utf8::valid_utf8(
                                #[trigger] next[i],
                            ) by {
                                assert(next[i] == rest[i + 1]);
                            }
                        }
                    }
                }
                let words = count_words(&chars);
                num_lines += 1;
                num_words += words;
                num_chars += chars.len();
            },
        }
        start = end;
    }
    proof {
        assert(chunks(content@.skip(start as int)) == Seq::<Seq<u8>>::empty());
        assert(seen + Seq::<Seq<char>>::empty() == seen);
    }
    Some(FileData { num_lines, num_words, num_bytes: content.len(), num_chars })
}

/// The counts that are shown: those asked for, and lines, words and bytes
/// where none is asked for.
pub open spec fn adjusted(lines: bool, words: bool, bytes: bool, chars: bool) -> (
    bool,
    bool,
    bool,
    bool,
) {
    if !lines && !words && !bytes && !chars {
        (true, true, true, false)
    } else {
        (lines, words, bytes, chars)
    }
}

/// Where no count is asked for, asks for lines, words and bytes.
pub fn adjust_flags(lines: &mut bool, words: &mut bool, bytes: &mut bool, chars: bool)
    ensures
        (*final(lines), *final(words), *final(bytes), chars) == adjusted(
            *old(lines),
            *old(words),
            *old(bytes),
            chars,
        ),
{
    if !*lines && !*words && !*bytes && !chars {
        *lines = true;
        *words = true;
        *bytes = true;
    }
}

/// A count as it is shown: in a field of eight where `flag` is set, not at
/// all where it is not.
pub open spec fn field(value: nat, flag: bool) -> Seq<char> {
    if flag {
        right_justified(decimal(value), 8)
    } else {
        Seq::empty()
    }
}

/// The text for one count.
pub fn format_field(value: usize, flag: bool) -> (r: String)
    ensures
        r@ == field(value as nat, flag),
{
    if flag {
        let digits = decimal_chars(value as u64);
        string_of(&justify_right(&digits, 8))
    } else {
        String::new()
    }
}

/// A file's name as it follows the counts: after one space; nothing for the
/// standard input, which is named `-`.
pub open spec fn name_text(filename: Seq<char>) -> Seq<char> {
    if filename == seq!['-'] {
        Seq::empty()
    } else {
        seq![' '] + filename
    }
}

/// The text for a file's name.
pub fn format_filename(filename: &str) -> (r: String)
    ensures
        r@ == name_text(filename@),
{
    let chars = chars_of(filename);
    if chars.len() == 1 && chars[0] == '-' {
        assert(chars@ == seq!['-']);
        String::new()
    } else {
        let mut out: Vec<char> = Vec::new();
        out.push(' ');
        push_chars(&mut out, &chars);
        string_of(&out)
    }
}

/// The four counts as they are shown, then `name`.
pub open spec fn report(
    data: (nat, nat, nat, nat),
    flags: (bool, bool, bool, bool),
    name: Seq<char>,
) -> Seq<char> {
    field(data.0, flags.0) + field(data.1, flags.1) + field(data.2, flags.2) + field(
        data.3,
        flags.3,
    ) + name
}

fn report_line(data: &FileData, lines: bool, words: bool, bytes: bool, chars: bool, name: &str) -> (r:
    String)
    ensures
        r@ == report(data.view(), (lines, words, bytes, chars), name@),
{
    let mut out: Vec<char> = Vec::new();
    push_str(&mut out, format_field(data.num_lines, lines).as_str());
    push_str(&mut out, format_field(data.num_words, words).as_str());
    push_str(&mut out, format_field(data.num_bytes, bytes).as_str());
    push_str(&mut out, format_field(data.num_chars, chars).as_str());
    push_str(&mut out, name);
    string_of(&out)
}

/// The line with the counts of all files together.
pub fn display_totals(
    lines: bool,
    words: bool,
    bytes: bool,
    chars: bool,
    total_lines: usize,
    total_words: usize,
    total_bytes: usize,
    total_chars: usize,
) -> (r: String)
    ensures
        r@ == report(
            (total_lines as nat, total_words as nat, total_bytes as nat, total_chars as nat),
            (lines, words, bytes, chars),
            " total"@,
        ),
{
    let data = FileData {
        num_lines: total_lines,
        num_words: total_words,
        num_bytes: total_bytes,
        num_chars: total_chars,
    };
    report_line(&data, lines, words, bytes, chars, " total")
}

/// The counts of a file that was named: none for a file that could not be
/// opened or is not text.
pub open spec fn source_data(source: Source) -> Option<(nat, nat, nat, nat)> {
    match source.content {
        None => None,
        Some(content) => file_data(content@),
    }
}

/// The counts of all `files` together.
pub open spec fn totals(files: Seq<Source>) -> (nat, nat, nat, nat)
    decreases files.len(),
{
    if files.len() == 0 {
        (0, 0, 0, 0)
    } else {
        let front = totals(files.drop_last());
        match source_data(files.last()) {
            None => front,
            Some(data) => (
                front.0 + data.0,
                front.1 + data.1,
                front.2 + data.2,
                front.3 + data.3,
            ),
        }
    }
}

/// The lines written for the files one by one: for each file that has counts
/// its counts and its name.
pub open spec fn file_lines(files: Seq<Source>, flags: (bool, bool, bool, bool)) -> Seq<Seq<char>>
    decreases files.len(),
{
    if files.len() == 0 {
        Seq::empty()
    } else {
        file_lines(files.drop_last(), flags) + match source_data(files.last()) {
            None => Seq::empty(),
            Some(data) => seq![report(data, flags, name_text(files.last().name@))],
        }
    }
}

/// The lines written for `files`: one for each file that has counts, and a
/// last with the totals where more than one file was named.
pub open spec fn wc_output(files: Seq<Source>, lines: bool, words: bool, bytes: bool, chars: bool) -> Seq<
    Seq<char>,
> {
    let flags = adjusted(lines, words, bytes, chars);
    file_lines(files, flags) + if files.len() > 1 {
        seq![report(totals(files), flags, " total"@)]
    } else {
        Seq::empty()
    }
}

proof fn lemma_totals_bound(files: Seq<Source>)
    ensures
        totals(files).2 <= sources_size(files),
    decreases files.len(),
{
    if files.len() > 0 {
        lemma_totals_bound(files.drop_last());
    }
}

/// Counts each of `files` and writes the counts asked for, one line for each
/// file and one for the totals where more than one file was named. The lines
/// come without their line feeds.
pub fn wc(files: &Vec<Source>, lines: bool, words: bool, bytes: bool, chars: bool) -> (r: Vec<
    String,
>)
    requires
        sources_size(files@) <= usize::MAX,
    ensures
        crate::lines::texts(r@) == wc_output(files@, lines, words, bytes, chars),
{
    let mut lines = lines;
    let mut words = words;
    let mut bytes = bytes;
    let ghost asked = (lines, words, bytes, chars);
    adjust_flags(&mut lines, &mut words, &mut bytes, chars);
    let ghost flags = (lines, words, bytes, chars);
    let mut out: Vec<String> = Vec::new();
    let mut total = FileData { num_lines: 0, num_words: 0, num_bytes: 0, num_chars: 0 };
    let mut i: usize = 0;
    while i < files.len()
        invariant
            i <= files.len(),
            flags == (lines, words, bytes, chars),
            sources_size(files@) <= usize::MAX,
            total.view() == totals(files@.take(i as int)),
            total.num_lines <= total.num_bytes,
            total.num_words <= total.num_bytes,
            total.num_chars <= total.num_bytes,
            crate::lines::texts(out@) == file_lines(files@.take(i as int), flags),
        decreases files.len() - i,
    {
        proof {
            let now = files@.take(i + 1);
            assert(now.drop_last() == files@.take(i as int));
            assert(now.last() == files@[i as int]);
            lemma_sources_size_prefix(files@, i + 1);
            lemma_totals_bound(files@.take(i + 1));
        }
        let mut counted: Option<FileData> = None;
        if let Some(content) = &files[i].content {
            counted = count(content.as_slice());
        }
        match counted {
            Some(data) => {
                let name = format_filename(files[i].name.as_str());
                let line = report_line(&data, lines, words, bytes, chars, name.as_str());
                let ghost before = out@;
                out.push(line);
                assert(crate::lines::texts(out@) == crate::lines::texts(before).push(line@));
                total = FileData {
                    num_lines: total.num_lines + data.num_lines,
                    num_words: total.num_words + data.num_words,
                    num_bytes: total.num_bytes + data.num_bytes,
                    num_chars: total.num_chars + data.num_chars,
                };
            },
            None => {
                assert(crate::lines::texts(out@) + Seq::<Seq<char>>::empty() == crate::lines::texts(
                    out@,
                ));
            },
        }
        i += 1;
    }
    assert(files@.take(i as int) == files@);
    if files.len() > 1 {
        let line = display_totals(
            lines,
            words,
            bytes,
            chars,
            total.num_lines,
            total.num_words,
            total.num_bytes,
            total.num_chars,
        );
        let ghost before = out@;
        out.push(line);
        assert(crate::lines::texts(out@) == crate::lines::texts(before).push(line@));
    } else {
        assert(crate::lines::texts(out@) + Seq::<Seq<char>>::empty() == crate::lines::texts(out@));
    }
    out
}

} // verus!
