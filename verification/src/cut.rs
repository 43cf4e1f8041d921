//! Selecting parts of each line: a list of positions such as `1,3-5` is
//! parsed into half-open ranges, and the ranges pick fields, bytes or
//! characters out of every line.

use crate::lines::{
    byte_seqs, chunks, decode_lossy, first_index, lemma_first_index, split_lines,
    terminator_start, texts, utf8_lossy, without_terminator_bytes, Source,
};
use crate::text::{
    all_digits, chars_of, digits_value, numeral_value, parse_numeral, push_str, slice_chars,
    string_of,
};
use std::ops::Range;
use vstd::prelude::*;
use vstd::string::StringSliceAdditionalSpecFns;
use vstd::utf8::encode_utf8;

verus! {

/// Half-open ranges of zero-based positions, in the order in which they were
/// asked for. Ranges may overlap and repeat.
pub type PositionList = Vec<Range<usize>>;

/// The three ways to say what is selected, as they are given on a command
/// line. One of them is to be set.
#[derive(Debug, Clone)]
pub struct ArgsExtract {
    /// Selected fields.
    pub fields: Option<String>,
    /// Selected bytes.
    pub bytes: Option<String>,
    /// Selected characters.
    pub chars: Option<String>,
}

/// What is selected from each line, and in which unit.
#[derive(Debug)]
pub enum Extract {
    /// Fields of a delimited record.
    Fields(PositionList),
    /// Bytes of a line.
    Bytes(PositionList),
    /// Characters of a line.
    Chars(PositionList),
}

/// Why a selection could not be made.
#[derive(Debug, Clone, PartialEq, Eq)]
pub enum CutError {
    /// The delimiter is not exactly one byte long.
    InvalidDelimiter,
    /// A position that is not a positive number; it holds the text as given.
    InvalidExtractValue(String),
    /// A range whose first position lies after its last.
    DecreasingRange,
    /// A list of positions without any position.
    EmptyOrInvalidSpec,
    /// A delimited record that could not be read or written; it holds the
    /// reason.
    MalformedRecord(String),
}

/// A [`CutError`] as a mathematical value.
pub enum CutFault {
    InvalidDelimiter,
    InvalidExtractValue(Seq<char>),
    DecreasingRange,
    EmptyOrInvalidSpec,
    MalformedRecord(Seq<char>),
}

impl View for CutError {
    type V = CutFault;

    open spec fn view(&self) -> CutFault {
        match self {
            CutError::InvalidDelimiter => CutFault::InvalidDelimiter,
            CutError::InvalidExtractValue(s) => CutFault::InvalidExtractValue(s@),
            CutError::DecreasingRange => CutFault::DecreasingRange,
            CutError::EmptyOrInvalidSpec => CutFault::EmptyOrInvalidSpec,
            CutError::MalformedRecord(s) => CutFault::MalformedRecord(s@),
        }
    }
}

impl CutFault {
    /// The fault in words.
    pub open spec fn message(self) -> Seq<char> {
        match self {
            CutFault::InvalidDelimiter => "cut: delimiter must be a single byte"@,
            CutFault::InvalidExtractValue(value) => "cut: invalid extract value: `"@ + value + "`"@,
            CutFault::DecreasingRange => "cut: invalid decreasing range"@,
            CutFault::EmptyOrInvalidSpec => "cut: empty list of positions"@,
            CutFault::MalformedRecord(reason) => reason,
        }
    }
}

impl CutError {
    /// The error in words, as it is reported.
    pub fn message(&self) -> (r: String)
        ensures
            r@ == self@.message(),
    {
        let mut out: Vec<char> = Vec::new();
        match self {
            CutError::InvalidDelimiter => {
                push_str(&mut out, "cut: delimiter must be a single byte");
            },
            CutError::InvalidExtractValue(value) => {
                push_str(&mut out, "cut: invalid extract value: `");
                push_str(&mut out, value.as_str());
                push_str(&mut out, "`");
            },
            CutError::DecreasingRange => {
                push_str(&mut out, "cut: invalid decreasing range");
            },
            CutError::EmptyOrInvalidSpec => {
                push_str(&mut out, "cut: empty list of positions");
            },
            CutError::MalformedRecord(reason) => {
                push_str(&mut out, reason.as_str());
            },
        }
        string_of(&out)
    }
}

/// The ranges of `list` as pairs of a first position and the position after
/// the last.
pub open spec fn spans(list: Seq<Range<usize>>) -> Seq<(int, int)> {
    list.map_values(|r: Range<usize>| (r.start as int, r.end as int))
}

/// The delimiter byte that `delimiter` names: its only byte.
pub fn parse_delimiter(delimiter: &str) -> (r: Result<u8, CutError>)
    ensures
        r is Ok <==> delimiter.spec_bytes().len() == 1,
        r matches Ok(b) ==> b == delimiter.spec_bytes()[0],
        r matches Err(e) ==> e@ == CutFault::InvalidDelimiter,
{
    let bytes = delimiter.as_bytes();
    if bytes.len() != 1 {
        return Err(CutError::InvalidDelimiter);
    }
    Ok(bytes[0])
}

/// The zero-based position that `token` names: `token` is a decimal numeral
/// of one or more ASCII digits, from 1 to `usize::MAX`, and the position is
/// one less.
pub open spec fn index_of(token: Seq<char>) -> Option<int> {
    match numeral_value(token, usize::MAX as nat) {
        Some(n) => if n >= 1 {
            Some(n - 1)
        } else {
            None
        },
        None => None,
    }
}

/// Reads one position. A sign, a zero, anything that is not a number or a
/// number beyond `usize::MAX` is refused, with the text as it was given.
pub fn parse_index(input: &str) -> (r: Result<usize, CutError>)
    ensures
        r is Ok <==> index_of(input@) is Some,
        r matches Ok(n) ==> index_of(input@) == Some(n as int),
        r matches Err(e) ==> e@ == CutFault::InvalidExtractValue(input@),
{
    let chars = chars_of(input);
    index_in(&chars)
}

fn index_in(token: &Vec<char>) -> (r: Result<usize, CutError>)
    ensures
        r is Ok <==> index_of(token@) is Some,
        r matches Ok(n) ==> index_of(token@) == Some(n as int),
        r matches Err(e) ==> e@ == CutFault::InvalidExtractValue(token@),
{
    match parse_numeral(token, usize::MAX as u64) {
        Some(n) => {
            if n >= 1 {
                Ok((n - 1) as usize)
            } else {
                Err(CutError::InvalidExtractValue(string_of(token)))
            }
        },
        None => Err(CutError::InvalidExtractValue(string_of(token))),
    }
}

/// The range that one item of a list of positions names.
///
/// A single position `n` selects `[n-1, n)`. Otherwise the item is read as
/// `first-last`, two runs of digits around the first hyphen, and selects
/// `[first-1, last)`. An item of neither form is refused as it stands; an
/// item of the second form is refused with the end that is no position, the
/// first end before the last, or as a decreasing range.
pub open spec fn token_range(token: Seq<char>) -> Result<(int, int), CutFault> {
    match index_of(token) {
        Some(n) => Ok((n, n + 1)),
        None => {
            let dash = first_index(token, '-') as int;
            let first = token.take(dash);
            let last = token.skip(dash + 1);
            if dash >= token.len() || !is_digits(first) || !is_digits(last) {
                Err(CutFault::InvalidExtractValue(token))
            } else {
                match index_of(first) {
                    None => Err(CutFault::InvalidExtractValue(first)),
                    Some(n1) => match index_of(last) {
                        None => Err(CutFault::InvalidExtractValue(last)),
                        Some(n2) => if n1 > n2 {
                            Err(CutFault::DecreasingRange)
                        } else {
                            Ok((n1, n2 + 1))
                        },
                    },
                }
            }
        },
    }
}

/// Whether `s` is one or more ASCII digits.
pub open spec fn is_digits(s: Seq<char>) -> bool {
    s.len() > 0 && crate::text::all_digits(s)
}

fn digits_only(s: &Vec<char>) -> (r: bool)
    ensures
        r == is_digits(s@),
{
    if s.len() == 0 {
        return false;
    }
    let mut i: usize = 0;
    while i < s.len()
        invariant
            i <= s.len(),
            forall|k: int| 0 <= k < i ==> crate::text::is_digit(#[trigger] s@[k]),
        decreases s.len() - i,
    {
        if s[i] < '0' || s[i] > '9' {
            return false;
        }
        i += 1;
    }
    true
}

/// The position of the first `c` in `s` at or after `from`, or the length of
/// `s`.
fn find_char(s: &Vec<char>, from: usize, c: char) -> (i: usize)
    requires
        from <= s.len(),
    ensures
        from <= i <= s.len(),
        i == from + first_index(s@.skip(from as int), c),
{
    let ghost rest = s@.skip(from as int);
    let mut i: usize = from;
    while i < s.len() && s[i] != c
        invariant
            from <= i <= s.len(),
            rest == s@.skip(from as int),
            forall|k: int| 0 <= k < i - from ==> rest[k] != c,
        decreases s.len() - i,
    {
        i += 1;
    }
    proof {
        lemma_first_index(rest, c, i - from);
    }
    i
}

fn range_in(token: &Vec<char>) -> (r: Result<Range<usize>, CutError>)
    ensures
        r is Ok <==> token_range(token@) is Ok,
        r matches Ok(range) ==> token_range(token@) == Ok::<(int, int), CutFault>(
            (range.start as int, range.end as int),
        ),
        r matches Err(e) ==> token_range(token@) == Err::<(int, int), CutFault>(e@),
{
    match index_in(token) {
        Ok(n) => Ok(n..n + 1),
        Err(e) => {
            assert(token@.skip(0) == token@);
            let dash = find_char(token, 0, '-');
            if dash >= token.len() {
                return Err(e);
            }
            let first = slice_chars(token, 0, dash);
            let last = slice_chars(token, dash + 1, token.len());
            assert(first@ == token@.take(dash as int));
            assert(last@ == token@.skip(dash + 1));
            if !digits_only(&first) || !digits_only(&last) {
                return Err(e);
            }
            let n1 = index_in(&first)?;
            let n2 = index_in(&last)?;
            if n1 > n2 {
                return Err(CutError::DecreasingRange);
            }
            Ok(n1..n2 + 1)
        },
    }
}

/// The pieces of `s` between the occurrences of `sep`: one piece more than
/// there are separators, so the empty text is one empty piece.
pub open spec fn split_on(s: Seq<char>, sep: char) -> Seq<Seq<char>>
    decreases s.len(),
{
    let i = first_index(s, sep) as int;
    if i >= s.len() {
        seq![s]
    } else {
        seq![s.take(i)] + split_on(s.skip(i + 1), sep)
    }
}

/// The ranges that the items name, in order, or the fault of the first item
/// that names none.
pub open spec fn ranges_of(tokens: Seq<Seq<char>>) -> Result<Seq<(int, int)>, CutFault>
    decreases tokens.len(),
{
    if tokens.len() == 0 {
        Ok(Seq::empty())
    } else {
        match token_range(tokens[0]) {
            Err(e) => Err(e),
            Ok(r) => after(seq![r], ranges_of(tokens.drop_first())),
        }
    }
}

/// `rest` with the ranges `done` before it; the fault of `rest` where it is
/// one.
pub open spec fn after(done: Seq<(int, int)>, rest: Result<Seq<(int, int)>, CutFault>) -> Result<
    Seq<(int, int)>,
    CutFault,
> {
    match rest {
        Ok(more) => Ok(done + more),
        Err(e) => Err(e),
    }
}

/// The ranges that a list of positions names: the list is cut at its commas
/// and every item names one range. The empty list is refused.
pub open spec fn positions(list: Seq<char>) -> Result<Seq<(int, int)>, CutFault> {
    if list.len() == 0 {
        Err(CutFault::EmptyOrInvalidSpec)
    } else {
        ranges_of(split_on(list, ','))
    }
}

/// Whether every range holds at least one position.
pub open spec fn well_formed(list: Seq<(int, int)>) -> bool {
    forall|i: int| 0 <= i < list.len() ==> 0 <= (#[trigger] list[i]).0 < list[i].1
}

/// Every range that an item names holds at least one position.
proof fn lemma_token_range_well_formed(token: Seq<char>)
    ensures
        token_range(token) matches Ok(r) ==> 0 <= r.0 < r.1,
{
}

/// Parses a list of positions such as `1,3-5` into half-open ranges of
/// zero-based positions, in the order given.
pub fn parse_positions(range: String) -> (r: Result<PositionList, CutError>)
    ensures
        r is Ok <==> positions(range@) is Ok,
        r matches Ok(list) ==> positions(range@) == Ok::<Seq<(int, int)>, CutFault>(
            spans(list@),
        ) && well_formed(spans(list@)),
        r matches Err(e) ==> positions(range@) == Err::<Seq<(int, int)>, CutFault>(e@),
{
    positions_in(range.as_str())
}

fn positions_in(range: &str) -> (r: Result<PositionList, CutError>)
    ensures
        r is Ok <==> positions(range@) is Ok,
        r matches Ok(list) ==> positions(range@) == Ok::<Seq<(int, int)>, CutFault>(
            spans(list@),
        ) && well_formed(spans(list@)),
        r matches Err(e) ==> positions(range@) == Err::<Seq<(int, int)>, CutFault>(e@),
{
    let chars = chars_of(range);
    if chars.len() == 0 {
        return Err(CutError::EmptyOrInvalidSpec);
    }
    let mut list: PositionList = Vec::new();
    let mut start: usize = 0;
    assert(chars@.skip(0) == chars@);
    assert(after(spans(list@), ranges_of(split_on(chars@, ','))) == ranges_of(
        split_on(chars@, ','),
    )) by {
        let rest = ranges_of(split_on(chars@, ','));
        if rest is Ok {
            assert(Seq::<(int, int)>::empty() + rest->Ok_0 == rest->Ok_0);
        }
    }
    loop
        invariant
            start <= chars.len(),
            range@ == chars@,
            chars.len() > 0,
            positions(range@) == after(
                spans(list@),
                ranges_of(split_on(chars@.skip(start as int), ',')),
            ),
            well_formed(spans(list@)),
        decreases chars.len() - start,
    {
        let end = find_char(&chars, start, ',');
        let token = slice_chars(&chars, start, end);
        let ghost rest = chars@.skip(start as int);
        let ghost tokens = split_on(rest, ',');
        proof {
            assert(token@ == rest.take(end - start));
            assert(tokens[0] == token@);
            lemma_token_range_well_formed(token@);
            if end < chars.len() {
                assert(rest.skip(end - start + 1) == chars@.skip(end + 1));
                assert(tokens.drop_first() == split_on(chars@.skip(end + 1), ','));
            } else {
                assert(tokens.drop_first() == Seq::<Seq<char>>::empty());
            }
        }
        match range_in(&token) {
            Err(e) => {
                return Err(e);
            },
            Ok(r) => {
                let ghost before = spans(list@);
                list.push(r);
                let ghost pair = (r.start as int, r.end as int);
                assert(spans(list@) == before.push(pair));
                proof {
                    let more = ranges_of(tokens.drop_first());
                    if more is Ok {
                        assert(before + (seq![pair] + more->Ok_0) == before.push(pair)
                            + more->Ok_0);
                    }
                }
                if end >= chars.len() {
                    assert(spans(list@) + Seq::<(int, int)>::empty() == spans(list@));
                    return Ok(list);
                }
                start = end + 1;
            },
        }
    }
}

/// What is selected from each line, as a mathematical value.
pub enum Selection {
    /// Fields of a delimited record.
    Fields(Seq<(int, int)>),
    /// Bytes of a line.
    Bytes(Seq<(int, int)>),
    /// Characters of a line.
    Chars(Seq<(int, int)>),
}

impl Selection {
    /// The ranges of the selection.
    pub open spec fn ranges(self) -> Seq<(int, int)> {
        match self {
            Selection::Fields(list) => list,
            Selection::Bytes(list) => list,
            Selection::Chars(list) => list,
        }
    }
}

impl View for Extract {
    type V = Selection;

    open spec fn view(&self) -> Selection {
        match self {
            Extract::Fields(list) => Selection::Fields(spans(list@)),
            Extract::Bytes(list) => Selection::Bytes(spans(list@)),
            Extract::Chars(list) => Selection::Chars(spans(list@)),
        }
    }
}

/// The selection that the arguments name: the fields where they are set, else
/// the bytes, else the characters. Arguments that set none of the three name
/// no selection.
pub open spec fn extract_of(args: ArgsExtract) -> Result<Selection, CutFault> {
    if args.fields is Some {
        match positions(args.fields->0@) {
            Ok(list) => Ok(Selection::Fields(list)),
            Err(e) => Err(e),
        }
    } else if args.bytes is Some {
        match positions(args.bytes->0@) {
            Ok(list) => Ok(Selection::Bytes(list)),
            Err(e) => Err(e),
        }
    } else if args.chars is Some {
        match positions(args.chars->0@) {
            Ok(list) => Ok(Selection::Chars(list)),
            Err(e) => Err(e),
        }
    } else {
        Err(CutFault::EmptyOrInvalidSpec)
    }
}

/// Turns the arguments into the selection they name.
pub fn parse_extract(extract: ArgsExtract) -> (r: Result<Extract, CutError>)
    ensures
        r is Ok <==> extract_of(extract) is Ok,
        r matches Ok(x) ==> extract_of(extract) == Ok::<Selection, CutFault>(x@) && well_formed(
            x@.ranges(),
        ),
        r matches Err(e) ==> extract_of(extract) == Err::<Selection, CutFault>(e@),
{
    extract_in(&extract)
}

fn extract_in(extract: &ArgsExtract) -> (r: Result<Extract, CutError>)
    ensures
        r is Ok <==> extract_of(*extract) is Ok,
        r matches Ok(x) ==> extract_of(*extract) == Ok::<Selection, CutFault>(x@) && well_formed(
            x@.ranges(),
        ),
        r matches Err(e) ==> extract_of(*extract) == Err::<Selection, CutFault>(e@),
{
    if let Some(fields) = &extract.fields {
        Ok(Extract::Fields(positions_in(fields.as_str())?))
    } else if let Some(bytes) = &extract.bytes {
        Ok(Extract::Bytes(positions_in(bytes.as_str())?))
    } else if let Some(chars) = &extract.chars {
        Ok(Extract::Chars(positions_in(chars.as_str())?))
    } else {
        Err(CutError::EmptyOrInvalidSpec)
    }
}

/// The items at the positions `from` up to, not including, `to`, as far as
/// `items` has them.
pub open spec fn pick<T>(items: Seq<T>, from: int, to: int) -> Seq<T> {
    let end = if to < items.len() {
        to
    } else {
        items.len() as int
    };
    if 0 <= from < end {
        items.subrange(from, end)
    } else {
        Seq::empty()
    }
}

/// What the ranges select from `items`: what each range picks, range after
/// range. An item that several ranges hold is selected as often.
pub open spec fn select<T>(items: Seq<T>, ranges: Seq<(int, int)>) -> Seq<T>
    decreases ranges.len(),
{
    if ranges.len() == 0 {
        Seq::empty()
    } else {
        select(items, ranges.drop_last()) + pick(items, ranges.last().0, ranges.last().1)
    }
}

fn select_copies<T: Copy>(items: &[T], positions: &[Range<usize>]) -> (r: Vec<T>)
    ensures
        r@ == select(items@, spans(positions@)),
{
    let mut out: Vec<T> = Vec::new();
    let mut j: usize = 0;
    while j < positions.len()
        invariant
            j <= positions.len(),
            out@ == select(items@, spans(positions@).take(j as int)),
        decreases positions.len() - j,
    {
        let from: usize = positions[j].start;
        let to: usize = if positions[j].end < items.len() {
            positions[j].end
        } else {
            items.len()
        };
        let ghost done = out@;
        let mut i: usize = from;
        while i < to
            invariant
                from <= i,
                to <= items.len(),
                i <= to || from >= to,
                out@ == done + (if from < to {
                    items@.subrange(from as int, i as int)
                } else {
                    Seq::empty()
                }),
            decreases to - i,
        {
            out.push(items[i]);
            i += 1;
        }
        proof {
            let all = spans(positions@);
            assert(all.take(j + 1).drop_last() == all.take(j as int));
            assert(all.take(j + 1).last() == (from as int, positions@[j as int].end as int));
        }
        j += 1;
    }
    assert(spans(positions@).take(j as int) == spans(positions@));
    out
}

/// The fields of `record` that the ranges select; positions beyond the last
/// field select nothing.
pub fn extract_fields(record: &Vec<String>, field_positions: &[Range<usize>]) -> (r: Vec<String>)
    ensures
        crate::lines::texts(r@) == select(crate::lines::texts(record@), spans(field_positions@)),
{
    let ghost fields = crate::lines::texts(record@);
    let mut out: Vec<String> = Vec::new();
    let mut j: usize = 0;
    while j < field_positions.len()
        invariant
            j <= field_positions.len(),
            fields == crate::lines::texts(record@),
            crate::lines::texts(out@) == select(fields, spans(field_positions@).take(j as int)),
        decreases field_positions.len() - j,
    {
        let from: usize = field_positions[j].start;
        let to: usize = if field_positions[j].end < record.len() {
            field_positions[j].end
        } else {
            record.len()
        };
        let ghost done = crate::lines::texts(out@);
        let mut i: usize = from;
        while i < to
            invariant
                from <= i,
                to <= record.len(),
                i <= to || from >= to,
                fields == crate::lines::texts(record@),
                crate::lines::texts(out@) == done + (if from < to {
                    fields.subrange(from as int, i as int)
                } else {
                    Seq::empty()
                }),
            decreases to - i,
        {
            let ghost before = out@;
            let field = record[i].clone();
            out.push(field);
            assert(crate::lines::texts(out@) == crate::lines::texts(before).push(field@));
            assert(fields.subrange(from as int, i + 1) == fields.subrange(
                from as int,
                i as int,
            ).push(field@));
            i += 1;
        }
        proof {
            let all = spans(field_positions@);
            assert(all.take(j + 1).drop_last() == all.take(j as int));
            assert(all.take(j + 1).last() == (
                from as int,
                field_positions@[j as int].end as int,
            ));
        }
        j += 1;
    }
    assert(spans(field_positions@).take(j as int) == spans(field_positions@));
    out
}

/// The characters of `line` that the ranges select; positions beyond the last
/// character select nothing.
pub fn extract_chars(line: &str, char_positions: &[Range<usize>]) -> (r: String)
    ensures
        r@ == select(line@, spans(char_positions@)),
{
    let chars = chars_of(line);
    let selected = select_copies(chars.as_slice(), char_positions);
    string_of(&selected)
}

/// The bytes of `line` that the ranges select, read as text: whatever of the
/// selection is not well-formed UTF-8 is replaced. Positions beyond the last
/// byte select nothing.
pub fn extract_bytes(line: &str, byte_positions: &[Range<usize>]) -> (r: String)
    ensures
        r@ == utf8_lossy(select(line.spec_bytes(), spans(byte_positions@))),
{
    let selected = select_copies(line.as_bytes(), byte_positions);
    decode_lossy(selected.as_slice())
}

/// The records that the `csv` crate reads from `data`, with fields parted by
/// `delimiter` and no header row: each either its fields or, where it could
/// not be read, the reason in words.
pub uninterp spec fn csv_records(data: Seq<u8>, delimiter: u8) -> Seq<
    Result<Seq<Seq<char>>, Seq<char>>,
>;

/// The bytes that the `csv` crate writes for `records`, with fields parted by
/// `delimiter`, or the reason in words why it refused them.
pub uninterp spec fn csv_text(records: Seq<Seq<Seq<char>>>, delimiter: u8) -> Result<
    Seq<u8>,
    Seq<char>,
>;

/// A record as it was read: its fields, or the reason why it has none.
pub open spec fn record_view(r: Result<Vec<String>, String>) -> Result<
    Seq<Seq<char>>,
    Seq<char>,
> {
    match r {
        Ok(fields) => Ok(texts(fields@)),
        Err(reason) => Err(reason@),
    }
}

/// The fields of each record.
pub open spec fn records_view(records: Seq<Vec<String>>) -> Seq<Seq<Seq<char>>> {
    records.map_values(|fields: Vec<String>| texts(fields@))
}

/// `csv::Reader::records`, on a reader that `csv::ReaderBuilder` makes over
/// `data` with the given delimiter and without a header row: all the records
/// of `data` in order, each with its fields as strings, or with the message of
/// the error that the reader gave in its place.
#[verifier::external_body]
fn read_records(data: &[u8], delimiter: u8) -> (r: Vec<Result<Vec<String>, String>>)
    ensures
        r@.map_values(|x: Result<Vec<String>, String>| record_view(x)) == csv_records(
            data@,
            delimiter,
        ),
{
    csv::ReaderBuilder::new()
        .delimiter(delimiter)
        .has_headers(false)
        .from_reader(data)
        .records()
        .map(|record| match record {
            Ok(fields) => Ok(fields.iter().map(String::from).collect()),
            Err(e) => Err(e.to_string()),
        })
        .collect()
}

/// `csv::Writer::write_record`, called for each of `records` in turn on a
/// writer that `csv::WriterBuilder` makes with the given delimiter: the bytes
/// written in all, or the message of the first error.
#[verifier::external_body]
fn write_records(records: &Vec<Vec<String>>, delimiter: u8) -> (r: Result<Vec<u8>, String>)
    ensures
        match r {
            Ok(bytes) => csv_text(records_view(records@), delimiter) == Ok::<Seq<u8>, Seq<char>>(
                bytes@,
            ),
            Err(reason) => csv_text(records_view(records@), delimiter) == Err::<
                Seq<u8>,
                Seq<char>,
            >(reason@),
        },
{
    let mut writer = csv::WriterBuilder::new().delimiter(delimiter).from_writer(Vec::new());
    for record in records {
        if let Err(e) = writer.write_record(record) {
            return Err(e.to_string());
        }
    }
    writer.into_inner().map_err(|e| e.to_string())
}

/// The fields of the records before the first that could not be read.
pub open spec fn good_records(records: Seq<Result<Seq<Seq<char>>, Seq<char>>>) -> Seq<
    Seq<Seq<char>>,
>
    decreases records.len(),
{
    if records.len() == 0 || records[0] is Err {
        Seq::empty()
    } else {
        seq![records[0]->Ok_0] + good_records(records.drop_first())
    }
}

/// The reason why the first unreadable record could not be read.
pub open spec fn first_fault(records: Seq<Result<Seq<Seq<char>>, Seq<char>>>) -> Option<
    Seq<char>,
>
    decreases records.len(),
{
    if records.len() == 0 {
        None
    } else if records[0] is Err {
        Some(records[0]->Err_0)
    } else {
        first_fault(records.drop_first())
    }
}

/// The bytes that printing each of `lines` with a line feed after it writes.
pub open spec fn printed(lines: Seq<Seq<char>>) -> Seq<u8>
    decreases lines.len(),
{
    if lines.len() == 0 {
        Seq::empty()
    } else {
        printed(lines.drop_last()) + encode_utf8(lines.last()) + seq![10u8]
    }
}

/// What is written for one line of a file when bytes are selected.
pub open spec fn bytes_line(piece: Seq<u8>, ranges: Seq<(int, int)>) -> Seq<char> {
    utf8_lossy(select(without_terminator_bytes(piece), ranges))
}

/// What is written for one line of a file when characters are selected.
pub open spec fn chars_line(piece: Seq<u8>, ranges: Seq<(int, int)>) -> Seq<char> {
    select(utf8_lossy(without_terminator_bytes(piece)), ranges)
}

/// What is written for a file when fields are selected, and the fault that
/// ended the work on it. Records are read up to the first that cannot be
/// read; the selected fields of those before it are written.
pub open spec fn fields_output(
    content: Seq<u8>,
    delimiter: u8,
    output_delimiter: u8,
    ranges: Seq<(int, int)>,
) -> (Seq<u8>, Option<CutFault>) {
    let records = csv_records(content, delimiter);
    let picked = good_records(records).map_values(|fields: Seq<Seq<char>>| select(fields, ranges));
    match csv_text(picked, output_delimiter) {
        Err(reason) => (Seq::empty(), Some(CutFault::MalformedRecord(reason))),
        Ok(bytes) => (
            bytes,
            match first_fault(records) {
                Some(reason) => Some(CutFault::MalformedRecord(reason)),
                None => None,
            },
        ),
    }
}

/// What is written for a file with the given contents, and the fault that
/// ended the work on it, if any.
pub open spec fn file_output(
    content: Seq<u8>,
    delimiter: u8,
    output_delimiter: u8,
    extract: Selection,
) -> (Seq<u8>, Option<CutFault>) {
    match extract {
        Selection::Fields(ranges) => fields_output(content, delimiter, output_delimiter, ranges),
        Selection::Bytes(ranges) => (
            printed(chunks(content).map_values(|piece: Seq<u8>| bytes_line(piece, ranges))),
            None,
        ),
        Selection::Chars(ranges) => (
            printed(chunks(content).map_values(|piece: Seq<u8>| chars_line(piece, ranges))),
            None,
        ),
    }
}

/// What the work on one file gave.
#[derive(Debug)]
pub struct CutOutput {
    /// The bytes to write.
    pub bytes: Vec<u8>,
    /// The fault that ended the work on the file before its end.
    pub error: Option<CutError>,
}

impl CutOutput {
    /// The output as a mathematical value.
    pub open spec fn parts(&self) -> (Seq<u8>, Option<CutFault>) {
        (
            self.bytes@,
            match self.error {
                Some(e) => Some(e@),
                None => None,
            },
        )
    }
}

fn push_line(out: &mut Vec<u8>, line: &str)
    ensures
        final(out)@ == old(out)@ + encode_utf8(line@) + seq![10u8],
{
    let bytes = line.as_bytes();
    let mut i: usize = 0;
    while i < bytes.len()
        invariant
            i <= bytes.len(),
            bytes@ == encode_utf8(line@),
            out@ == old(out)@ + bytes@.take(i as int),
        decreases bytes.len() - i,
    {
        out.push(bytes[i]);
        i += 1;
    }
    assert(bytes@.take(bytes.len() as int) == bytes@);
    out.push(10u8);
}

fn select_fields(
    content: &[u8],
    delimiter: u8,
    output_delimiter: u8,
    positions: &[Range<usize>],
) -> (r: CutOutput)
    ensures
        r.parts() == fields_output(content@, delimiter, output_delimiter, spans(positions@)),
{
    let records = read_records(content, delimiter);
    let ghost all = csv_records(content@, delimiter);
    let ghost ranges = spans(positions@);
    let ghost pick = |fields: Seq<Seq<char>>| select(fields, ranges);
    let mut picked: Vec<Vec<String>> = Vec::new();
    let mut fault: Option<CutError> = None;
    let mut i: usize = 0;
    assert(all.skip(0) == all);
    assert(all.len() == records.len());
    while i < records.len() && fault.is_none()
        invariant
            i <= records.len(),
            all.len() == records.len(),
            all == records@.map_values(|x: Result<Vec<String>, String>| record_view(x)),
            ranges == spans(positions@),
            pick == |fields: Seq<Seq<char>>| select(fields, ranges),
            fault is None ==> good_records(all).map_values(pick) == records_view(picked@)
                + good_records(all.skip(i as int)).map_values(pick),
            fault is None ==> first_fault(all) == first_fault(all.skip(i as int)),
            fault is Some ==> good_records(all).map_values(pick) == records_view(picked@),
            fault is Some ==> first_fault(all) is Some,
            fault matches Some(e) ==> e@ == CutFault::MalformedRecord(first_fault(all)->0),
        decreases records.len() - i + (if fault is None { 1int } else { 0int }),
    {
        let ghost rest = all.skip(i as int);
        assert(rest[0] == record_view(records@[i as int]));
        assert(rest.drop_first() == all.skip(i + 1));
        match &records[i] {
            Err(reason) => {
                fault = Some(CutError::MalformedRecord(reason.clone()));
                assert(good_records(rest) == Seq::<Seq<Seq<char>>>::empty());
                assert(records_view(picked@) + Seq::<Seq<Seq<char>>>::empty().map_values(pick)
                    == records_view(picked@));
            },
            Ok(fields) => {
                let selected = extract_fields(fields, positions);
                let ghost before = picked@;
                picked.push(selected);
                assert(records_view(picked@) == records_view(before).push(texts(selected@)));
                let ghost more = good_records(all.skip(i + 1));
                assert((seq![rest[0]->Ok_0] + more).map_values(pick) == seq![
                    pick(rest[0]->Ok_0),
                ] + more.map_values(pick));
                assert(records_view(before).push(texts(selected@)) + more.map_values(pick)
                    == records_view(before) + (seq![texts(selected@)] + more.map_values(pick)));
                i += 1;
            },
        }
    }
    proof {
        if fault is None {
            assert(good_records(all.skip(i as int)) == Seq::<Seq<Seq<char>>>::empty());
            assert(records_view(picked@) + Seq::<Seq<Seq<char>>>::empty().map_values(pick)
                == records_view(picked@));
        }
    }
    match write_records(&picked, output_delimiter) {
        Ok(bytes) => CutOutput { bytes, error: fault },
        Err(reason) => CutOutput {
            bytes: Vec::new(),
            error: Some(CutError::MalformedRecord(reason)),
        },
    }
}

/// Selects from one file: from every record its fields, or from every line
/// its bytes or characters. Selecting bytes or characters never fails;
/// selecting fields ends at the first record that cannot be read.
pub fn handle_file(content: &[u8], delimiter: u8, output_delimiter: u8, extract: &Extract) -> (r:
    CutOutput)
    ensures
        r.parts() == file_output(content@, delimiter, output_delimiter, extract@),
{
    match extract {
        Extract::Fields(field_positions) => select_fields(
            content,
            delimiter,
            output_delimiter,
            field_positions.as_slice(),
        ),
        Extract::Bytes(byte_positions) => {
            let ghost ranges = spans(byte_positions@);
            let ghost f = |piece: Seq<u8>| bytes_line(piece, ranges);
            let pieces = split_lines(content);
            let mut out: Vec<u8> = Vec::new();
            let mut i: usize = 0;
            while i < pieces.len()
                invariant
                    i <= pieces.len(),
                    byte_seqs(pieces@) == chunks(content@),
                    ranges == spans(byte_positions@),
                    f == |piece: Seq<u8>| bytes_line(piece, ranges),
                    out@ == printed(chunks(content@).take(i as int).map_values(f)),
                decreases pieces.len() - i,
            {
                let piece = pieces[i].as_slice();
                let end = terminator_start(piece);
                let line = crate::lines::copy_bytes(piece, 0, end);
                let selected = select_copies(line.as_slice(), byte_positions.as_slice());
                let text = decode_lossy(selected.as_slice());
                push_line(&mut out, text.as_str());
                proof {
                    let all = chunks(content@);
                    assert(all[i as int] == piece@);
                    assert(line@ == without_terminator_bytes(piece@));
                    let now = all.take(i + 1).map_values(f);
                    assert(now.drop_last() == all.take(i as int).map_values(f));
                    assert(now.last() == text@);
                }
                i += 1;
            }
            assert(chunks(content@).take(i as int) == chunks(content@));
            CutOutput { bytes: out, error: None }
        },
        Extract::Chars(char_positions) => {
            let ghost ranges = spans(char_positions@);
            let ghost f = |piece: Seq<u8>| chars_line(piece, ranges);
            let pieces = split_lines(content);
            let mut out: Vec<u8> = Vec::new();
            let mut i: usize = 0;
            while i < pieces.len()
                invariant
                    i <= pieces.len(),
                    byte_seqs(pieces@) == chunks(content@),
                    ranges == spans(char_positions@),
                    f == |piece: Seq<u8>| chars_line(piece, ranges),
                    out@ == printed(chunks(content@).take(i as int).map_values(f)),
                decreases pieces.len() - i,
            {
                let piece = pieces[i].as_slice();
                let end = terminator_start(piece);
                let line = crate::lines::copy_bytes(piece, 0, end);
                let decoded = decode_lossy(line.as_slice());
                let text = extract_chars(decoded.as_str(), char_positions.as_slice());
                push_line(&mut out, text.as_str());
                proof {
                    let all = chunks(content@);
                    assert(all[i as int] == piece@);
                    assert(line@ == without_terminator_bytes(piece@));
                    let now = all.take(i + 1).map_values(f);
                    assert(now.drop_last() == all.take(i as int).map_values(f));
                    assert(now.last() == text@);
                }
                i += 1;
            }
            assert(chunks(content@).take(i as int) == chunks(content@));
            CutOutput { bytes: out, error: None }
        },
    }
}

/// The delimiter byte that `delimiter` names, if it names one.
pub open spec fn delimiter_of(delimiter: Seq<u8>) -> Result<u8, CutFault> {
    if delimiter.len() == 1 {
        Ok(delimiter[0])
    } else {
        Err(CutFault::InvalidDelimiter)
    }
}

/// What the arguments ask for: the delimiter of the input, the delimiter of
/// the output (that of the input where none is given) and the selection; or
/// the first fault among them, in that order.
pub open spec fn settings(
    delimiter: Seq<u8>,
    output_delimiter: Option<Seq<u8>>,
    extract: ArgsExtract,
) -> Result<(u8, u8, Selection), CutFault> {
    match delimiter_of(delimiter) {
        Err(e) => Err(e),
        Ok(input) => {
            let output = match output_delimiter {
                Some(text) => delimiter_of(text),
                None => Ok(input),
            };
            match output {
                Err(e) => Err(e),
                Ok(output) => match extract_of(extract) {
                    Err(e) => Err(e),
                    Ok(selection) => Ok((input, output, selection)),
                },
            }
        },
    }
}

/// The outputs as mathematical values.
pub open spec fn outputs_view(outputs: Seq<CutOutput>) -> Seq<(Seq<u8>, Option<CutFault>)> {
    outputs.map_values(|o: CutOutput| o.parts())
}

/// What is written for a file that was named: nothing for a file that could
/// not be opened.
pub open spec fn source_output(
    source: Source,
    delimiter: u8,
    output_delimiter: u8,
    extract: Selection,
) -> (Seq<u8>, Option<CutFault>) {
    match source.content {
        None => (Seq::empty(), None),
        Some(content) => file_output(content@, delimiter, output_delimiter, extract),
    }
}

/// Selects from each of `files` what the arguments ask for. Arguments that
/// ask for nothing valid are refused before any file is looked at. A file
/// that could not be opened is passed over, and a fault in one file ends the
/// work on that file only.
pub fn cut(
    files: &Vec<Source>,
    delimiter: &str,
    output_delimiter: Option<&str>,
    extract: &ArgsExtract,
) -> (r: Result<Vec<CutOutput>, CutError>)
    ensures
        match settings(
            delimiter.spec_bytes(),
            match output_delimiter {
                Some(text) => Some(text.spec_bytes()),
                None => None,
            },
            *extract,
        ) {
            Err(fault) => r matches Err(e) && e@ == fault,
            Ok((input, output, selection)) => r matches Ok(outputs) && outputs_view(outputs@)
                == files@.map_values(
                |source: Source| source_output(source, input, output, selection),
            ),
        },
{
    let delimiter_val = parse_delimiter(delimiter)?;
    let output_delimiter_val = match output_delimiter {
        Some(val) => parse_delimiter(val)?,
        None => delimiter_val,
    };
    let extract_val = extract_in(extract)?;
    let ghost selection = extract_val@;
    let ghost f = |source: Source|
        source_output(source, delimiter_val, output_delimiter_val, selection);
    let mut outputs: Vec<CutOutput> = Vec::new();
    let mut i: usize = 0;
    while i < files.len()
        invariant
            i <= files.len(),
            selection == extract_val@,
            f == |source: Source|
                source_output(source, delimiter_val, output_delimiter_val, selection),
            outputs_view(outputs@) == files@.take(i as int).map_values(f),
        decreases files.len() - i,
    {
        let output = match &files[i].content {
            None => CutOutput { bytes: Vec::new(), error: None },
            Some(content) => handle_file(
                content.as_slice(),
                delimiter_val,
                output_delimiter_val,
                &extract_val,
            ),
        };
        let ghost before = outputs@;
        let ghost parts = output.parts();
        outputs.push(output);
        proof {
            assert(outputs_view(outputs@) == outputs_view(before).push(parts));
            assert(files@.take(i + 1).map_values(f) == files@.take(i as int).map_values(f).push(
                parts,
            ));
        }
        i += 1;
    }
    assert(files@.take(i as int) == files@);
    Ok(outputs)
}

/// One item of a list of positions, as it is written: with the digits of
/// each position.
pub enum Position {
    /// The one position.
    Single(Seq<char>),
    /// The positions from the first to the second, both included.
    Span(Seq<char>, Seq<char>),
}

/// Whether `digits` write a position: they are one or more ASCII digits and
/// write a number from 1 to `usize::MAX`. Zeros in front do not count.
pub open spec fn writes_position(digits: Seq<char>) -> bool {
    is_digits(digits) && 1 <= digits_value(digits) <= usize::MAX
}

impl Position {
    /// Whether the item names positions: its numbers write positions, and a
    /// span does not decrease.
    pub open spec fn valid(self) -> bool {
        match self {
            Position::Single(n) => writes_position(n),
            Position::Span(first, last) => writes_position(first) && writes_position(last)
                && digits_value(first) <= digits_value(last),
        }
    }

    /// The item as it is written: the number, or the two numbers with a
    /// hyphen between them.
    pub open spec fn text(self) -> Seq<char> {
        match self {
            Position::Single(n) => n,
            Position::Span(first, last) => first + seq!['-'] + last,
        }
    }

    /// The half-open range of zero-based positions that the item names.
    pub open spec fn span(self) -> (int, int) {
        match self {
            Position::Single(n) => (digits_value(n) - 1, digits_value(n) as int),
            Position::Span(first, last) => (digits_value(first) - 1, digits_value(last) as int),
        }
    }
}

/// The items written as a list, with commas between them.
pub open spec fn list_text(items: Seq<Position>) -> Seq<char>
    decreases items.len(),
{
    if items.len() == 0 {
        Seq::empty()
    } else if items.len() == 1 {
        items[0].text()
    } else {
        items[0].text() + seq![','] + list_text(items.drop_first())
    }
}

/// The items of `record` at the positions that each of `items` names, counted
/// from one, item after item.
pub open spec fn named_items<T>(record: Seq<T>, items: Seq<Position>) -> Seq<T>
    decreases items.len(),
{
    if items.len() == 0 {
        Seq::empty()
    } else {
        named_items(record, items.drop_last()) + record.subrange(
            items.last().span().0,
            items.last().span().1,
        )
    }
}

proof fn lemma_item_text(item: Position)
    requires
        item.valid(),
    ensures
        item.text().len() > 0,
        forall|k: int| 0 <= k < item.text().len() ==> item.text()[k] != ',',
        token_range(item.text()) == Ok::<(int, int), CutFault>(item.span()),
{
    match item {
        Position::Single(n) => {},
        Position::Span(a, b) => {
            let token = item.text();
            assert(token[a.len() as int] == '-');
            assert(!all_digits(token));
            assert forall|k: int| 0 <= k < a.len() implies token[k] != '-' by {
                assert(token[k] == a[k]);
            }
            lemma_first_index(token, '-', a.len() as int);
            assert(token.take(a.len() as int) == a);
            assert(token.skip(a.len() as int + 1) == b);
            assert forall|k: int| 0 <= k < token.len() implies token[k] != ',' by {
                if k < a.len() {
                    assert(token[k] == a[k]);
                } else if k > a.len() {
                    assert(token[k] == b[k - a.len() - 1]);
                }
            }
        },
    }
}

proof fn lemma_list_ranges(items: Seq<Position>)
    requires
        items.len() > 0,
        forall|i: int| 0 <= i < items.len() ==> (#[trigger] items[i]).valid(),
    ensures
        list_text(items).len() > 0,
        ranges_of(split_on(list_text(items), ',')) == Ok::<Seq<(int, int)>, CutFault>(
            items.map_values(|item: Position| item.span()),
        ),
    decreases items.len(),
{
    let head = items[0].text();
    let text = list_text(items);
    let spans = items.map_values(|item: Position| item.span());
    lemma_item_text(items[0]);
    if items.len() == 1 {
        lemma_first_index(text, ',', text.len() as int);
        let tokens = split_on(text, ',');
        assert(tokens == seq![text]);
        assert(tokens.drop_first() == Seq::<Seq<char>>::empty());
        assert(ranges_of(tokens.drop_first()) == Ok::<Seq<(int, int)>, CutFault>(Seq::empty()));
        assert(token_range(tokens[0]) == Ok::<(int, int), CutFault>(items[0].span()));
        assert(seq![items[0].span()] + Seq::<(int, int)>::empty() == spans);
        assert(ranges_of(tokens) == after(seq![items[0].span()], ranges_of(tokens.drop_first())));
    } else {
        let rest = items.drop_first();
        assert forall|i: int| 0 <= i < rest.len() implies (#[trigger] rest[i]).valid() by {
            assert(rest[i] == items[i + 1]);
        }
        lemma_list_ranges(rest);
        assert(text[head.len() as int] == ',');
        assert forall|k: int| 0 <= k < head.len() implies text[k] != ',' by {
            assert(text[k] == head[k]);
        }
        lemma_first_index(text, ',', head.len() as int);
        assert(text.take(head.len() as int) == head);
        assert(text.skip(head.len() as int + 1) == list_text(rest));
        let tokens = split_on(text, ',');
        assert(tokens == seq![head] + split_on(list_text(rest), ','));
        assert(tokens[0] == head);
        assert(tokens.drop_first() == split_on(list_text(rest), ','));
        assert(token_range(tokens[0]) == Ok::<(int, int), CutFault>(items[0].span()));
        assert(seq![items[0].span()] + rest.map_values(|item: Position| item.span()) == spans);
        assert(ranges_of(tokens) == after(seq![items[0].span()], ranges_of(tokens.drop_first())));
    }
}

/// Every valid list of positions is read as the positions it names: for any
/// items that name positions, written with commas between them, parsing
/// gives, item for item, the range from one before the first position to the
/// last; and from a record that is long enough these ranges select the items
/// at exactly the named positions, counted from one.
pub proof fn lemma_positions_round_trip<T>(items: Seq<Position>, record: Seq<T>)
    requires
        items.len() > 0,
        forall|i: int| 0 <= i < items.len() ==> (#[trigger] items[i]).valid(),
        forall|i: int| 0 <= i < items.len() ==> (#[trigger] items[i]).span().1 <= record.len(),
    ensures
        positions(list_text(items)) == Ok::<Seq<(int, int)>, CutFault>(
            items.map_values(|item: Position| item.span()),
        ),
        select(record, items.map_values(|item: Position| item.span())) == named_items(
            record,
            items,
        ),
{
    lemma_list_ranges(items);
    lemma_select_named(items, record);
}

proof fn lemma_select_named<T>(items: Seq<Position>, record: Seq<T>)
    requires
        forall|i: int| 0 <= i < items.len() ==> (#[trigger] items[i]).valid(),
        forall|i: int| 0 <= i < items.len() ==> (#[trigger] items[i]).span().1 <= record.len(),
    ensures
        select(record, items.map_values(|item: Position| item.span())) == named_items(
            record,
            items,
        ),
    decreases items.len(),
{
    if items.len() > 0 {
        let spans = items.map_values(|item: Position| item.span());
        let front = items.drop_last();
        assert forall|i: int| 0 <= i < front.len() implies (#[trigger] front[i]).valid() by {
            assert(front[i] == items[i]);
        }
        assert forall|i: int| 0 <= i < front.len() implies (#[trigger] front[i]).span().1
            <= record.len() by {
            assert(front[i] == items[i]);
        }
        lemma_select_named(front, record);
        assert(spans.drop_last() == front.map_values(|item: Position| item.span()));
        assert(spans.last() == items.last().span());
        assert(items.last().valid());
    }
}

} // verus!
