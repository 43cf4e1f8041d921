//! Reading a file's contents line by line: the contents are cut after every
//! line feed, and each piece is decoded as UTF-8.

use vstd::prelude::*;
use vstd::utf8::*;

verus! {

/// The position of the first `x` in `s`, or the length of `s` where it holds
/// none.
pub open spec fn first_index<T>(s: Seq<T>, x: T) -> nat
    decreases s.len(),
{
    if s.len() == 0 || s[0] == x {
        0
    } else {
        1 + first_index(s.drop_first(), x)
    }
}

/// `first_index` is the one position before which `x` does not occur and at
/// which it does, or the length.
pub proof fn lemma_first_index<T>(s: Seq<T>, x: T, i: int)
    requires
        0 <= i <= s.len(),
        forall|k: int| 0 <= k < i ==> s[k] != x,
        i < s.len() ==> s[i] == x,
    ensures
        first_index(s, x) == i,
    decreases s.len(),
{
    if i > 0 {
        let t = s.drop_first();
        assert forall|k: int| 0 <= k < i - 1 implies t[k] != x by {
            assert(t[k] == s[k + 1]);
        }
        lemma_first_index(t, x, i - 1);
    }
}

/// What `first_index` returns lies within `s`, on an `x` or at the end.
pub proof fn lemma_first_index_bounds<T>(s: Seq<T>, x: T)
    ensures
        first_index(s, x) <= s.len(),
        first_index(s, x) < s.len() ==> s[first_index(s, x) as int] == x,
        forall|k: int| 0 <= k < first_index(s, x) ==> s[k] != x,
    decreases s.len(),
{
    if s.len() == 0 || s[0] == x {
    } else {
        let t = s.drop_first();
        lemma_first_index_bounds(t, x);
        assert forall|k: int| 0 <= k < first_index(s, x) implies s[k] != x by {
            if k > 0 {
                assert(t[k - 1] == s[k]);
            }
        }
    }
}

/// The pieces of `content`, each ending with its line feed; a last piece
/// without one where the contents do not end with a line feed. Put together
/// they are `content` again.
pub open spec fn chunks(content: Seq<u8>) -> Seq<Seq<u8>>
    decreases content.len(),
{
    if content.len() == 0 {
        Seq::empty()
    } else {
        let i = first_index(content, 10u8) as int;
        if i >= content.len() {
            seq![content]
        } else {
            seq![content.take(i + 1)] + chunks(content.skip(i + 1))
        }
    }
}

/// The end of the piece that starts at `from`: one past its line feed, or the
/// end of the contents.
pub fn chunk_end(content: &[u8], from: usize) -> (end: usize)
    requires
        from < content.len(),
    ensures
        from < end <= content.len(),
        chunks(content@.skip(from as int)) == seq![
            content@.subrange(from as int, end as int),
        ] + chunks(content@.skip(end as int)),
{
    let ghost rest = content@.skip(from as int);
    let mut i: usize = from;
    while i < content.len() && content[i] != 10u8
        invariant
            from <= i <= content.len(),
            rest == content@.skip(from as int),
            forall|k: int| 0 <= k < i - from ==> rest[k] != 10u8,
        decreases content.len() - i,
    {
        i += 1;
    }
    proof {
        lemma_first_index(rest, 10u8, i - from);
    }
    if i == content.len() {
        proof {
            assert(rest == content@.subrange(from as int, i as int));
            assert(content@.skip(i as int).len() == 0);
            assert(chunks(content@.skip(i as int)) == Seq::<Seq<u8>>::empty());
            assert(seq![rest] + Seq::<Seq<u8>>::empty() == seq![rest]);
        }
        i
    } else {
        proof {
            assert(rest.take(i - from + 1) == content@.subrange(from as int, i + 1));
            assert(rest.skip(i - from + 1) == content@.skip(i + 1));
        }
        i + 1
    }
}

/// What each vector of `v` holds.
pub open spec fn byte_seqs(v: Seq<Vec<u8>>) -> Seq<Seq<u8>> {
    v.map_values(|p: Vec<u8>| p@)
}

/// What each string of `v` holds.
pub open spec fn texts(v: Seq<String>) -> Seq<Seq<char>> {
    v.map_values(|s: String| s@)
}

/// The pieces of `content` as vectors.
pub fn split_lines(content: &[u8]) -> (r: Vec<Vec<u8>>)
    ensures
        byte_seqs(r@) == chunks(content@),
{
    let mut r: Vec<Vec<u8>> = Vec::new();
    let mut start: usize = 0;
    assert(content@.skip(0) == content@);
    while start < content.len()
        invariant
            start <= content.len(),
            chunks(content@) == byte_seqs(r@) + chunks(content@.skip(start as int)),
        decreases content.len() - start,
    {
        let end = chunk_end(content, start);
        let piece = copy_bytes(content, start, end);
        let ghost before = r@;
        r.push(piece);
        assert(byte_seqs(r@) == byte_seqs(before).push(piece@));
        assert(byte_seqs(before).push(piece@) + chunks(content@.skip(end as int)) == byte_seqs(
            before,
        ) + (seq![piece@] + chunks(content@.skip(end as int))));
        start = end;
    }
    assert(chunks(content@.skip(start as int)) == Seq::<Seq<u8>>::empty());
    r
}

/// The bytes of `content` from position `from` up to, not including, `to`.
pub fn copy_bytes(content: &[u8], from: usize, to: usize) -> (r: Vec<u8>)
    requires
        from <= to <= content.len(),
    ensures
        r@ == content@.subrange(from as int, to as int),
{
    let mut r: Vec<u8> = Vec::new();
    let mut i: usize = from;
    while i < to
        invariant
            from <= i <= to <= content.len(),
            r@ == content@.subrange(from as int, i as int),
        decreases to - i,
    {
        r.push(content[i]);
        i += 1;
    }
    r
}

/// `std::str::from_utf8` accepts exactly the well-formed UTF-8 byte
/// sequences, and reads them as the characters they encode.
#[verifier::external_body]
pub(crate) fn decode_strict<'a>(bytes: &'a [u8]) -> (r: Option<&'a str>)
    ensures
        r is Some <==> valid_utf8(bytes@),
        r matches Some(s) ==> s@ == decode_utf8(bytes@),
{
    std::str::from_utf8(bytes).ok()
}

/// What `String::from_utf8_lossy` makes of a byte sequence: its characters,
/// with U+FFFD in place of whatever is not well-formed UTF-8.
pub uninterp spec fn utf8_lossy(bytes: Seq<u8>) -> Seq<char>;

/// `String::from_utf8_lossy` reads bytes as text and never fails: well-formed
/// UTF-8 gives the characters it encodes, anything else is replaced.
#[verifier::external_body]
pub(crate) fn decode_lossy(bytes: &[u8]) -> (r: String)
    ensures
        r@ == utf8_lossy(bytes@),
        valid_utf8(bytes@) ==> r@ == decode_utf8(bytes@),
{
    String::from_utf8_lossy(bytes).into_owned()
}

/// Text has at most as many characters as its UTF-8 encoding has bytes.
pub proof fn lemma_chars_at_most_bytes(chars: Seq<char>)
    ensures
        chars.len() <= encode_utf8(chars).len(),
    decreases chars.len(),
{
    if chars.len() > 0 {
        lemma_chars_at_most_bytes(chars.drop_first());
        assert(encode_scalar(chars[0] as u32).len() >= 1);
    }
}

/// The UTF-8 encoding of a text is the encoding of its start, then that of
/// its end.
pub proof fn lemma_encode_concat(a: Seq<char>, b: Seq<char>)
    ensures
        encode_utf8(a + b) == encode_utf8(a) + encode_utf8(b),
    decreases a.len(),
{
    if a.len() == 0 {
        assert(a + b == b);
    } else {
        assert((a + b).drop_first() == a.drop_first() + b);
        lemma_encode_concat(a.drop_first(), b);
    }
}

proof fn lemma_line_feed_bits(s: u32)
    by (bit_vector)
    ensures
        s <= 0x7F ==> (leading_byte_width_1(s) == 10u8 <==> s == 10u32),
        leading_byte_width_2(s) != 10u8,
        leading_byte_width_3(s) != 10u8,
        leading_byte_width_4(s) != 10u8,
        last_continuation_byte(s) != 10u8,
        second_last_continuation_byte(s) != 10u8,
        third_last_continuation_byte(s) != 10u8,
{
}

/// The byte of the line feed stands for the line feed and for nothing else:
/// no other character has it in its encoding.
pub proof fn lemma_scalar_line_feed(c: char)
    ensures
        c == '\n' ==> encode_scalar(c as u32) == seq![10u8],
        c != '\n' ==> forall|k: int|
            0 <= k < encode_scalar(c as u32).len() ==> #[trigger] encode_scalar(c as u32)[k]
                != 10u8,
        encode_scalar(c as u32).len() >= 1,
{
    let s = c as u32;
    lemma_line_feed_bits(s);
    char_u32_cast(c, s);
    if c != '\n' && s == 10u32 {
        char_u32_cast('\n', 10u32);
    }
}

/// A text without a line feed has no line feed byte in its encoding.
pub proof fn lemma_encode_no_line_feed(s: Seq<char>)
    requires
        forall|k: int| 0 <= k < s.len() ==> s[k] != '\n',
    ensures
        forall|k: int| 0 <= k < encode_utf8(s).len() ==> #[trigger] encode_utf8(s)[k] != 10u8,
    decreases s.len(),
{
    if s.len() > 0 {
        let head = encode_scalar(s[0] as u32);
        let rest = s.drop_first();
        lemma_scalar_line_feed(s[0]);
        assert forall|k: int| 0 <= k < rest.len() implies rest[k] != '\n' by {
            assert(rest[k] == s[k + 1]);
        }
        lemma_encode_no_line_feed(rest);
        assert forall|k: int| 0 <= k < encode_utf8(s).len() implies #[trigger] encode_utf8(s)[k]
            != 10u8 by {
            if k >= head.len() {
                assert(encode_utf8(s)[k] == encode_utf8(rest)[k - head.len()]);
            } else {
                assert(encode_utf8(s)[k] == head[k]);
            }
        }
    }
}

/// The pieces decoded one by one, up to the first that is not well-formed
/// UTF-8.
pub open spec fn decoded_prefix(pieces: Seq<Seq<u8>>) -> Seq<Seq<char>>
    decreases pieces.len(),
{
    if pieces.len() == 0 || !valid_utf8(pieces[0]) {
        Seq::empty()
    } else {
        seq![decode_utf8(pieces[0])] + decoded_prefix(pieces.drop_first())
    }
}

/// Whether every piece is well-formed UTF-8.
pub open spec fn all_valid(pieces: Seq<Seq<u8>>) -> bool {
    forall|i: int| 0 <= i < pieces.len() ==> valid_utf8(#[trigger] pieces[i])
}

/// The lines of `content` that a reader gets before it fails: each with its
/// line feed, up to the first that is not well-formed UTF-8.
pub open spec fn text_lines(content: Seq<u8>) -> Seq<Seq<char>> {
    decoded_prefix(chunks(content))
}

/// Whether `content` reads as text to its end.
pub open spec fn is_text(content: Seq<u8>) -> bool {
    all_valid(chunks(content))
}

/// `line` without the line feed at its end, and without the carriage return
/// before that line feed.
pub open spec fn without_terminator(line: Seq<char>) -> Seq<char> {
    if line.len() > 0 && line.last() == '\n' {
        let rest = line.drop_last();
        if rest.len() > 0 && rest.last() == '\r' {
            rest.drop_last()
        } else {
            rest
        }
    } else {
        line
    }
}

/// `line` without the line feed at its end, and without the carriage return
/// before that line feed.
pub open spec fn without_terminator_bytes(line: Seq<u8>) -> Seq<u8> {
    if line.len() > 0 && line.last() == 10u8 {
        let rest = line.drop_last();
        if rest.len() > 0 && rest.last() == 13u8 {
            rest.drop_last()
        } else {
            rest
        }
    } else {
        line
    }
}

/// The number of bytes of `line` before its line terminator.
pub fn terminator_start(line: &[u8]) -> (end: usize)
    ensures
        end <= line.len(),
        line@.take(end as int) == without_terminator_bytes(line@),
{
    let n = line.len();
    if n > 0 && line[n - 1] == 10u8 {
        if n > 1 && line[n - 2] == 13u8 {
            assert(line@.take(n - 2) == line@.drop_last().drop_last());
            n - 2
        } else {
            assert(line@.take(n - 1) == line@.drop_last());
            n - 1
        }
    } else {
        assert(line@.take(n as int) == line@);
        n
    }
}

/// A file that was named, with what it holds.
#[derive(Debug, Clone)]
pub struct Source {
    /// The name under which the file was asked for.
    pub name: String,
    /// What the file holds; `None` where it could not be opened.
    pub content: Option<Vec<u8>>,
}

/// The number of bytes that all `files` hold together.
pub open spec fn sources_size(files: Seq<Source>) -> nat
    decreases files.len(),
{
    if files.len() == 0 {
        0
    } else {
        sources_size(files.drop_last()) + match files.last().content {
            Some(content) => content.len() as nat,
            None => 0,
        }
    }
}

/// The files that come first hold no more than all the files.
pub proof fn lemma_sources_size_prefix(files: Seq<Source>, k: int)
    requires
        0 <= k <= files.len(),
    ensures
        sources_size(files.take(k)) <= sources_size(files),
    decreases files.len(),
{
    if k == files.len() {
        assert(files.take(k) == files);
    } else {
        lemma_sources_size_prefix(files.drop_last(), k);
        assert(files.drop_last().take(k) == files.take(k));
    }
}

/// Whether all `files` together hold at most `limit` bytes.
pub fn sources_fit(files: &Vec<Source>, limit: u64) -> (r: bool)
    ensures
        r == (sources_size(files@) <= limit),
{
    let mut size: u64 = 0;
    let mut i: usize = 0;
    while i < files.len()
        invariant
            i <= files.len(),
            size == sources_size(files@.take(i as int)),
            size <= limit,
        decreases files.len() - i,
    {
        proof {
            let now = files@.take(i + 1);
            assert(now.drop_last() == files@.take(i as int));
            assert(now.last() == files@[i as int]);
            lemma_sources_size_prefix(files@, i + 1);
        }
        if let Some(content) = &files[i].content {
            let len = content.len() as u64;
            if len > limit - size {
                return false;
            }
            size += len;
        }
        i += 1;
    }
    assert(files@.take(i as int) == files@);
    true
}

/// A file has at most as many lines as bytes.
pub proof fn lemma_lines_at_most_bytes(content: Seq<u8>)
    ensures
        chunks(content).len() <= content.len(),
        text_lines(content).len() <= content.len(),
    decreases content.len(),
{
    lemma_decoded_prefix_len(chunks(content));
    if content.len() > 0 {
        let i = first_index(content, 10u8) as int;
        if i < content.len() {
            lemma_lines_at_most_bytes(content.skip(i + 1));
        }
    }
}

proof fn lemma_decoded_prefix_len(pieces: Seq<Seq<u8>>)
    ensures
        decoded_prefix(pieces).len() <= pieces.len(),
    decreases pieces.len(),
{
    if pieces.len() > 0 {
        lemma_decoded_prefix_len(pieces.drop_first());
    }
}

/// The lines read from a file, and whether the file could be read to its end.
pub struct TextLines {
    /// The lines before the first that is not text, each with its line feed.
    pub lines: Vec<String>,
    /// Whether every line was text.
    pub complete: bool,
}

/// Reads `content` line by line, stopping at the first line that is not
/// well-formed UTF-8.
pub fn read_lines(content: &[u8]) -> (r: TextLines)
    ensures
        texts(r.lines@) == text_lines(content@),
        r.complete == is_text(content@),
{
    let mut lines: Vec<String> = Vec::new();
    let mut start: usize = 0;
    assert(content@.skip(0) == content@);
    while start < content.len()
        invariant
            start <= content.len(),
            text_lines(content@) == texts(lines@) + decoded_prefix(
                chunks(content@.skip(start as int)),
            ),
            is_text(content@) == all_valid(chunks(content@.skip(start as int))),
        decreases content.len() - start,
    {
        let end = chunk_end(content, start);
        let piece = copy_bytes(content, start, end);
        let ghost rest = chunks(content@.skip(start as int));
        let ghost next = chunks(content@.skip(end as int));
        assert(rest[0] == piece@);
        assert(rest.drop_first() == next);
        match decode_strict(piece.as_slice()) {
            None => {
                assert(texts(lines@) + Seq::<Seq<char>>::empty() == texts(lines@));
                return TextLines { lines, complete: false };
            },
            Some(s) => {
                let ghost before = lines@;
                let line = s.to_owned();
                lines.push(line);
                assert(texts(lines@) == texts(before).push(line@));
                assert(texts(before).push(line@) + decoded_prefix(next) == texts(before) + (seq![
                    line@,
                ] + decoded_prefix(next)));
                assert(all_valid(rest) == all_valid(next)) by {
                    if all_valid(next) {
                        assert forall|i: int| 0 <= i < rest.len() implies valid_utf8(
                            #[trigger] rest[i],
                        ) by {
                            if i > 0 {
                                assert(rest[i] == next[i - 1]);
                            }
                        }
                    }
                    if all_valid(rest) {
                        assert forall|i: int| 0 <= i < next.len() implies valid_utf8(
                            #[trigger] next[i],
                        ) by {
                            assert(next[i] == rest[i + 1]);
                        }
                    }
                }
            },
        }
        start = end;
    }
    assert(chunks(content@.skip(start as int)) == Seq::<Seq<u8>>::empty());
    assert(texts(lines@) + Seq::<Seq<char>>::empty() == texts(lines@));
    TextLines { lines, complete: true }
}

/// Reads at most `limit` lines of `content`, stopping at the first line that
/// is not well-formed UTF-8. Lines beyond the limit are not looked at.
pub fn read_first_lines(content: &[u8], limit: u64) -> (r: TextLines)
    ensures
        texts(r.lines@) == decoded_prefix(first_chunks(content@, limit as nat)),
        r.complete == all_valid(first_chunks(content@, limit as nat)),
{
    let pieces = split_lines(content);
    let count: usize = if limit < pieces.len() as u64 {
        limit as usize
    } else {
        pieces.len()
    };
    let ghost first = first_chunks(content@, limit as nat);
    let mut lines: Vec<String> = Vec::new();
    let mut i: usize = 0;
    assert(first.skip(0) == first);
    assert(chunks(content@).take(chunks(content@).len() as int) == chunks(content@));
    while i < count
        invariant
            i <= count <= pieces.len(),
            byte_seqs(pieces@) == chunks(content@),
            first == chunks(content@).take(count as int),
            first == first_chunks(content@, limit as nat),
            decoded_prefix(first) == texts(lines@) + decoded_prefix(first.skip(i as int)),
            all_valid(first) == all_valid(first.skip(i as int)),
        decreases count - i,
    {
        let ghost rest = first.skip(i as int);
        let ghost next = first.skip(i + 1);
        assert(rest[0] == pieces@[i as int]@);
        assert(rest.drop_first() == next);
        match decode_strict(pieces[i].as_slice()) {
            None => {
                assert(texts(lines@) + Seq::<Seq<char>>::empty() == texts(lines@));
                return TextLines { lines, complete: false };
            },
            Some(s) => {
                let ghost before = lines@;
                let line = s.to_owned();
                lines.push(line);
                assert(texts(lines@) == texts(before).push(line@));
                assert(texts(before).push(line@) + decoded_prefix(next) == texts(before) + (seq![
                    line@,
                ] + decoded_prefix(next)));
                assert(all_valid(rest) == all_valid(next)) by {
                    if all_valid(next) {
                        assert forall|k: int| 0 <= k < rest.len() implies valid_utf8(
                            #[trigger] rest[k],
                        ) by {
                            if k > 0 {
                                assert(rest[k] == next[k - 1]);
                            }
                        }
                    }
                    if all_valid(rest) {
                        assert forall|k: int| 0 <= k < next.len() implies valid_utf8(
                            #[trigger] next[k],
                        ) by {
                            assert(next[k] == rest[k + 1]);
                        }
                    }
                }
            },
        }
        i += 1;
    }
    assert(first.skip(i as int) == Seq::<Seq<u8>>::empty());
    assert(texts(lines@) + Seq::<Seq<char>>::empty() == texts(lines@));
    TextLines { lines, complete: true }
}

/// The first `limit` pieces of `content`, or all where there are fewer.
pub open spec fn first_chunks(content: Seq<u8>, limit: nat) -> Seq<Seq<u8>> {
    let all = chunks(content);
    if limit < all.len() {
        all.take(limit as int)
    } else {
        all
    }
}

/// Whether `line` is a line as a reader gives it: it is not empty, and holds
/// no line feed but at its end.
pub open spec fn is_line(line: Seq<char>) -> bool {
    line.len() > 0 && forall|k: int| 0 <= k < line.len() - 1 ==> line[k] != '\n'
}

/// Whether `lines` are the lines of one file: each is a line, and each but
/// the last ends with a line feed.
pub open spec fn are_lines(lines: Seq<Seq<char>>) -> bool {
    forall|i: int|
        0 <= i < lines.len() ==> is_line(#[trigger] lines[i]) && (i < lines.len() - 1
            ==> lines[i].last() == '\n')
}

/// The bytes that the texts `pieces` are written as, one after the other.
pub open spec fn bytes_of(pieces: Seq<Seq<char>>) -> Seq<u8>
    decreases pieces.len(),
{
    if pieces.len() == 0 {
        Seq::empty()
    } else {
        encode_utf8(pieces[0]) + bytes_of(pieces.drop_first())
    }
}

proof fn lemma_last_scalar(line: Seq<char>)
    requires
        line.len() > 0,
    ensures
        encode_utf8(line) == encode_utf8(line.drop_last()) + encode_scalar(line.last() as u32),
{
    let one = seq![line.last()];
    assert(line == line.drop_last() + one);
    lemma_encode_concat(line.drop_last(), one);
    assert(one.drop_first() == Seq::<char>::empty());
    assert(encode_utf8(one.drop_first()) == Seq::<u8>::empty());
    assert(encode_utf8(one) == encode_scalar(line.last() as u32));
}

proof fn lemma_line_chunk(line: Seq<char>, rest: Seq<u8>)
    requires
        is_line(line),
        line.last() == '\n' || rest.len() == 0,
    ensures
        encode_utf8(line).len() > 0,
        chunks(encode_utf8(line) + rest) == seq![encode_utf8(line)] + chunks(rest),
{
    let front = line.drop_last();
    let start = encode_utf8(front);
    let whole = encode_utf8(line);
    let content = whole + rest;
    lemma_last_scalar(line);
    lemma_scalar_line_feed(line.last());
    assert forall|k: int| 0 <= k < front.len() implies front[k] != '\n' by {
        assert(front[k] == line[k]);
    }
    lemma_encode_no_line_feed(front);
    if line.last() == '\n' {
        let n = start.len() as int;
        assert(whole == start.push(10u8));
        assert forall|k: int| 0 <= k < n implies content[k] != 10u8 by {
            assert(content[k] == start[k]);
        }
        assert(content[n] == 10u8);
        lemma_first_index(content, 10u8, n);
        assert(content.take(n + 1) == whole);
        assert(content.skip(n + 1) == rest);
    } else {
        let tail = encode_scalar(line.last() as u32);
        assert(content == whole);
        assert forall|k: int| 0 <= k < content.len() implies content[k] != 10u8 by {
            if k < start.len() {
                assert(content[k] == start[k]);
            } else {
                assert(content[k] == tail[k - start.len()]);
            }
        }
        lemma_first_index(content, 10u8, content.len() as int);
        assert(chunks(rest) == Seq::<Seq<u8>>::empty());
        assert(seq![whole] + Seq::<Seq<u8>>::empty() == seq![whole]);
    }
}

/// Lines that are written out are read back as they were: the bytes of the
/// lines of a file are text, and hold those lines.
pub proof fn lemma_lines_of_bytes(lines: Seq<Seq<char>>)
    requires
        are_lines(lines),
    ensures
        text_lines(bytes_of(lines)) == lines,
        is_text(bytes_of(lines)),
    decreases lines.len(),
{
    if lines.len() == 0 {
    } else {
        let first = lines[0];
        let rest = lines.drop_first();
        assert(is_line(first));
        assert forall|i: int| 0 <= i < rest.len() implies is_line(#[trigger] rest[i]) && (i
            < rest.len() - 1 ==> rest[i].last() == '\n') by {
            assert(rest[i] == lines[i + 1]);
        }
        lemma_lines_of_bytes(rest);
        if rest.len() == 0 {
            assert(bytes_of(rest).len() == 0);
        }
        lemma_line_chunk(first, bytes_of(rest));
        let pieces = chunks(bytes_of(lines));
        let more = chunks(bytes_of(rest));
        assert(pieces == seq![encode_utf8(first)] + more);
        assert(pieces[0] == encode_utf8(first));
        assert(pieces.drop_first() == more);
        encode_utf8_valid_utf8(first);
        encode_utf8_decode_utf8(first);
        assert(seq![first] + rest == lines);
        assert forall|i: int| 0 <= i < pieces.len() implies valid_utf8(#[trigger] pieces[i]) by {
            if i > 0 {
                assert(pieces[i] == more[i - 1]);
            }
        }
    }
}

proof fn lemma_chunks_shape(content: Seq<u8>)
    ensures
        forall|i: int|
            #![trigger chunks(content)[i]]
            0 <= i < chunks(content).len() ==> {
                let piece = chunks(content)[i];
                &&& piece.len() > 0
                &&& forall|k: int| 0 <= k < piece.len() - 1 ==> piece[k] != 10u8
                &&& i < chunks(content).len() - 1 ==> piece.last() == 10u8
            },
    decreases content.len(),
{
    if content.len() > 0 {
        let n = first_index(content, 10u8) as int;
        lemma_first_index_bounds(content, 10u8);
        if n < content.len() {
            let first = content.take(n + 1);
            let more = chunks(content.skip(n + 1));
            lemma_chunks_shape(content.skip(n + 1));
            assert forall|i: int|
                #![trigger chunks(content)[i]]
                0 <= i < chunks(content).len() implies {
                let piece = chunks(content)[i];
                &&& piece.len() > 0
                &&& forall|k: int| 0 <= k < piece.len() - 1 ==> piece[k] != 10u8
                &&& i < chunks(content).len() - 1 ==> piece.last() == 10u8
            } by {
                if i > 0 {
                    assert(chunks(content)[i] == more[i - 1]);
                } else {
                    assert(chunks(content)[0] == first);
                    assert forall|k: int| 0 <= k < first.len() - 1 implies first[k] != 10u8 by {
                        assert(first[k] == content[k]);
                    }
                }
            }
        }
    }
}

proof fn lemma_decoded_line(piece: Seq<u8>)
    requires
        valid_utf8(piece),
        piece.len() > 0,
        forall|k: int| 0 <= k < piece.len() - 1 ==> piece[k] != 10u8,
    ensures
        is_line(decode_utf8(piece)),
        piece.last() == 10u8 ==> decode_utf8(piece).last() == '\n',
{
    let line = decode_utf8(piece);
    decode_utf8_encode_utf8(piece);
    assert(line.len() > 0);
    lemma_last_scalar(line);
    lemma_scalar_line_feed(line.last());
    assert forall|k: int| 0 <= k < line.len() - 1 implies line[k] != '\n' by {
        if line[k] == '\n' {
            let start = line.take(k);
            let end = line.skip(k);
            assert(line == start + end);
            lemma_encode_concat(start, end);
            lemma_scalar_line_feed(end[0]);
            lemma_chars_at_most_bytes(end.drop_first());
            let n = encode_utf8(start).len() as int;
            assert(encode_utf8(end)[0] == 10u8);
            assert(piece[n] == encode_utf8(end)[0]);
            assert(end.drop_first().len() >= 1);
            assert(n < piece.len() - 1);
        }
    }
}

proof fn lemma_decoded_prefix_index(pieces: Seq<Seq<u8>>, i: int)
    requires
        0 <= i < decoded_prefix(pieces).len(),
    ensures
        i < pieces.len(),
        valid_utf8(pieces[i]),
        decoded_prefix(pieces)[i] == decode_utf8(pieces[i]),
    decreases pieces.len(),
{
    if i > 0 {
        lemma_decoded_prefix_index(pieces.drop_first(), i - 1);
        assert(pieces.drop_first()[i - 1] == pieces[i]);
    }
}

/// What is read from a file are the lines of a file.
pub proof fn lemma_text_lines_are_lines(content: Seq<u8>)
    ensures
        are_lines(text_lines(content)),
{
    let pieces = chunks(content);
    let lines = text_lines(content);
    lemma_chunks_shape(content);
    assert forall|i: int| 0 <= i < lines.len() implies is_line(#[trigger] lines[i]) && (i
        < lines.len() - 1 ==> lines[i].last() == '\n') by {
        lemma_decoded_prefix_index(pieces, i);
        let piece = chunks(content)[i];
        lemma_decoded_line(piece);
        if i < lines.len() - 1 {
            lemma_decoded_prefix_index(pieces, i + 1);
        }
    }
}

/// `line` without its line terminator.
pub fn strip_terminator(line: &str) -> (r: String)
    ensures
        r@ == without_terminator(line@),
{
    let chars = crate::text::chars_of(line);
    let n = chars.len();
    let mut end: usize = n;
    if n > 0 && chars[n - 1] == '\n' {
        end = n - 1;
        if end > 0 && chars[end - 1] == '\r' {
            end = end - 1;
        }
    }
    let kept = crate::text::slice_chars(&chars, 0, end);
    assert(kept@ == without_terminator(line@));
    crate::text::string_of(&kept)
}

} // verus!
