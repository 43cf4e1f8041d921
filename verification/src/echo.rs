//! Writing the arguments back.

use crate::lines::texts;
use crate::text::{push_str, string_of};
use vstd::prelude::*;

verus! {

/// The texts `parts` with `separator` between them.
pub open spec fn joined(parts: Seq<Seq<char>>, separator: Seq<char>) -> Seq<char>
    decreases parts.len(),
{
    if parts.len() == 0 {
        Seq::empty()
    } else if parts.len() == 1 {
        parts[0]
    } else {
        joined(parts.drop_last(), separator) + separator + parts.last()
    }
}

/// The texts `parts` with `separator` between them.
pub fn join(parts: &[String], separator: &str) -> (r: String)
    ensures
        r@ == joined(texts(parts@), separator@),
{
    let mut out: Vec<char> = Vec::new();
    let mut i: usize = 0;
    while i < parts.len()
        invariant
            i <= parts.len(),
            out@ == joined(texts(parts@).take(i as int), separator@),
        decreases parts.len() - i,
    {
        if i > 0 {
            push_str(&mut out, separator);
        }
        push_str(&mut out, parts[i].as_str());
        proof {
            let now = texts(parts@).take(i + 1);
            assert(now.drop_last() == texts(parts@).take(i as int));
            assert(now.last() == parts@[i as int]@);
        }
        i += 1;
    }
    assert(texts(parts@).take(i as int) == texts(parts@));
    string_of(&out)
}

/// What is written for the arguments `text`: the arguments with one space
/// between them, and a line feed unless it is left out.
pub fn echo(text: &[String], omit_newline: bool) -> (r: String)
    ensures
        r@ == joined(texts(text@), seq![' ']) + if omit_newline {
            Seq::<char>::empty()
        } else {
            seq!['\n']
        },
{
    let line = join(text, " ");
    proof {
        reveal_strlit(" ");
        assert(" "@ == seq![' ']);
    }
    if omit_newline {
        assert(line@ + Seq::<char>::empty() == line@);
        line
    } else {
        let mut out = crate::text::chars_of(line.as_str());
        out.push('\n');
        string_of(&out)
    }
}

} // verus!
