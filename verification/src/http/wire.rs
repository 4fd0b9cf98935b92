//! Messages on the wire: a first line, header lines, an empty line and a
//! body, with a carriage return and a line feed at the end of each line.

use crate::http::table::{pair_views, Pair};
use crate::http::text::{
    extend, free_of, lemma_find_behind, lemma_find_char, lemma_free_of_concat, lines, push_str,
    strip_cr,
};
use vstd::prelude::*;

verus! {

/// The end of a line on the wire.
pub open spec fn line_end() -> Seq<char> {
    seq!['\r', '\n']
}

/// What stands between a header's key and its value on the wire.
pub open spec fn key_end() -> Seq<char> {
    seq![':', ' ']
}

/// The header lines of a message for headers listed in a given order.
pub open spec fn header_lines(order: Seq<Pair>) -> Seq<char>
    decreases order.len(),
{
    if order.len() == 0 {
        seq![]
    } else {
        header_lines(order.drop_last()) + order.last().0 + key_end() + order.last().1 + line_end()
    }
}

/// A message on the wire: first line, header lines, an empty line, body.
pub open spec fn message(first: Seq<char>, order: Seq<Pair>, body: Seq<char>) -> Seq<char> {
    first + line_end() + header_lines(order) + line_end() + body
}

/// A header as one line on the wire, without the end of the line.
pub open spec fn field(pair: Pair) -> Seq<char> {
    pair.0 + key_end() + pair.1
}

/// The header lines of a message, one by one.
pub open spec fn fields(order: Seq<Pair>) -> Seq<Seq<char>> {
    order.map_values(|pair: Pair| field(pair))
}

/// Whether a text can be the key or the value of a header that comes back
/// from the wire: it holds no line feed, no colon and no zero character.
pub open spec fn sendable(text: Seq<char>) -> bool {
    free_of(text, '\n') && free_of(text, ':') && free_of(text, '\0')
}

/// Whether each key and each value of a list of headers is sendable.
pub open spec fn all_sendable(order: Seq<Pair>) -> bool {
    forall|i: int|
        0 <= i < order.len() ==> sendable((#[trigger] order[i]).0) && sendable(order[i].1)
}

/// The header lines for the pairs in the order given.
pub fn render_headers(pairs: &Vec<(String, String)>) -> (out: Vec<char>)
    ensures
        out@ == header_lines(pair_views(pairs@)),
{
    let mut out: Vec<char> = Vec::new();
    let mut i: usize = 0;
    let ghost order = pair_views(pairs@);
    assert(order.take(0) == Seq::<Pair>::empty());
    while i < pairs.len()
        invariant
            i <= pairs.len(),
            order == pair_views(pairs@),
            out@ == header_lines(order.take(i as int)),
        decreases pairs.len() - i,
    {
        push_str(&mut out, pairs[i].0.as_str());
        out.push(':');
        out.push(' ');
        push_str(&mut out, pairs[i].1.as_str());
        out.push('\r');
        out.push('\n');
        assert(order.take(i + 1).drop_last() == order.take(i as int));
        assert(order.take(i + 1).last() == order[i as int]);
        assert(out@ == header_lines(order.take(i as int)) + order[i as int].0 + key_end()
            + order[i as int].1 + line_end());
        i += 1;
    }
    assert(order.take(pairs.len() as int) == order);
    out
}

/// The message with the given first line, headers and body.
pub fn render_message(first: &Vec<char>, pairs: &Vec<(String, String)>, body: &str) -> (out:
    Vec<char>)
    ensures
        out@ == message(first@, pair_views(pairs@), body@),
{
    let mut out: Vec<char> = Vec::new();
    extend(&mut out, first.as_slice());
    out.push('\r');
    out.push('\n');
    let lines = render_headers(pairs);
    extend(&mut out, lines.as_slice());
    out.push('\r');
    out.push('\n');
    push_str(&mut out, body);
    assert(out@ == first@ + line_end() + header_lines(pair_views(pairs@)) + line_end() + body@);
    out
}

/// A line that is free of line feeds and ends on the wire is the first line
/// of the text, and the lines of what follows are the other lines.
pub proof fn lemma_lines_first(line: Seq<char>, rest: Seq<char>)
    requires
        free_of(line, '\n'),
    ensures
        lines(line + line_end() + rest) == seq![line] + lines(rest),
{
    let feed = seq!['\n'];
    let ended = line + seq!['\r'];
    let text = line + line_end() + rest;
    assert(text == ended + feed + rest);
    lemma_free_of_concat(line, seq!['\r'], '\n');
    lemma_find_char(ended, '\n');
    lemma_find_behind(ended, feed, rest);
    assert(text.take(ended.len() as int) == ended);
    assert(ended.last() == '\r');
    assert(ended.drop_last() == line);
    assert(strip_cr(ended) == line);
    assert(text.skip((ended.len() + 1) as int) == rest);
}

/// The header lines of a message are the line of the first header and the
/// header lines of the other headers.
pub proof fn lemma_header_lines_first(order: Seq<Pair>)
    requires
        order.len() > 0,
    ensures
        header_lines(order) == field(order[0]) + line_end() + header_lines(order.drop_first()),
    decreases order.len(),
{
    let rest = order.drop_first();
    if order.len() == 1 {
        assert(order.drop_last() == Seq::<Pair>::empty());
        assert(header_lines(order.drop_last()) == Seq::<char>::empty());
        assert(header_lines(rest) == Seq::<char>::empty());
        assert(header_lines(order) == Seq::<char>::empty() + order[0].0 + key_end() + order[0].1
            + line_end());
    } else {
        lemma_header_lines_first(order.drop_last());
        assert(order.drop_last().drop_first() == rest.drop_last());
        assert(order.drop_last()[0] == order[0]);
        assert(rest.last() == order.last());
        assert(header_lines(rest) == header_lines(rest.drop_last()) + rest.last().0 + key_end()
            + rest.last().1 + line_end());
        assert(header_lines(order) == (field(order[0]) + line_end() + header_lines(
            rest.drop_last(),
        )) + order.last().0 + key_end() + order.last().1 + line_end());
    }
}

/// The lines of header lines and what follows them are the headers, each on
/// its line, and the lines of what follows.
pub proof fn lemma_lines_of_fields(order: Seq<Pair>, tail: Seq<char>)
    requires
        all_sendable(order),
    ensures
        lines(header_lines(order) + tail) == fields(order) + lines(tail),
    decreases order.len(),
{
    if order.len() == 0 {
        assert(header_lines(order) + tail == tail);
        assert(fields(order) + lines(tail) == lines(tail));
    } else {
        let rest = order.drop_first();
        lemma_header_lines_first(order);
        assert(all_sendable(rest)) by {
            assert forall|i: int| 0 <= i < rest.len() implies sendable((#[trigger] rest[i]).0)
                && sendable(rest[i].1) by {
                assert(rest[i] == order[i + 1]);
            }
        }
        lemma_lines_of_fields(rest, tail);
        let line = field(order[0]);
        assert(free_of(key_end(), '\n'));
        lemma_free_of_concat(order[0].0, key_end(), '\n');
        lemma_free_of_concat(order[0].0 + key_end(), order[0].1, '\n');
        lemma_lines_first(line, header_lines(rest) + tail);
        assert(header_lines(order) + tail == line + line_end() + (header_lines(rest) + tail));
        assert(fields(order) == seq![line] + fields(rest));
    }
}

/// The lines of a message: the first line, each header on its line, an
/// empty line, and the lines of the body.
pub proof fn lemma_lines_of_message(first: Seq<char>, order: Seq<Pair>, body: Seq<char>)
    requires
        free_of(first, '\n'),
        all_sendable(order),
    ensures
        lines(message(first, order, body)) == seq![first] + fields(order) + seq![
            Seq::<char>::empty(),
        ] + lines(body),
{
    let tail = line_end() + body;
    lemma_lines_first(Seq::<char>::empty(), body);
    assert(Seq::<char>::empty() + line_end() + body == tail);
    lemma_lines_of_fields(order, tail);
    lemma_lines_first(first, header_lines(order) + tail);
    assert(message(first, order, body) == first + line_end() + (header_lines(order) + tail));
}

/// The header lines of sendable headers are free of the zero character.
pub proof fn lemma_header_lines_without_nul(order: Seq<Pair>)
    requires
        all_sendable(order),
    ensures
        free_of(header_lines(order), '\0'),
    decreases order.len(),
{
    if order.len() > 0 {
        let front = order.drop_last();
        assert(all_sendable(front)) by {
            assert forall|i: int| 0 <= i < front.len() implies sendable((#[trigger] front[i]).0)
                && sendable(front[i].1) by {
                assert(front[i] == order[i]);
            }
        }
        lemma_header_lines_without_nul(front);
        let pair = order.last();
        assert(free_of(key_end(), '\0') && free_of(line_end(), '\0'));
        lemma_free_of_concat(header_lines(front), pair.0, '\0');
        lemma_free_of_concat(header_lines(front) + pair.0, key_end(), '\0');
        lemma_free_of_concat(header_lines(front) + pair.0 + key_end(), pair.1, '\0');
        lemma_free_of_concat(header_lines(front) + pair.0 + key_end() + pair.1, line_end(), '\0');
    }
}

} // verus!
