//! The lines of a file, from its bytes.
//!
//! A line that is not text is skipped like any other line that cannot be read:
//! what comes after it is read all the same.

use vstd::prelude::*;
use vstd::slice::slice_subrange;
use vstd::utf8::{
    decode_utf8, encode_scalar, encode_utf8, encode_utf8_decode_utf8, encode_utf8_valid_utf8,
    valid_utf8,
};

use crate::text::{first_at, lemma_first_at_bounds, lines_of, without_return};

verus! {

/// `String::from_utf8` gives the text that the bytes encode in UTF-8, and an error
/// where they encode none.
#[verifier::external_body]
fn decoded(bytes: Vec<u8>) -> (r: Option<String>)
    ensures
        match r {
            Some(text) => valid_utf8(bytes@) && text@ == decode_utf8(bytes@),
            None => !valid_utf8(bytes@),
        },
{
    String::from_utf8(bytes).ok()
}

/// The byte that ends a line.
pub const LINE_END: u8 = 10;

/// The byte that goes with it where a line ends with two.
pub const RETURN: u8 = 13;

/// Where the first line ends; the length of the bytes where none does.
pub open spec fn end_at(b: Seq<u8>) -> int
    decreases b.len(),
{
    if b.len() == 0 || b[0] == LINE_END {
        0
    } else {
        1 + end_at(b.drop_first())
    }
}

/// A line as it stands before its end.
pub open spec fn bare(b: Seq<u8>) -> Seq<u8> {
    if b.len() > 0 && b.last() == RETURN {
        b.drop_last()
    } else {
        b
    }
}

/// The lines of the bytes; the last one need not end.
pub open spec fn byte_lines(b: Seq<u8>) -> Seq<Seq<u8>>
    decreases b.len(),
{
    let i = end_at(b);
    if b.len() == 0 {
        seq![]
    } else if i >= b.len() {
        seq![b]
    } else {
        proof {
            lemma_end_at(b);
        }
        seq![bare(b.take(i))] + byte_lines(b.skip(i + 1))
    }
}

/// The lines that are text.
pub open spec fn readable_lines(lines: Seq<Seq<u8>>) -> Seq<Seq<char>>
    decreases lines.len(),
{
    if lines.len() == 0 {
        seq![]
    } else {
        let rest = readable_lines(lines.drop_last());
        if valid_utf8(lines.last()) {
            rest.push(decode_utf8(lines.last()))
        } else {
            rest
        }
    }
}

pub open spec fn texts(v: Seq<String>) -> Seq<Seq<char>> {
    v.map_values(|text: String| text@)
}

pub proof fn lemma_end_at(b: Seq<u8>)
    ensures
        0 <= end_at(b) <= b.len(),
        end_at(b) < b.len() ==> b[end_at(b)] == LINE_END,
        forall|j: int| 0 <= j < end_at(b) ==> b[j] != LINE_END,
    decreases b.len(),
{
    if b.len() > 0 && b[0] != LINE_END {
        let rest = b.drop_first();
        lemma_end_at(rest);
        assert forall|j: int| 0 <= j < end_at(b) implies b[j] != LINE_END by {
            if j > 0 {
                assert(b[j] == rest[j - 1]);
            }
        }
    }
}

/// `end_at` is the only position with these properties.
proof fn lemma_end_at_unique(b: Seq<u8>, i: int)
    requires
        0 <= i <= b.len(),
        i < b.len() ==> b[i] == LINE_END,
        forall|j: int| 0 <= j < i ==> b[j] != LINE_END,
    ensures
        end_at(b) == i,
    decreases b.len(),
{
    if b.len() > 0 && b[0] != LINE_END {
        lemma_end_at_unique(b.drop_first(), i - 1);
    }
}

/// Adds a line where it is text.
fn push_line(out: &mut Vec<String>, line: &[u8])
    ensures
        texts(final(out)@) == texts(old(out)@) + readable_lines(seq![line@]),
{
    let mut bytes: Vec<u8> = Vec::new();
    let mut i: usize = 0;
    while i < line.len()
        invariant
            i <= line@.len(),
            bytes@ == line@.take(i as int),
        decreases line@.len() - i,
    {
        bytes.push(line[i]);
        i += 1;
    }
    assert(bytes@ == line@);
    assert(seq![line@].drop_last() == Seq::<Seq<u8>>::empty());
    assert(readable_lines(Seq::<Seq<u8>>::empty()) == Seq::<Seq<char>>::empty());
    if let Some(text) = decoded(bytes) {
        out.push(text);
    }
    assert(texts(out@) == texts(old(out)@) + readable_lines(seq![line@]));
}

proof fn lemma_readable_both(a: Seq<Seq<u8>>, b: Seq<Seq<u8>>)
    ensures
        readable_lines(a + b) == readable_lines(a) + readable_lines(b),
    decreases b.len(),
{
    if b.len() == 0 {
        assert(a + b == a);
    } else {
        assert((a + b).drop_last() == a + b.drop_last());
        lemma_readable_both(a, b.drop_last());
    }
    assert(readable_lines(a + b) == readable_lines(a) + readable_lines(b));
}

/// The lines of a file that are text, in order.
pub fn decoded_lines(bytes: &[u8]) -> (r: Vec<String>)
    ensures
        texts(r@) == readable_lines(byte_lines(bytes@)),
{
    let ghost all = readable_lines(byte_lines(bytes@));
    let mut out: Vec<String> = Vec::new();
    let mut rest: &[u8] = bytes;
    assert(texts(out@) + all == all);
    while rest.len() > 0
        invariant
            all == readable_lines(byte_lines(bytes@)),
            texts(out@) + readable_lines(byte_lines(rest@)) == all,
        decreases rest@.len(),
    {
        let ghost before = texts(out@);
        let mut i: usize = 0;
        while i < rest.len() && rest[i] != LINE_END
            invariant
                i <= rest@.len(),
                forall|j: int| 0 <= j < i ==> rest@[j] != LINE_END,
            decreases rest@.len() - i,
        {
            i += 1;
        }
        proof {
            lemma_end_at_unique(rest@, i as int);
        }
        if i == rest.len() {
            push_line(&mut out, rest);
            return out;
        }
        let to: usize = if i > 0 && rest[i - 1] == RETURN {
            i - 1
        } else {
            i
        };
        let line = slice_subrange(rest, 0, to);
        let next = slice_subrange(rest, i + 1, rest.len());
        assert(line@ == bare(rest@.take(i as int)));
        assert(next@ == rest@.skip(i + 1));
        push_line(&mut out, line);
        proof {
            lemma_readable_both(seq![line@], byte_lines(next@));
            assert(texts(out@) + readable_lines(byte_lines(next@)) == before + readable_lines(
                byte_lines(rest@),
            ));
        }
        rest = next;
    }
    assert(texts(out@) + Seq::<Seq<char>>::empty() == texts(out@));
    out
}

/// Bytes that end with a line, and what comes after them.
proof fn lemma_lines_of_both(a: Seq<u8>, b: Seq<u8>)
    requires
        a.len() > 0 ==> a.last() == LINE_END,
    ensures
        byte_lines(a + b) == byte_lines(a) + byte_lines(b),
    decreases a.len(),
{
    let s = a + b;
    if a.len() == 0 {
        assert(s == b);
    } else {
        lemma_end_at(a);
        let i = end_at(a);
        assert(a[a.len() - 1] == LINE_END);
        assert(i < a.len());
        assert forall|j: int| 0 <= j < i implies s[j] != LINE_END by {
            assert(s[j] == a[j]);
        }
        lemma_end_at_unique(s, i);
        assert(s.take(i) == a.take(i));
        let rest = a.skip(i + 1);
        assert(s.skip(i + 1) == rest + b);
        lemma_lines_of_both(rest, b);
    }
    assert(byte_lines(s) == byte_lines(a) + byte_lines(b));
}

/// A line that is not text is skipped, and nothing else: what comes before it and
/// what comes after it are read as if it were not there.
pub proof fn law_an_undecodable_line_is_skipped(before: Seq<u8>, line: Seq<u8>, after: Seq<u8>)
    requires
        before.len() > 0 ==> before.last() == LINE_END,
        forall|j: int| 0 <= j < line.len() ==> line[j] != LINE_END,
        !valid_utf8(bare(line)),
    ensures
        readable_lines(byte_lines(before + line + seq![LINE_END] + after)) == readable_lines(
            byte_lines(before),
        ) + readable_lines(byte_lines(after)),
{
    let one = line + seq![LINE_END];
    let all = before + line + seq![LINE_END] + after;
    assert(all == before + (one + after));
    lemma_lines_of_both(before, one + after);
    lemma_lines_of_both(one, after);
    assert forall|j: int| 0 <= j < line.len() implies one[j] != LINE_END by {
        assert(one[j] == line[j]);
    }
    lemma_end_at_unique(one, line.len() as int);
    assert(one.take(line.len() as int) == line);
    assert(one.skip(line.len() as int + 1) == Seq::<u8>::empty());
    assert(byte_lines(Seq::<u8>::empty()) == Seq::<Seq<u8>>::empty());
    assert(byte_lines(one) == seq![bare(line)]);
    lemma_readable_both(byte_lines(before), byte_lines(one) + byte_lines(after));
    lemma_readable_both(byte_lines(one), byte_lines(after));
    assert(seq![bare(line)].drop_last() == Seq::<Seq<u8>>::empty());
    assert(readable_lines(Seq::<Seq<u8>>::empty()) == Seq::<Seq<char>>::empty());
    assert(readable_lines(seq![bare(line)]) == Seq::<Seq<char>>::empty());
    assert(readable_lines(byte_lines(before)) + (Seq::<Seq<char>>::empty() + readable_lines(
        byte_lines(after),
    )) == readable_lines(byte_lines(before)) + readable_lines(byte_lines(after)));
}

// ---------------------------------------------------------------------------
// Text as bytes

proof fn lemma_scalar_bytes(c: u32)
    ensures
        c < 0x80 ==> encode_scalar(c) == seq![c as u8],
        c >= 0x80 ==> encode_scalar(c).len() > 0 && forall|i: int|
            0 <= i < encode_scalar(c).len() ==> #[trigger] encode_scalar(c)[i] >= 0x80,
{
    assert(c < 0x80 ==> (c & 0x7F) as u8 == c as u8) by (bit_vector);
    assert(0xC0u8 | ((c >> 6) & 0x1F) as u8 >= 0x80) by (bit_vector);
    assert(0xE0u8 | ((c >> 12) & 0x0F) as u8 >= 0x80) by (bit_vector);
    assert(0xF0u8 | ((c >> 18) & 0x7) as u8 >= 0x80) by (bit_vector);
    assert(0x80u8 | (c & 0x3F) as u8 >= 0x80) by (bit_vector);
    assert(0x80u8 | ((c >> 6) & 0x3F) as u8 >= 0x80) by (bit_vector);
    assert(0x80u8 | ((c >> 12) & 0x3F) as u8 >= 0x80) by (bit_vector);
}

/// A line end and a return are one byte each, and no other character holds them.
proof fn lemma_char_bytes(c: char)
    ensures
        encode_scalar(c as u32).len() > 0,
        c == '\n' ==> encode_scalar(c as u32) == seq![LINE_END],
        c == '\r' ==> encode_scalar(c as u32) == seq![RETURN],
        c != '\n' ==> forall|i: int|
            0 <= i < encode_scalar(c as u32).len() ==> #[trigger] encode_scalar(c as u32)[i]
                != LINE_END,
        c != '\r' ==> forall|i: int|
            0 <= i < encode_scalar(c as u32).len() ==> #[trigger] encode_scalar(c as u32)[i]
                != RETURN,
{
    lemma_scalar_bytes(c as u32);
}

proof fn lemma_encode_both(a: Seq<char>, b: Seq<char>)
    ensures
        encode_utf8(a + b) == encode_utf8(a) + encode_utf8(b),
    decreases a.len(),
{
    if a.len() == 0 {
        assert(a + b == b);
        assert(encode_utf8(a) + encode_utf8(b) == encode_utf8(b));
    } else {
        assert((a + b).drop_first() == a.drop_first() + b);
        lemma_encode_both(a.drop_first(), b);
        assert(encode_utf8(a + b) == encode_utf8(a) + encode_utf8(b));
    }
}

/// One character more.
proof fn lemma_encode_one(c: char)
    ensures
        encode_utf8(seq![c]) == encode_scalar(c as u32),
{
    assert(seq![c].drop_first() == Seq::<char>::empty());
    assert(encode_utf8(Seq::<char>::empty()) == Seq::<u8>::empty());
    assert(encode_scalar(c as u32) + Seq::<u8>::empty() == encode_scalar(c as u32));
}

/// Text without a line end has none in its bytes.
proof fn lemma_no_line_end(s: Seq<char>)
    requires
        forall|j: int| 0 <= j < s.len() ==> s[j] != '\n',
    ensures
        forall|j: int| 0 <= j < encode_utf8(s).len() ==> encode_utf8(s)[j] != LINE_END,
        s.len() > 0 ==> encode_utf8(s).len() > 0,
    decreases s.len(),
{
    if s.len() > 0 {
        let rest = s.drop_first();
        lemma_no_line_end(rest);
        lemma_char_bytes(s[0]);
        let head = encode_scalar(s[0] as u32);
        assert forall|j: int| 0 <= j < encode_utf8(s).len() implies encode_utf8(s)[j] != LINE_END by {
            if j < head.len() {
                assert(encode_utf8(s)[j] == head[j]);
            } else {
                assert(encode_utf8(s)[j] == encode_utf8(rest)[j - head.len()]);
            }
        }
    }
}

/// A line goes without its return in bytes as it does in text.
proof fn lemma_bare(s: Seq<char>)
    ensures
        bare(encode_utf8(s)) == encode_utf8(without_return(s)),
{
    if s.len() > 0 {
        let init = s.drop_last();
        let c = s.last();
        assert(s == init + seq![c]);
        lemma_encode_both(init, seq![c]);
        lemma_encode_one(c);
        lemma_char_bytes(c);
        let b = encode_utf8(s);
        let tail = encode_scalar(c as u32);
        assert(b.last() == tail.last());
        if c == '\r' {
            assert(b.drop_last() == encode_utf8(init));
        }
    }
}

/// What was written as text is read back line by line.
pub proof fn law_text_reads_back_line_by_line(s: Seq<char>)
    ensures
        readable_lines(byte_lines(encode_utf8(s))) == lines_of(s),
    decreases s.len(),
{
    let b = encode_utf8(s);
    let i = first_at(s, '\n');
    lemma_first_at_bounds(s, '\n');
    assert(readable_lines(Seq::<Seq<u8>>::empty()) == Seq::<Seq<char>>::empty());
    if s.len() == 0 {
        assert(b == Seq::<u8>::empty());
    } else if i >= s.len() {
        lemma_no_line_end(s);
        lemma_end_at_unique(b, b.len() as int);
        assert(seq![b].drop_last() == Seq::<Seq<u8>>::empty());
        encode_utf8_valid_utf8(s);
        encode_utf8_decode_utf8(s);
        assert(readable_lines(seq![b]) == seq![s]);
    } else {
        let head = s.take(i);
        let rest = s.skip(i + 1);
        assert(s == head + (seq!['\n'] + rest));
        lemma_encode_both(head, seq!['\n'] + rest);
        lemma_encode_both(seq!['\n'], rest);
        lemma_encode_one('\n');
        lemma_char_bytes('\n');
        let h = encode_utf8(head);
        let t = encode_utf8(rest);
        assert(b == h + (seq![LINE_END] + t));
        lemma_no_line_end(head);
        assert forall|j: int| 0 <= j < h.len() implies b[j] != LINE_END by {
            assert(b[j] == h[j]);
        }
        lemma_end_at_unique(b, h.len() as int);
        assert(b.take(h.len() as int) == h);
        assert(b.skip(h.len() as int + 1) == t);
        lemma_bare(head);
        law_text_reads_back_line_by_line(rest);
        let line = without_return(head);
        let first = seq![encode_utf8(line)];
        lemma_readable_both(first, byte_lines(t));
        encode_utf8_valid_utf8(line);
        encode_utf8_decode_utf8(line);
        assert(first.drop_last() == Seq::<Seq<u8>>::empty());
        assert(readable_lines(first) == seq![line]);
    }
}

} // verus!
