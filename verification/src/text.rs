//! Text taken apart and put together, one character at a time.
//!
//! Everything this crate reads, the kernel's `uevent` files and its own two
//! history files, is lines of separated fields, so these few operations are all
//! the reading there is. Their meaning is given on sequences of characters; the
//! executable versions work on slices, so that taking a field copies nothing.

use vstd::prelude::*;
use vstd::slice::slice_subrange;

use crate::decimal::lower;

verus! {

/// `String::push` puts the character at the end of the string.
pub assume_specification[ String::push ](string: &mut String, ch: char)
    ensures
        final(string)@ == old(string)@.push(ch),
;

/// A string in lower case, as `str::to_lowercase` has it.
pub uninterp spec fn lowercase(s: Seq<char>) -> Seq<char>;

/// Nothing but ASCII characters.
pub open spec fn is_plain(s: Seq<char>) -> bool {
    forall|i: int| 0 <= i < s.len() ==> (#[trigger] s[i]) as u32 <= 127
}

/// Each of the ASCII letters in lower case, the rest unchanged.
pub open spec fn lowered(s: Seq<char>) -> Seq<char> {
    s.map_values(|c: char| lower(c))
}

/// `str::to_lowercase` gives the Unicode lower case of a string. Of a string in
/// ASCII, that is each of its letters in lower case and the rest unchanged.
#[verifier::external_body]
pub(crate) fn to_lowercase(s: &str) -> (r: String)
    ensures
        r@ == lowercase(s@),
        is_plain(s@) ==> r@ == lowered(s@),
{
    s.to_lowercase()
}

/// The characters of a string, in order.
pub fn chars_of(s: &str) -> (r: Vec<char>)
    ensures
        r@ == s@,
{
    let mut out: Vec<char> = Vec::new();
    for c in it: s.chars()
        invariant
            it.seq() == s@,
            out@ == s@.take(it.index() as int),
    {
        out.push(c);
    }
    out
}

/// A string of the given characters.
pub fn string_of(s: &[char]) -> (r: String)
    ensures
        r@ == s@,
{
    let mut out = String::new();
    let mut i: usize = 0;
    while i < s.len()
        invariant
            i <= s@.len(),
            out@ == s@.take(i as int),
        decreases s@.len() - i,
    {
        out.push(s[i]);
        i += 1;
    }
    out
}

/// Whether the slice spells exactly `word`.
pub fn same(s: &[char], word: &str) -> (r: bool)
    ensures
        r == (s@ == word@),
{
    let w = chars_of(word);
    if s.len() != w.len() {
        return false;
    }
    let mut i: usize = 0;
    while i < s.len()
        invariant
            i <= s@.len(),
            s@.len() == w@.len(),
            w@ == word@,
            forall|j: int| 0 <= j < i ==> s@[j] == w@[j],
        decreases s@.len() - i,
    {
        if s[i] != w[i] {
            return false;
        }
        i += 1;
    }
    assert(s@ =~= w@);
    true
}

/// Whether two strings spell the same.
pub fn same_str(a: &str, b: &str) -> (r: bool)
    ensures
        r == (a@ == b@),
{
    let left = chars_of(a);
    same(left.as_slice(), b)
}

// ---------------------------------------------------------------------------
// White space

/// Unicode's `White_Space` property.
pub open spec fn is_space(c: char) -> bool {
    let u = c as u32;
    ||| 0x9 <= u <= 0xd
    ||| u == 0x20
    ||| u == 0x85
    ||| u == 0xa0
    ||| u == 0x1680
    ||| 0x2000 <= u <= 0x200a
    ||| u == 0x2028
    ||| u == 0x2029
    ||| u == 0x202f
    ||| u == 0x205f
    ||| u == 0x3000
}

fn space(c: char) -> (r: bool)
    ensures
        r == is_space(c),
{
    let u: u32 = c as u32;
    (0x9 <= u && u <= 0xd) || u == 0x20 || u == 0x85 || u == 0xa0 || u == 0x1680 || (0x2000 <= u
        && u <= 0x200a) || u == 0x2028 || u == 0x2029 || u == 0x202f || u == 0x205f || u == 0x3000
}

/// `s` without its leading white space.
pub open spec fn trimmed_start(s: Seq<char>) -> Seq<char>
    decreases s.len(),
{
    if s.len() > 0 && is_space(s[0]) {
        trimmed_start(s.drop_first())
    } else {
        s
    }
}

/// `s` without its trailing white space.
pub open spec fn trimmed_end(s: Seq<char>) -> Seq<char>
    decreases s.len(),
{
    if s.len() > 0 && is_space(s.last()) {
        trimmed_end(s.drop_last())
    } else {
        s
    }
}

/// `s` without white space at either end.
pub open spec fn trimmed(s: Seq<char>) -> Seq<char> {
    trimmed_end(trimmed_start(s))
}

/// The slice without white space at either end.
pub fn trim(s: &[char]) -> (r: &[char])
    ensures
        r@ == trimmed(s@),
{
    let mut from: usize = 0;
    assert(s@.skip(0) == s@);
    while from < s.len() && space(s[from])
        invariant
            from <= s@.len(),
            trimmed_start(s@) == trimmed_start(s@.skip(from as int)),
        decreases s@.len() - from,
    {
        assert(s@.skip(from as int).drop_first() == s@.skip(from + 1));
        from += 1;
    }
    let ghost rest = s@.skip(from as int);
    assert(trimmed_start(s@) == rest);
    let mut to: usize = s.len();
    assert(rest.take(to - from) == rest);
    while to > from && space(s[to - 1])
        invariant
            from <= to <= s@.len(),
            rest == s@.skip(from as int),
            trimmed_end(rest) == trimmed_end(rest.take(to - from)),
        decreases to,
    {
        assert(rest.take(to - from).drop_last() == rest.take(to - from - 1));
        to -= 1;
    }
    assert(s@.subrange(from as int, to as int) == rest.take(to - from));
    slice_subrange(s, from, to)
}

/// Text that neither begins nor ends with white space is left alone.
pub proof fn lemma_trimmed_alone(s: Seq<char>)
    requires
        s.len() > 0 ==> !is_space(s[0]) && !is_space(s.last()),
    ensures
        trimmed(s) == s,
{
}

// ---------------------------------------------------------------------------
// Fields

/// Where `c` first occurs in `s`; the length of `s` where it does not.
pub open spec fn first_at(s: Seq<char>, c: char) -> int
    decreases s.len(),
{
    if s.len() == 0 || s[0] == c {
        0
    } else {
        1 + first_at(s.drop_first(), c)
    }
}

/// `first_at` is the only position with these properties.
pub proof fn lemma_first_at(s: Seq<char>, c: char, i: int)
    requires
        0 <= i <= s.len(),
        forall|j: int| 0 <= j < i ==> s[j] != c,
        i < s.len() ==> s[i] == c,
    ensures
        first_at(s, c) == i,
    decreases s.len(),
{
    if s.len() > 0 && s[0] != c {
        lemma_first_at(s.drop_first(), c, i - 1);
    }
}

/// What `first_at` finds, and that nothing before it is `c`.
pub proof fn lemma_first_at_bounds(s: Seq<char>, c: char)
    ensures
        0 <= first_at(s, c) <= s.len(),
        first_at(s, c) < s.len() ==> s[first_at(s, c)] == c,
        forall|j: int| 0 <= j < first_at(s, c) ==> s[j] != c,
        first_at(s, c) < s.len() <==> s.contains(c),
    decreases s.len(),
{
    if s.len() > 0 && s[0] != c {
        let rest = s.drop_first();
        lemma_first_at_bounds(rest, c);
        assert forall|j: int| 0 <= j < first_at(s, c) implies s[j] != c by {
            if j > 0 {
                assert(s[j] == rest[j - 1]);
            }
        }
        if s.contains(c) {
            let k = choose|k: int| 0 <= k < s.len() && s[k] == c;
            assert(rest[k - 1] == c);
        }
    }
}

/// Where `c` first occurs in the slice.
pub fn find(s: &[char], c: char) -> (r: usize)
    ensures
        r == first_at(s@, c),
        r <= s@.len(),
{
    let mut i: usize = 0;
    while i < s.len() && s[i] != c
        invariant
            i <= s@.len(),
            forall|j: int| 0 <= j < i ==> s@[j] != c,
        decreases s@.len() - i,
    {
        i += 1;
    }
    proof {
        lemma_first_at(s@, c, i as int);
    }
    i
}

/// The pieces of `s` between the separators: one more than there are
/// separators, any of them possibly empty.
pub open spec fn fields(s: Seq<char>, sep: char) -> Seq<Seq<char>>
    decreases s.len(),
{
    let i = first_at(s, sep);
    if i >= s.len() {
        seq![s]
    } else {
        proof {
            lemma_first_at_bounds(s, sep);
        }
        seq![s.take(i)] + fields(s.skip(i + 1), sep)
    }
}

/// The slices as the text they hold.
pub open spec fn views(v: Seq<&[char]>) -> Seq<Seq<char>> {
    v.map_values(|piece: &[char]| piece@)
}

/// The pieces of the slice between the separators.
pub fn split<'a>(s: &'a [char], sep: char) -> (r: Vec<&'a [char]>)
    ensures
        views(r@) == fields(s@, sep),
        r@.len() >= 1,
{
    let mut out: Vec<&'a [char]> = Vec::new();
    let mut rest: &'a [char] = s;
    assert(views(out@) + fields(rest@, sep) == fields(s@, sep));
    loop
        invariant
            views(out@) + fields(rest@, sep) == fields(s@, sep),
        decreases rest@.len(),
    {
        let ghost before = out@;
        let i = find(rest, sep);
        proof {
            lemma_first_at_bounds(rest@, sep);
        }
        if i == rest.len() {
            out.push(rest);
            assert(views(out@) == views(before) + seq![rest@]);
            return out;
        }
        let piece = slice_subrange(rest, 0, i);
        out.push(piece);
        let next = slice_subrange(rest, i + 1, rest.len());
        assert(piece@ == rest@.take(i as int));
        assert(next@ == rest@.skip(i + 1));
        assert(views(out@) == views(before) + seq![piece@]);
        assert(views(out@) + fields(next@, sep) == views(before) + fields(rest@, sep));
        rest = next;
    }
}

/// The pieces put back together with the separator between each two.
pub open spec fn joined(parts: Seq<Seq<char>>, sep: char) -> Seq<char>
    decreases parts.len(),
{
    if parts.len() == 0 {
        seq![]
    } else if parts.len() == 1 {
        parts[0]
    } else {
        parts[0] + seq![sep] + joined(parts.drop_first(), sep)
    }
}

/// Pieces free of the separator come back out of the text they were joined to.
pub proof fn lemma_fields_of_joined(parts: Seq<Seq<char>>, sep: char)
    requires
        parts.len() > 0,
        forall|i: int| 0 <= i < parts.len() ==> !(#[trigger] parts[i]).contains(sep),
    ensures
        fields(joined(parts, sep), sep) == parts,
    decreases parts.len(),
{
    let s = joined(parts, sep);
    let head = parts[0];
    lemma_first_at_bounds(s, sep);
    if parts.len() == 1 {
        assert(!s.contains(sep));
        assert(fields(s, sep) == seq![s]);
        assert(parts == seq![s]);
    } else {
        let rest = parts.drop_first();
        assert forall|j: int| 0 <= j < head.len() implies s[j] != sep by {
            assert(s[j] == head[j]);
        }
        lemma_first_at(s, sep, head.len() as int);
        assert(s.take(head.len() as int) == head);
        assert(s.skip(head.len() as int + 1) == joined(rest, sep));
        assert forall|i: int| 0 <= i < rest.len() implies !(#[trigger] rest[i]).contains(sep) by {
            assert(rest[i] == parts[i + 1]);
        }
        lemma_fields_of_joined(rest, sep);
        assert(parts == seq![head] + rest);
    }
}

/// The pieces of two texts with a separator between them are the pieces of each.
pub proof fn lemma_fields_of_both(a: Seq<char>, b: Seq<char>, sep: char)
    ensures
        fields(a + seq![sep] + b, sep) == fields(a, sep) + fields(b, sep),
    decreases a.len(),
{
    let s = a + seq![sep] + b;
    lemma_first_at_bounds(a, sep);
    let i = first_at(a, sep);
    assert forall|j: int| 0 <= j < i implies s[j] != sep by {
        assert(s[j] == a[j]);
    }
    lemma_first_at(s, sep, i);
    assert(s.take(i) == a.take(i));
    if i < a.len() {
        let rest = a.skip(i + 1);
        lemma_fields_of_both(rest, b, sep);
        assert(s.skip(i + 1) == rest + seq![sep] + b);
        assert(fields(s, sep) == seq![a.take(i)] + (fields(rest, sep) + fields(b, sep)));
    } else {
        assert(a.take(i) == a);
        assert(s.skip(i + 1) == b);
    }
    assert(fields(s, sep) == fields(a, sep) + fields(b, sep));
}

/// `s` cut at the first `c`, which belongs to neither half; `None` without one.
pub open spec fn cut(s: Seq<char>, c: char) -> Option<(Seq<char>, Seq<char>)> {
    let i = first_at(s, c);
    if i < s.len() {
        Some((s.take(i), s.skip(i + 1)))
    } else {
        None
    }
}

/// The two halves of the slice around the first `c`.
pub fn split_once<'a>(s: &'a [char], c: char) -> (r: Option<(&'a [char], &'a [char])>)
    ensures
        match r {
            Some((a, b)) => cut(s@, c) == Some((a@, b@)),
            None => cut(s@, c) is None,
        },
{
    let i = find(s, c);
    if i < s.len() {
        let left = slice_subrange(s, 0, i);
        let right = slice_subrange(s, i + 1, s.len());
        assert(left@ == s@.take(i as int));
        assert(right@ == s@.skip(i + 1));
        Some((left, right))
    } else {
        None
    }
}

/// `s` without `prefix` in front, however many times it stands there.
pub open spec fn without_prefix(s: Seq<char>, prefix: Seq<char>) -> Seq<char>
    decreases s.len(),
{
    if 0 < prefix.len() <= s.len() && s.take(prefix.len() as int) == prefix {
        without_prefix(s.skip(prefix.len() as int), prefix)
    } else {
        s
    }
}

/// The slice without `prefix` in front, however many times it stands there.
pub fn strip_prefixes<'a>(s: &'a [char], prefix: &str) -> (r: &'a [char])
    requires
        prefix@.len() > 0,
    ensures
        r@ == without_prefix(s@, prefix@),
{
    let p = chars_of(prefix);
    let mut rest: &'a [char] = s;
    while rest.len() >= p.len() && same(slice_subrange(rest, 0, p.len()), prefix)
        invariant
            p@ == prefix@,
            p@.len() > 0,
            without_prefix(rest@, prefix@) == without_prefix(s@, prefix@),
        decreases rest@.len(),
    {
        let next = slice_subrange(rest, p.len(), rest.len());
        assert(next@ == rest@.skip(p@.len() as int));
        assert(rest@.take(p@.len() as int) == rest@.subrange(0, p@.len() as int));
        rest = next;
    }
    proof {
        if rest@.len() >= p@.len() {
            assert(rest@.take(p@.len() as int) == rest@.subrange(0, p@.len() as int));
        }
    }
    rest
}

// ---------------------------------------------------------------------------
// Lines

/// A line as it stands before its `\n`: a `\r` right before that goes too.
pub open spec fn without_return(s: Seq<char>) -> Seq<char> {
    if s.len() > 0 && s.last() == '\r' {
        s.drop_last()
    } else {
        s
    }
}

/// The lines of a text. A line ends with `\n` or `\r\n`; the last one need not.
pub open spec fn lines_of(s: Seq<char>) -> Seq<Seq<char>>
    decreases s.len(),
{
    let i = first_at(s, '\n');
    if s.len() == 0 {
        seq![]
    } else if i >= s.len() {
        seq![s]
    } else {
        proof {
            lemma_first_at_bounds(s, '\n');
        }
        seq![without_return(s.take(i))] + lines_of(s.skip(i + 1))
    }
}

/// A line put behind a text that ends with a line is one line more.
pub proof fn lemma_lines_of_more(s: Seq<char>, line: Seq<char>)
    requires
        s.len() > 0 ==> s.last() == '\n',
        !line.contains('\n'),
        line.len() > 0 ==> line.last() != '\r',
    ensures
        lines_of(s + line.push('\n')) == lines_of(s).push(line),
    decreases s.len(),
{
    let t = s + line.push('\n');
    if s.len() == 0 {
        assert(t == line.push('\n'));
        assert forall|j: int| 0 <= j < line.len() implies t[j] != '\n' by {
            assert(t[j] == line[j]);
        }
        lemma_first_at(t, '\n', line.len() as int);
        assert(t.take(line.len() as int) == line);
        assert(t.skip(line.len() as int + 1) == Seq::<char>::empty());
        assert(lines_of(Seq::<char>::empty()) == Seq::<Seq<char>>::empty());
        assert(lines_of(t) == seq![line]);
        assert(lines_of(s).push(line) == seq![line]);
    } else {
        let i = first_at(s, '\n');
        lemma_first_at_bounds(s, '\n');
        assert(s[s.len() - 1] == '\n');
        assert forall|j: int| 0 <= j < i implies t[j] != '\n' by {
            assert(t[j] == s[j]);
        }
        lemma_first_at(t, '\n', i);
        let rest = s.skip(i + 1);
        assert(t.take(i) == s.take(i));
        assert(t.skip(i + 1) == rest + line.push('\n'));
        lemma_lines_of_more(rest, line);
        assert(lines_of(t) == lines_of(s).push(line));
    }
}

/// The lines of a text.
pub fn lines<'a>(s: &'a [char]) -> (r: Vec<&'a [char]>)
    ensures
        views(r@) == lines_of(s@),
{
    let mut out: Vec<&'a [char]> = Vec::new();
    let mut rest: &'a [char] = s;
    assert(views(out@) + lines_of(rest@) == lines_of(s@));
    while rest.len() > 0
        invariant
            views(out@) + lines_of(rest@) == lines_of(s@),
        decreases rest@.len(),
    {
        let ghost before = out@;
        let i = find(rest, '\n');
        proof {
            lemma_first_at_bounds(rest@, '\n');
        }
        if i == rest.len() {
            out.push(rest);
            assert(views(out@) == views(before) + seq![rest@]);
            return out;
        }
        let to: usize = if i > 0 && rest[i - 1] == '\r' {
            i - 1
        } else {
            i
        };
        let line = slice_subrange(rest, 0, to);
        out.push(line);
        let next = slice_subrange(rest, i + 1, rest.len());
        assert(line@ == without_return(rest@.take(i as int)));
        assert(next@ == rest@.skip(i + 1));
        assert(views(out@) == views(before) + seq![line@]);
        assert(views(out@) + lines_of(next@) == views(before) + lines_of(rest@));
        rest = next;
    }
    assert(lines_of(rest@) == Seq::<Seq<char>>::empty());
    assert(views(out@) + Seq::<Seq<char>>::empty() == views(out@));
    out
}

// ---------------------------------------------------------------------------
// The order of texts

/// Whether `a` comes before `b`: by the first character in which they differ, a
/// text before what it is the beginning of.
pub open spec fn before(a: Seq<char>, b: Seq<char>) -> bool
    decreases a.len(),
{
    if b.len() == 0 {
        false
    } else if a.len() == 0 {
        true
    } else {
        a[0] < b[0] || a[0] == b[0] && before(a.drop_first(), b.drop_first())
    }
}

pub proof fn lemma_before_carries_over(a: Seq<char>, b: Seq<char>, c: Seq<char>)
    requires
        before(a, b),
        before(b, c),
    ensures
        before(a, c),
    decreases a.len(),
{
    if a.len() > 0 && a[0] == b[0] && b[0] == c[0] {
        lemma_before_carries_over(a.drop_first(), b.drop_first(), c.drop_first());
    }
}

pub proof fn lemma_one_is_before(a: Seq<char>, b: Seq<char>)
    ensures
        before(a, b) || before(b, a) || a == b,
        !(before(a, b) && before(b, a)),
        a == b ==> !before(a, b),
    decreases a.len(),
{
    if a.len() > 0 && b.len() > 0 && a[0] == b[0] {
        lemma_one_is_before(a.drop_first(), b.drop_first());
        if a.drop_first() == b.drop_first() {
            assert(a == seq![a[0]] + a.drop_first());
            assert(b == seq![b[0]] + b.drop_first());
        }
    } else if a.len() == 0 && b.len() == 0 {
        assert(a == b);
    }
}

/// Whether `a` comes before `b`.
pub fn is_before(a: &str, b: &str) -> (r: bool)
    ensures
        r == before(a@, b@),
{
    let left = chars_of(a);
    let right = chars_of(b);
    let mut i: usize = 0;
    assert(a@.skip(0) == a@ && b@.skip(0) == b@);
    while i < left.len() && i < right.len()
        invariant
            left@ == a@,
            right@ == b@,
            i <= a@.len(),
            i <= b@.len(),
            before(a@, b@) == before(a@.skip(i as int), b@.skip(i as int)),
        decreases a@.len() - i,
    {
        assert(a@.skip(i as int)[0] == a@[i as int] && b@.skip(i as int)[0] == b@[i as int]);
        if left[i] != right[i] {
            return left[i] < right[i];
        }
        assert(a@.skip(i as int).drop_first() == a@.skip(i + 1));
        assert(b@.skip(i as int).drop_first() == b@.skip(i + 1));
        i += 1;
    }
    i < right.len()
}

// ---------------------------------------------------------------------------
// What these operations leave

/// Text is trimmed of white space at both ends and of nothing else: what is left
/// stands in it, with nothing but white space around, and neither begins nor ends
/// with any.
pub proof fn law_trimming_takes_white_space(s: Seq<char>)
    ensures
        exists|i: int, j: int|
            {
                &&& 0 <= i <= j <= s.len()
                &&& trimmed(s) == #[trigger] s.subrange(i, j)
                &&& forall|k: int| 0 <= k < i ==> is_space(#[trigger] s[k])
                &&& forall|k: int| j <= k < s.len() ==> is_space(#[trigger] s[k])
            },
        trimmed(s).len() > 0 ==> !is_space(trimmed(s)[0]) && !is_space(trimmed(s).last()),
{
    let i = lemma_start(s);
    let rest = s.skip(i);
    let n = lemma_end(rest);
    let j = i + n;
    assert(rest.take(n) == s.subrange(i, j));
    assert forall|k: int| j <= k < s.len() implies is_space(#[trigger] s[k]) by {
        assert(rest[k - i] == s[k]);
    }
    assert(trimmed(s) == s.subrange(i, j));
    if trimmed(s).len() > 0 {
        assert(trimmed(s)[0] == rest[0]);
    }
}

proof fn lemma_start(s: Seq<char>) -> (i: int)
    ensures
        0 <= i <= s.len(),
        trimmed_start(s) == s.skip(i),
        forall|k: int| 0 <= k < i ==> is_space(#[trigger] s[k]),
        i < s.len() ==> !is_space(s[i]),
    decreases s.len(),
{
    if s.len() > 0 && is_space(s[0]) {
        let rest = s.drop_first();
        let i = lemma_start(rest);
        assert(rest.skip(i) == s.skip(i + 1));
        assert forall|k: int| 0 <= k < i + 1 implies is_space(#[trigger] s[k]) by {
            if k > 0 {
                assert(rest[k - 1] == s[k]);
            }
        }
        i + 1
    } else {
        assert(s.skip(0) == s);
        0
    }
}

proof fn lemma_end(s: Seq<char>) -> (n: int)
    ensures
        0 <= n <= s.len(),
        trimmed_end(s) == s.take(n),
        forall|k: int| n <= k < s.len() ==> is_space(#[trigger] s[k]),
        n > 0 ==> !is_space(s[n - 1]),
    decreases s.len(),
{
    if s.len() > 0 && is_space(s.last()) {
        let rest = s.drop_last();
        let n = lemma_end(rest);
        assert(rest.take(n) == s.take(n));
        assert forall|k: int| n <= k < s.len() implies is_space(#[trigger] s[k]) by {
            if k < rest.len() {
                assert(rest[k] == s[k]);
            }
        }
        n
    } else {
        assert(s.take(s.len() as int) == s);
        s.len() as int
    }
}

/// The pieces between separators, put back together, are the text; and none of
/// them holds a separator.
pub proof fn law_pieces_make_the_whole(s: Seq<char>, sep: char)
    ensures
        joined(fields(s, sep), sep) == s,
        fields(s, sep).len() > 0,
        forall|k: int| 0 <= k < fields(s, sep).len() ==> !(#[trigger] fields(s, sep)[k]).contains(
            sep,
        ),
    decreases s.len(),
{
    lemma_first_at_bounds(s, sep);
    let i = first_at(s, sep);
    let all = fields(s, sep);
    if i >= s.len() {
        assert(all == seq![s]);
    } else {
        let rest = s.skip(i + 1);
        law_pieces_make_the_whole(rest, sep);
        assert(all.drop_first() == fields(rest, sep));
        assert(s == s.take(i) + seq![sep] + rest);
        assert forall|k: int| 0 <= k < all.len() implies !(#[trigger] all[k]).contains(sep) by {
            if k == 0 {
                if all[0].contains(sep) {
                    let j = choose|j: int| 0 <= j < i && all[0][j] == sep;
                    assert(s[j] == sep);
                }
            } else {
                assert(all[k] == fields(rest, sep)[k - 1]);
            }
        }
    }
}

/// Text is cut at the first of its separators.
pub proof fn law_text_is_cut_at_the_first(a: Seq<char>, b: Seq<char>, c: char)
    requires
        !a.contains(c),
    ensures
        cut(a + seq![c] + b, c) == Some((a, b)),
        cut(a, c) is None,
{
    let s = a + seq![c] + b;
    assert forall|j: int| 0 <= j < a.len() implies a[j] != c by {
        assert(a.contains(a[j]));
    }
    assert forall|j: int| 0 <= j < a.len() implies s[j] != c by {
        assert(s[j] == a[j]);
    }
    lemma_first_at(s, c, a.len() as int);
    lemma_first_at(a, c, a.len() as int);
    assert(s.take(a.len() as int) == a);
    assert(s.skip(a.len() as int + 1) == b);
}

/// A line ends at the first line end, which is not part of it, nor is a return
/// right before it; what comes after are the lines after it. A last line need not
/// end.
pub proof fn law_a_line_ends_at_its_line_end(line: Seq<char>, rest: Seq<char>)
    requires
        !line.contains('\n'),
    ensures
        lines_of(Seq::<char>::empty()).len() == 0,
        line.len() > 0 ==> lines_of(line) == seq![line],
        line.len() > 0 && line.last() == '\r' ==> lines_of(line + seq!['\n'] + rest) == seq![
            line.drop_last(),
        ] + lines_of(rest),
        line.len() == 0 || line.last() != '\r' ==> lines_of(line + seq!['\n'] + rest) == seq![
            line,
        ] + lines_of(rest),
{
    let s = line + seq!['\n'] + rest;
    assert forall|j: int| 0 <= j < line.len() implies line[j] != '\n' by {
        assert(line.contains(line[j]));
    }
    assert forall|j: int| 0 <= j < line.len() implies s[j] != '\n' by {
        assert(s[j] == line[j]);
    }
    lemma_first_at(s, '\n', line.len() as int);
    lemma_first_at(line, '\n', line.len() as int);
    assert(s.take(line.len() as int) == line);
    assert(s.skip(line.len() as int + 1) == rest);
}

/// Of two texts that differ, the one with the smaller character at the first place
/// where they do comes first; a text comes before what it begins.
pub proof fn law_texts_are_ordered_by_where_they_differ(
    head: Seq<char>,
    a: Seq<char>,
    b: Seq<char>,
)
    requires
        a.len() > 0 && b.len() > 0 ==> a[0] != b[0],
    ensures
        before(head + a, head + b) <==> b.len() > 0 && (a.len() == 0 || a[0] < b[0]),
    decreases head.len(),
{
    if head.len() == 0 {
        assert(head + a == a);
        assert(head + b == b);
    } else {
        assert((head + a).drop_first() == head.drop_first() + a);
        assert((head + b).drop_first() == head.drop_first() + b);
        law_texts_are_ordered_by_where_they_differ(head.drop_first(), a, b);
    }
}

} // verus!
