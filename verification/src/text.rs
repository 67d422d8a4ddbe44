//! Reading puzzle input: splitting bytes into pieces and reading decimal
//! numbers from them.

use vstd::prelude::*;

verus! {

/// The views of a list of byte vectors.
pub open spec fn views(rows: Seq<Vec<u8>>) -> Seq<Seq<u8>> {
    Seq::new(rows.len(), |i: int| rows[i]@)
}

/// Pushing a row appends its view.
pub proof fn lemma_views_push(rows: Seq<Vec<u8>>, row: Vec<u8>)
    ensures
        views(rows.push(row)) == views(rows).push(row@),
{
    assert(views(rows.push(row)) =~= views(rows).push(row@));
}

/// The position of the first `sep` at or after `from`, or the length of `s`
/// where there is none.
pub open spec fn first_at(s: Seq<u8>, sep: u8, from: int) -> int
    decreases s.len() - from,
{
    if from < 0 || from >= s.len() {
        s.len() as int
    } else if s[from] == sep {
        from
    } else {
        first_at(s, sep, from + 1)
    }
}

/// The first separator at or after `from` is not before `from` nor beyond
/// the end, nothing before it is a separator, and it is one itself.
pub proof fn lemma_first_at(s: Seq<u8>, sep: u8, from: int)
    requires
        0 <= from <= s.len(),
    ensures
        from <= first_at(s, sep, from) <= s.len(),
        first_at(s, sep, from) < s.len() ==> s[first_at(s, sep, from)] == sep,
        forall|i: int| from <= i < first_at(s, sep, from) ==> s[i] != sep,
    decreases s.len() - from,
{
    if from < s.len() && s[from] != sep {
        lemma_first_at(s, sep, from + 1);
    }
}

/// The pieces of `s` from position `from` on, as `sep` separates them. A
/// separator at the very end leaves an empty last piece.
pub open spec fn pieces_from(s: Seq<u8>, sep: u8, from: int) -> Seq<Seq<u8>>
    decreases s.len() - from,
{
    if from < 0 || from > s.len() {
        Seq::empty()
    } else {
        let end = first_at(s, sep, from);
        if end >= s.len() {
            seq![s.subrange(from, s.len() as int)]
        } else {
            proof {
                lemma_first_at(s, sep, from);
            }
            seq![s.subrange(from, end)] + pieces_from(s, sep, end + 1)
        }
    }
}

/// The pieces of `s` between occurrences of `sep`.
pub open spec fn pieces(s: Seq<u8>, sep: u8) -> Seq<Seq<u8>> {
    pieces_from(s, sep, 0)
}

/// `line` without one carriage return at its end.
pub open spec fn without_cr(line: Seq<u8>) -> Seq<u8> {
    if line.len() > 0 && line.last() == 13 {
        line.drop_last()
    } else {
        line
    }
}

/// The lines of a text: its pieces between line feeds. A piece that a line
/// feed ends is without one carriage return before that line feed; a last
/// piece that no line feed ends stands as it is. A text that ends in a line
/// feed has no empty last line.
pub open spec fn lines_of(s: Seq<u8>) -> Seq<Seq<u8>> {
    let parts = pieces(s, 10);
    let count = if parts.last().len() == 0 {
        parts.len() - 1
    } else {
        parts.len() as int
    };
    Seq::new(
        count as nat,
        |i: int|
            if i + 1 < parts.len() {
                without_cr(parts[i])
            } else {
                parts[i]
            },
    )
}

/// An ASCII whitespace byte.
pub open spec fn is_blank(b: u8) -> bool {
    b == 32 || (9 <= b <= 13)
}

/// `s` without the blanks at its end.
pub open spec fn trim_end(s: Seq<u8>) -> Seq<u8>
    decreases s.len(),
{
    if s.len() > 0 && is_blank(s.last()) {
        trim_end(s.drop_last())
    } else {
        s
    }
}

/// `s` without the blanks at its start.
pub open spec fn trim_start(s: Seq<u8>) -> Seq<u8>
    decreases s.len(),
{
    if s.len() > 0 && is_blank(s.first()) {
        trim_start(s.drop_first())
    } else {
        s
    }
}

/// `s` without the blanks around it.
pub open spec fn trimmed(s: Seq<u8>) -> Seq<u8> {
    trim_end(trim_start(s))
}

/// `s` without the bytes `b` at its start.
pub open spec fn strip_start(s: Seq<u8>, b: u8) -> Seq<u8>
    decreases s.len(),
{
    if s.len() > 0 && s.first() == b {
        strip_start(s.drop_first(), b)
    } else {
        s
    }
}

/// `s` without the bytes `b` at its end.
pub open spec fn strip_end(s: Seq<u8>, b: u8) -> Seq<u8>
    decreases s.len(),
{
    if s.len() > 0 && s.last() == b {
        strip_end(s.drop_last(), b)
    } else {
        s
    }
}

/// A decimal digit.
pub open spec fn is_digit(b: u8) -> bool {
    48 <= b <= 57
}

/// `s` consists of decimal digits, at least one.
pub open spec fn all_digits(s: Seq<u8>) -> bool {
    s.len() > 0 && forall|i: int| 0 <= i < s.len() ==> is_digit(#[trigger] s[i])
}

/// The number that the decimal digits of `s` write.
pub open spec fn digits_value(s: Seq<u8>) -> nat
    decreases s.len(),
{
    if s.len() == 0 {
        0
    } else {
        digits_value(s.drop_last()) * 10 + (s.last() - 48) as nat
    }
}

/// `s` without a plus sign at its start.
pub open spec fn unsigned_part(s: Seq<u8>) -> Seq<u8> {
    if s.len() > 0 && s[0] == 43 {
        s.subrange(1, s.len() as int)
    } else {
        s
    }
}

/// The number written by `s`: decimal digits, with or without a plus sign
/// before them, that fit 64 bits. `None` for anything else.
pub open spec fn number_of(s: Seq<u8>) -> Option<u64> {
    let digits = unsigned_part(s);
    if all_digits(digits) && digits_value(digits) <= u64::MAX {
        Some(digits_value(digits) as u64)
    } else {
        None
    }
}

/// The value of a digit string is no less than that of any of its prefixes.
pub proof fn lemma_digits_value_prefix(s: Seq<u8>, k: int)
    requires
        0 <= k <= s.len(),
        forall|i: int| 0 <= i < s.len() ==> is_digit(#[trigger] s[i]),
    ensures
        digits_value(s.take(k)) <= digits_value(s),
    decreases s.len(),
{
    if k < s.len() {
        let rest = s.drop_last();
        lemma_digits_value_prefix(rest, k);
        assert(rest.take(k) == s.take(k));
        assert(is_digit(s[s.len() - 1]));
    } else {
        assert(s.take(k) == s);
    }
}

/// The two parts of `s` around its first `sep`. `None` where `s` holds no
/// `sep`.
pub open spec fn halves(s: Seq<u8>, sep: u8) -> Option<(Seq<u8>, Seq<u8>)> {
    let at = first_at(s, sep, 0);
    if at < s.len() {
        Some((s.subrange(0, at), s.subrange(at + 1, s.len() as int)))
    } else {
        None
    }
}

/// The position of the first empty line at or after `from`: of the first
/// line feed that another follows directly. The length of `s` where there is
/// none.
pub open spec fn first_gap(s: Seq<u8>, from: int) -> int
    decreases s.len() - from,
{
    if from < 0 || from + 1 >= s.len() {
        s.len() as int
    } else if s[from] == 10 && s[from + 1] == 10 {
        from
    } else {
        first_gap(s, from + 1)
    }
}

/// The two parts of a text around its first empty line. `None` where it has
/// none.
pub open spec fn sections(s: Seq<u8>) -> Option<(Seq<u8>, Seq<u8>)> {
    let at = first_gap(s, 0);
    if at < s.len() {
        Some((s.subrange(0, at), s.subrange(at + 2, s.len() as int)))
    } else {
        None
    }
}

/// The position of the first `a` at or after `from` that `b` follows
/// directly, or the length of `s` where there is none.
pub open spec fn first_pair(s: Seq<u8>, a: u8, b: u8, from: int) -> int
    decreases s.len() - from,
{
    if from < 0 || from + 1 >= s.len() {
        s.len() as int
    } else if s[from] == a && s[from + 1] == b {
        from
    } else {
        first_pair(s, a, b, from + 1)
    }
}

/// The two parts of `s` around its first `a` that `b` follows directly.
/// `None` where there is none.
pub open spec fn halves_at_pair(s: Seq<u8>, a: u8, b: u8) -> Option<(Seq<u8>, Seq<u8>)> {
    let at = first_pair(s, a, b, 0);
    if at < s.len() {
        Some((s.subrange(0, at), s.subrange(at + 2, s.len() as int)))
    } else {
        None
    }
}

/// The first empty line at or after `from` is not before `from`, and the
/// two line feeds that make it lie within the text.
pub proof fn lemma_first_gap(s: Seq<u8>, from: int)
    requires
        0 <= from <= s.len(),
    ensures
        from <= first_gap(s, from) <= s.len(),
        first_gap(s, from) < s.len() ==> first_gap(s, from) + 2 <= s.len(),
    decreases s.len() - from,
{
    if from + 1 < s.len() && !(s[from] == 10 && s[from + 1] == 10) {
        lemma_first_gap(s, from + 1);
    }
}

/// Where the last section of a text starts, looking from `from` on:
/// sections are what empty lines separate, found from the start of the text
/// onwards.
pub open spec fn last_section_start(s: Seq<u8>, from: int) -> int
    decreases s.len() - from,
{
    if from < 0 || from > s.len() {
        from
    } else {
        let gap = first_gap(s, from);
        if gap >= s.len() || gap < from {
            from
        } else {
            proof {
                lemma_first_gap(s, from);
            }
            last_section_start(s, gap + 2)
        }
    }
}

/// The last section of a text: what follows its last empty line.
pub open spec fn last_section(s: Seq<u8>) -> Seq<u8> {
    s.subrange(last_section_start(s, 0), s.len() as int)
}

/// The position of the first blank at or after `from`, or the length of `s`
/// where there is none.
pub open spec fn first_blank(s: Seq<u8>, from: int) -> int
    decreases s.len() - from,
{
    if from < 0 || from >= s.len() {
        s.len() as int
    } else if is_blank(s[from]) {
        from
    } else {
        first_blank(s, from + 1)
    }
}

/// The position of the first byte at or after `from` that is no blank, or
/// the length of `s` where there is none.
pub open spec fn first_mark(s: Seq<u8>, from: int) -> int
    decreases s.len() - from,
{
    if from < 0 || from >= s.len() {
        s.len() as int
    } else if !is_blank(s[from]) {
        from
    } else {
        first_mark(s, from + 1)
    }
}

/// A word starts no earlier than the search for it, and ends after it
/// starts.
pub proof fn lemma_word_bounds(s: Seq<u8>, from: int)
    requires
        0 <= from <= s.len(),
    ensures
        from <= first_mark(s, from) <= s.len(),
        from <= first_blank(s, from) <= s.len(),
        from < s.len() && !is_blank(s[from]) ==> from < first_blank(s, from),
        first_mark(s, from) < s.len() ==> !is_blank(s[first_mark(s, from)]),
    decreases s.len() - from,
{
    if from < s.len() {
        lemma_word_bounds(s, from + 1);
    }
}

/// The words of `s` from `from` on: the stretches without blanks.
pub open spec fn words_from(s: Seq<u8>, from: int) -> Seq<Seq<u8>>
    decreases s.len() - from,
{
    if from < 0 || from >= s.len() {
        Seq::empty()
    } else {
        let start = first_mark(s, from);
        if start >= s.len() {
            Seq::empty()
        } else {
            let end = first_blank(s, start);
            proof {
                lemma_word_bounds(s, from);
                lemma_word_bounds(s, start);
            }
            seq![s.subrange(start, end)] + words_from(s, end)
        }
    }
}

/// The words of `s`: its stretches without blanks.
pub open spec fn words_of(s: Seq<u8>) -> Seq<Seq<u8>> {
    words_from(s, 0)
}

/// The number written by `s`, blanks around it set aside.
pub open spec fn padded_number_of(s: Seq<u8>) -> Option<u64> {
    number_of(trimmed(s))
}

/// Copies the bytes of `bytes` from `from` up to `to`.
pub fn copy_range(bytes: &[u8], from: usize, to: usize) -> (out: Vec<u8>)
    requires
        from <= to <= bytes@.len(),
    ensures
        out@ == bytes@.subrange(from as int, to as int),
{
    let mut out: Vec<u8> = Vec::new();
    let mut i: usize = from;
    while i < to
        invariant
            from <= i <= to <= bytes@.len(),
            out@ == bytes@.subrange(from as int, i as int),
        decreases to - i,
    {
        out.push(bytes[i]);
        proof {
            assert(bytes@.subrange(from as int, i + 1) == bytes@.subrange(
                from as int,
                i as int,
            ).push(bytes@[i as int]));
        }
        i = i + 1;
    }
    out
}

/// Splits `bytes` into the pieces between occurrences of `sep`.
pub fn split_on(bytes: &[u8], sep: u8) -> (out: Vec<Vec<u8>>)
    ensures
        views(out@) == pieces(bytes@, sep),
        out@.len() >= 1,
{
    let n: usize = bytes.len();
    let mut out: Vec<Vec<u8>> = Vec::new();
    let mut start: usize = 0;
    let mut i: usize = 0;
    proof {
        assert(views(out@) + pieces_from(bytes@, sep, 0) == pieces(bytes@, sep));
    }
    while i < n
        invariant
            start <= i <= n,
            n == bytes@.len(),
            first_at(bytes@, sep, start as int) == first_at(bytes@, sep, i as int),
            views(out@) + pieces_from(bytes@, sep, start as int) == pieces(bytes@, sep),
        decreases n - i,
    {
        if bytes[i] == sep {
            let piece = copy_range(bytes, start, i);
            proof {
                lemma_views_push(out@, piece);
                let rest = pieces_from(bytes@, sep, i + 1);
                assert(pieces_from(bytes@, sep, start as int) == seq![piece@] + rest);
                assert(views(out@).push(piece@) + rest == views(out@) + (seq![piece@] + rest));
            }
            out.push(piece);
            start = i + 1;
        }
        i = i + 1;
    }
    let piece = copy_range(bytes, start, n);
    proof {
        lemma_views_push(out@, piece);
        assert(pieces_from(bytes@, sep, start as int) == seq![piece@]);
        assert(views(out@).push(piece@) == views(out@) + seq![piece@]);
    }
    out.push(piece);
    out
}

/// Splits `bytes` at its first `sep`.
pub fn split_once(bytes: &[u8], sep: u8) -> (r: Option<(Vec<u8>, Vec<u8>)>)
    ensures
        match r {
            Some(parts) => halves(bytes@, sep) == Some((parts.0@, parts.1@)),
            None => halves(bytes@, sep).is_none(),
        },
{
    let n: usize = bytes.len();
    let mut i: usize = 0;
    while i < n
        invariant
            i <= n,
            n == bytes@.len(),
            first_at(bytes@, sep, 0) == first_at(bytes@, sep, i as int),
        decreases n - i,
    {
        if bytes[i] == sep {
            let left = copy_range(bytes, 0, i);
            let right = copy_range(bytes, i + 1, n);
            return Some((left, right));
        }
        i = i + 1;
    }
    None
}

/// Splits a text at its first empty line.
pub fn split_sections(bytes: &[u8]) -> (r: Option<(Vec<u8>, Vec<u8>)>)
    ensures
        match r {
            Some(parts) => sections(bytes@) == Some((parts.0@, parts.1@)),
            None => sections(bytes@).is_none(),
        },
{
    let n: usize = bytes.len();
    let mut i: usize = 0;
    while i < n && i + 1 < n
        invariant
            i <= n,
            n == bytes@.len(),
            first_gap(bytes@, 0) == first_gap(bytes@, i as int),
        decreases n - i,
    {
        if bytes[i] == 10 && bytes[i + 1] == 10 {
            let left = copy_range(bytes, 0, i);
            let right = copy_range(bytes, i + 2, n);
            return Some((left, right));
        }
        i = i + 1;
    }
    None
}

/// Splits `bytes` at its first `a` that `b` follows directly.
pub fn split_once_pair(bytes: &[u8], a: u8, b: u8) -> (r: Option<(Vec<u8>, Vec<u8>)>)
    ensures
        match r {
            Some(parts) => halves_at_pair(bytes@, a, b) == Some((parts.0@, parts.1@)),
            None => halves_at_pair(bytes@, a, b).is_none(),
        },
{
    let n: usize = bytes.len();
    let mut i: usize = 0;
    while i < n && i + 1 < n
        invariant
            i <= n,
            n == bytes@.len(),
            first_pair(bytes@, a, b, 0) == first_pair(bytes@, a, b, i as int),
        decreases n - i,
    {
        if bytes[i] == a && bytes[i + 1] == b {
            let left = copy_range(bytes, 0, i);
            let right = copy_range(bytes, i + 2, n);
            return Some((left, right));
        }
        i = i + 1;
    }
    None
}

/// Copies the last section of a text.
pub fn copy_last_section(bytes: &[u8]) -> (out: Vec<u8>)
    ensures
        out@ == last_section(bytes@),
{
    let n: usize = bytes.len();
    let mut start: usize = 0;
    let mut i: usize = 0;
    while i < n && i + 1 < n
        invariant
            start <= i <= n,
            n == bytes@.len(),
            first_gap(bytes@, start as int) == first_gap(bytes@, i as int),
            last_section_start(bytes@, 0) == last_section_start(bytes@, start as int),
        decreases n - i,
    {
        if bytes[i] == 10 && bytes[i + 1] == 10 {
            start = i + 2;
            i = i + 2;
        } else {
            i = i + 1;
        }
    }
    copy_range(bytes, start, n)
}

/// Splits `bytes` into its words.
pub fn split_whitespace(bytes: &[u8]) -> (out: Vec<Vec<u8>>)
    ensures
        views(out@) == words_of(bytes@),
{
    let n: usize = bytes.len();
    let mut out: Vec<Vec<u8>> = Vec::new();
    let mut i: usize = 0;
    proof {
        assert(views(out@) + words_from(bytes@, 0) == words_of(bytes@));
    }
    while i < n
        invariant
            i <= n,
            n == bytes@.len(),
            views(out@) + words_from(bytes@, i as int) == words_of(bytes@),
        decreases n - i,
    {
        let mut start: usize = i;
        while start < n && blank(bytes[start])
            invariant
                i <= start <= n,
                n == bytes@.len(),
                first_mark(bytes@, i as int) == first_mark(bytes@, start as int),
            decreases n - start,
        {
            start = start + 1;
        }
        if start >= n {
            proof {
                assert(words_from(bytes@, i as int) == Seq::<Seq<u8>>::empty());
                assert(views(out@) + Seq::<Seq<u8>>::empty() == views(out@));
            }
            return out;
        }
        let mut end: usize = start;
        while end < n && !blank(bytes[end])
            invariant
                start <= end <= n,
                n == bytes@.len(),
                first_blank(bytes@, start as int) == first_blank(bytes@, end as int),
            decreases n - end,
        {
            end = end + 1;
        }
        let word = copy_range(bytes, start, end);
        proof {
            lemma_views_push(out@, word);
            let rest = words_from(bytes@, end as int);
            assert(words_from(bytes@, i as int) == seq![word@] + rest);
            assert(views(out@).push(word@) + rest == views(out@) + (seq![word@] + rest));
        }
        out.push(word);
        i = end;
    }
    proof {
        assert(words_from(bytes@, n as int) == Seq::<Seq<u8>>::empty());
        assert(views(out@) + Seq::<Seq<u8>>::empty() == views(out@));
    }
    out
}

/// Reads a decimal number, blanks around it set aside.
pub fn parse_padded_u64(bytes: &[u8]) -> (r: Option<u64>)
    ensures
        r == padded_number_of(bytes@),
{
    let inner = trim(bytes);
    parse_u64(inner.as_slice())
}

/// Splits a text into its lines.
pub fn lines(bytes: &[u8]) -> (out: Vec<Vec<u8>>)
    ensures
        views(out@) == lines_of(bytes@),
{
    let parts = split_on(bytes, 10);
    let ghost all = views(parts@);
    let last: usize = parts.len() - 1;
    let count: usize = if parts[last].len() == 0 {
        last
    } else {
        parts.len()
    };
    let mut out: Vec<Vec<u8>> = Vec::new();
    let mut i: usize = 0;
    while i < count
        invariant
            i <= count <= parts.len(),
            last + 1 == parts.len(),
            all == views(parts@),
            out@.len() == i,
            forall|k: int|
                0 <= k < i ==> (#[trigger] out[k])@ == if k < last {
                    without_cr(all[k])
                } else {
                    all[k]
                },
        decreases count - i,
    {
        let line = &parts[i];
        let len: usize = line.len();
        let end: usize = if i < last && len > 0 && line[len - 1] == 13 {
            len - 1
        } else {
            len
        };
        let copy = copy_range(line.as_slice(), 0, end);
        proof {
            assert(all[i as int] == line@);
            assert(line@.subrange(0, len as int) == line@);
        }
        out.push(copy);
        i = i + 1;
    }
    proof {
        assert(views(out@) =~= lines_of(bytes@));
    }
    out
}

/// Whether `b` is an ASCII whitespace byte.
pub fn blank(b: u8) -> (r: bool)
    ensures
        r == is_blank(b),
{
    b == 32 || (9 <= b && b <= 13)
}

/// Copies `bytes` without the blanks around it.
pub fn trim(bytes: &[u8]) -> (out: Vec<u8>)
    ensures
        out@ == trimmed(bytes@),
{
    let n: usize = bytes.len();
    let mut from: usize = 0;
    proof {
        assert(bytes@.subrange(0, n as int) == bytes@);
    }
    while from < n && blank(bytes[from])
        invariant
            from <= n,
            n == bytes@.len(),
            trim_start(bytes@) == trim_start(bytes@.subrange(from as int, n as int)),
        decreases n - from,
    {
        proof {
            let cur = bytes@.subrange(from as int, n as int);
            assert(cur.first() == bytes@[from as int]);
            assert(cur.drop_first() == bytes@.subrange(from + 1, n as int));
        }
        from = from + 1;
    }
    proof {
        let cur = bytes@.subrange(from as int, n as int);
        if from < n {
            assert(cur.first() == bytes@[from as int]);
        }
        assert(trim_start(bytes@) == cur);
    }
    let mut to: usize = n;
    while to > from && blank(bytes[to - 1])
        invariant
            from <= to <= n,
            n == bytes@.len(),
            trimmed(bytes@) == trim_end(bytes@.subrange(from as int, to as int)),
        decreases to,
    {
        proof {
            let cur = bytes@.subrange(from as int, to as int);
            assert(cur.last() == bytes@[to - 1]);
            assert(cur.drop_last() == bytes@.subrange(from as int, to - 1));
        }
        to = to - 1;
    }
    proof {
        let cur = bytes@.subrange(from as int, to as int);
        if to > from {
            assert(cur.last() == bytes@[to - 1]);
        }
    }
    copy_range(bytes, from, to)
}

/// Copies `bytes` without the bytes `b` at its start.
pub fn trim_start_matches(bytes: &[u8], b: u8) -> (out: Vec<u8>)
    ensures
        out@ == strip_start(bytes@, b),
{
    let n: usize = bytes.len();
    let mut from: usize = 0;
    proof {
        assert(bytes@.subrange(0, n as int) == bytes@);
    }
    while from < n && bytes[from] == b
        invariant
            from <= n,
            n == bytes@.len(),
            strip_start(bytes@, b) == strip_start(bytes@.subrange(from as int, n as int), b),
        decreases n - from,
    {
        proof {
            let cur = bytes@.subrange(from as int, n as int);
            assert(cur.first() == bytes@[from as int]);
            assert(cur.drop_first() == bytes@.subrange(from + 1, n as int));
        }
        from = from + 1;
    }
    proof {
        let cur = bytes@.subrange(from as int, n as int);
        if from < n {
            assert(cur.first() == bytes@[from as int]);
        }
    }
    copy_range(bytes, from, n)
}

/// Copies `bytes` without the bytes `b` at its end.
pub fn trim_end_matches(bytes: &[u8], b: u8) -> (out: Vec<u8>)
    ensures
        out@ == strip_end(bytes@, b),
{
    let mut to: usize = bytes.len();
    proof {
        assert(bytes@.subrange(0, to as int) == bytes@);
    }
    while to > 0 && bytes[to - 1] == b
        invariant
            to <= bytes@.len(),
            strip_end(bytes@, b) == strip_end(bytes@.subrange(0, to as int), b),
        decreases to,
    {
        proof {
            let cur = bytes@.subrange(0, to as int);
            assert(cur.last() == bytes@[to - 1]);
            assert(cur.drop_last() == bytes@.subrange(0, to - 1));
        }
        to = to - 1;
    }
    proof {
        let cur = bytes@.subrange(0, to as int);
        if to > 0 {
            assert(cur.last() == bytes@[to - 1]);
        }
    }
    copy_range(bytes, 0, to)
}

/// Reads a decimal number, with or without a plus sign before it.
pub fn parse_u64(bytes: &[u8]) -> (r: Option<u64>)
    ensures
        r == number_of(bytes@),
{
    let n: usize = bytes.len();
    let start: usize = if n > 0 && bytes[0] == 43 {
        1
    } else {
        0
    };
    let ghost digits = unsigned_part(bytes@);
    proof {
        assert(digits == bytes@.subrange(start as int, n as int));
    }
    if start == n {
        return None;
    }
    let mut value: u64 = 0;
    let mut i: usize = start;
    while i < n
        invariant
            start <= i <= n,
            n == bytes@.len(),
            start < n,
            digits == unsigned_part(bytes@),
            digits == bytes@.subrange(start as int, n as int),
            forall|k: int| 0 <= k < i - start ==> is_digit(#[trigger] digits[k]),
            value == digits_value(digits.take(i - start)),
        decreases n - i,
    {
        let b: u8 = bytes[i];
        proof {
            assert(digits[i - start] == b);
        }
        if b < 48 || b > 57 {
            return None;
        }
        let ghost prefix = digits.take(i - start + 1);
        proof {
            assert(prefix.drop_last() == digits.take(i - start));
            assert(prefix.last() == b);
            assert(digits_value(prefix) == value * 10 + (b - 48));
            if all_digits(digits) {
                lemma_digits_value_prefix(digits, i - start + 1);
            }
        }
        if value > (u64::MAX - (b - 48) as u64) / 10 {
            return None;
        }
        value = value * 10 + (b - 48) as u64;
        i = i + 1;
    }
    proof {
        assert(digits.take(n - start) == digits);
    }
    Some(value)
}

} // verus!
