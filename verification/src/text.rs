//! Text as sequences of characters: conversion from and to strings, comparison,
//! trimming, searching, splitting into lines and words, joining, rendering of
//! numbers, and cutting a string at byte offsets.

use vstd::prelude::*;
use vstd::string::StringSliceAdditionalSpecFns;
use vstd::utf8::{decode_utf8, encode_utf8, is_char_boundary};

verus! {

/// The characters of `s`, in order.
pub fn chars_of(s: &str) -> (chars: Vec<char>)
    ensures
        chars@ == s@,
{
    let mut chars: Vec<char> = Vec::new();
    for c in it: s.chars()
        invariant
            chars@ == it.seq().take(it.index()),
            it.seq() == s@,
    {
        chars.push(c);
    }
    chars
}

/// Whether two strings hold the same text.
pub fn str_equal(a: &str, b: &str) -> (same: bool)
    ensures
        same == (a@ == b@),
{
    let x = a.as_bytes();
    let y = b.as_bytes();
    proof {
        vstd::utf8::encode_utf8_decode_utf8(a@);
        vstd::utf8::encode_utf8_decode_utf8(b@);
    }
    if x.len() != y.len() {
        return false;
    }
    let mut i: usize = 0;
    while i < x.len()
        invariant
            x@.len() == y@.len(),
            i <= x@.len(),
            x@.take(i as int) == y@.take(i as int),
            x@ == y@ ==> a@ == b@,
            a@ == b@ ==> x@ == y@,
        decreases x@.len() - i,
    {
        if x[i] != y[i] {
            return false;
        }
        i += 1;
    }
    assert(x@ == x@.take(i as int));
    assert(y@ == y@.take(i as int));
    true
}

/// Builds a `String` from characters with `String::from_iter` (`collect`).
/// Trusted: the string holds exactly the given characters, in order.
#[verifier::external_body]
pub(crate) fn string_of(chars: &[char]) -> (s: String)
    ensures
        s@ == chars@,
{
    chars.iter().collect()
}

/// Appends the characters of `src` to `dst`.
pub fn append_chars(dst: &mut Vec<char>, src: &[char])
    ensures
        final(dst)@ == old(dst)@ + src@,
{
    let mut i: usize = 0;
    while i < src.len()
        invariant
            i <= src@.len(),
            dst@ == old(dst)@ + src@.take(i as int),
        decreases src@.len() - i,
    {
        dst.push(src[i]);
        i += 1;
    }
}

/// Whether two character slices hold the same text.
pub fn chars_equal(a: &[char], b: &[char]) -> (same: bool)
    ensures
        same == (a@ == b@),
{
    if a.len() != b.len() {
        return false;
    }
    let mut i: usize = 0;
    while i < a.len()
        invariant
            a@.len() == b@.len(),
            i <= a@.len(),
            forall|k: int| 0 <= k < i ==> a@[k] == b@[k],
        decreases a@.len() - i,
    {
        if a[i] != b[i] {
            return false;
        }
        i += 1;
    }
    assert(a@ =~= b@);
    true
}

/// Whether `text` begins with `prefix`.
pub open spec fn starts_with(text: Seq<char>, prefix: Seq<char>) -> bool {
    prefix.len() <= text.len() && text.subrange(0, prefix.len() as int) == prefix
}

/// Decides `starts_with`.
pub fn has_prefix(text: &[char], prefix: &[char]) -> (found: bool)
    ensures
        found == starts_with(text@, prefix@),
{
    if prefix.len() > text.len() {
        return false;
    }
    let ghost head = text@.subrange(0, prefix@.len() as int);
    let mut i: usize = 0;
    while i < prefix.len()
        invariant
            prefix@.len() <= text@.len(),
            i <= prefix@.len(),
            head == text@.subrange(0, prefix@.len() as int),
            forall|k: int| 0 <= k < i ==> text@[k] == prefix@[k],
        decreases prefix@.len() - i,
    {
        if text[i] != prefix[i] {
            return false;
        }
        i += 1;
    }
    assert(head =~= prefix@);
    true
}

/// Whether `text` begins with the text of the string `prefix`.
pub fn has_str_prefix(text: &[char], prefix: &str) -> (found: bool)
    ensures
        found == starts_with(text@, prefix@),
{
    let p = chars_of(prefix);
    has_prefix(text, p.as_slice())
}

/// Whether `text` is exactly the text of the string `other`.
pub fn equals_str(text: &[char], other: &str) -> (same: bool)
    ensures
        same == (text@ == other@),
{
    let o = chars_of(other);
    chars_equal(text, o.as_slice())
}

/// The characters with the Unicode property White_Space.
pub open spec fn is_whitespace(c: char) -> bool {
    let u = c as u32;
    (0x09 <= u && u <= 0x0d) || u == 0x20 || u == 0x85 || u == 0xa0 || u == 0x1680 || (0x2000 <= u
        && u <= 0x200a) || u == 0x2028 || u == 0x2029 || u == 0x202f || u == 0x205f || u == 0x3000
}

/// Decides `is_whitespace`.
pub fn is_whitespace_char(c: char) -> (w: bool)
    ensures
        w == is_whitespace(c),
{
    let u: u32 = c as u32;
    (0x09 <= u && u <= 0x0d) || u == 0x20 || u == 0x85 || u == 0xa0 || u == 0x1680 || (0x2000 <= u
        && u <= 0x200a) || u == 0x2028 || u == 0x2029 || u == 0x202f || u == 0x205f || u == 0x3000
}

/// The first position at or after `i` that does not hold whitespace (the length if none).
pub open spec fn skip_whitespace(s: Seq<char>, i: int) -> int
    decreases s.len() - i,
{
    if 0 <= i < s.len() && is_whitespace(s[i]) {
        skip_whitespace(s, i + 1)
    } else {
        i
    }
}

/// The end of the text before `end` once trailing whitespace is dropped, never below `start`.
pub open spec fn skip_whitespace_back(s: Seq<char>, start: int, end: int) -> int
    decreases end,
{
    if 0 <= start < end <= s.len() && is_whitespace(s[end - 1]) {
        skip_whitespace_back(s, start, end - 1)
    } else {
        end
    }
}

/// Where the trimmed text starts.
pub open spec fn trim_start(s: Seq<char>) -> int {
    skip_whitespace(s, 0)
}

/// Where the trimmed text ends.
pub open spec fn trim_end(s: Seq<char>) -> int {
    skip_whitespace_back(s, trim_start(s), s.len() as int)
}

/// `s` without its leading and trailing whitespace.
pub open spec fn trim(s: Seq<char>) -> Seq<char> {
    s.subrange(trim_start(s), trim_end(s))
}

/// The bounds computed by trimming lie inside the text and in order.
pub proof fn lemma_trim_bounds(s: Seq<char>)
    ensures
        0 <= trim_start(s) <= trim_end(s) <= s.len(),
{
    lemma_skip_whitespace_bounds(s, 0);
    lemma_skip_whitespace_back_bounds(s, trim_start(s), s.len() as int);
}

/// `skip_whitespace` moves forward and stays inside the text.
pub proof fn lemma_skip_whitespace_bounds(s: Seq<char>, i: int)
    requires
        0 <= i <= s.len(),
    ensures
        i <= skip_whitespace(s, i) <= s.len(),
    decreases s.len() - i,
{
    if i < s.len() && is_whitespace(s[i]) {
        lemma_skip_whitespace_bounds(s, i + 1);
    }
}

/// `skip_whitespace_back` moves backward and stays at or above `start`.
pub proof fn lemma_skip_whitespace_back_bounds(s: Seq<char>, start: int, end: int)
    requires
        0 <= start <= end <= s.len(),
    ensures
        start <= skip_whitespace_back(s, start, end) <= end,
    decreases end,
{
    if start < end && is_whitespace(s[end - 1]) {
        lemma_skip_whitespace_back_bounds(s, start, end - 1);
    }
}

/// Drops leading and trailing whitespace.
pub fn trim_chars(text: &[char]) -> (trimmed: &[char])
    ensures
        trimmed@ == trim(text@),
{
    let mut a: usize = 0;
    while a < text.len() && is_whitespace_char(text[a])
        invariant
            a <= text@.len(),
            skip_whitespace(text@, a as int) == trim_start(text@),
        decreases text@.len() - a,
    {
        a += 1;
    }
    let mut b: usize = text.len();
    while a < b && is_whitespace_char(text[b - 1])
        invariant
            a <= b <= text@.len(),
            a == trim_start(text@),
            skip_whitespace_back(text@, a as int, b as int) == trim_end(text@),
        decreases b,
    {
        b -= 1;
    }
    vstd::slice::slice_subrange(text, a, b)
}

/// The first position at or after `from` that holds `c` (the length if none).
pub open spec fn find_from(s: Seq<char>, c: char, from: int) -> int
    decreases s.len() - from,
{
    if from < 0 || from >= s.len() {
        s.len() as int
    } else if s[from] == c {
        from
    } else {
        find_from(s, c, from + 1)
    }
}

/// `find_from` answers a position between `from` and the length.
pub proof fn lemma_find_from_bounds(s: Seq<char>, c: char, from: int)
    requires
        0 <= from <= s.len(),
    ensures
        from <= find_from(s, c, from) <= s.len(),
    decreases s.len() - from,
{
    if from < s.len() && s[from] != c {
        lemma_find_from_bounds(s, c, from + 1);
    }
}

/// Searches `text` for `c`, starting at `from`.
pub fn find_char_from(text: &[char], c: char, from: usize) -> (at: usize)
    requires
        from <= text@.len(),
    ensures
        at == find_from(text@, c, from as int),
        from <= at <= text@.len(),
{
    let mut i: usize = from;
    while i < text.len() && text[i] != c
        invariant
            from <= i <= text@.len(),
            find_from(text@, c, i as int) == find_from(text@, c, from as int),
        decreases text@.len() - i,
    {
        i += 1;
    }
    i
}

/// `line` without one trailing carriage return.
pub open spec fn strip_carriage_return(line: Seq<char>) -> Seq<char> {
    if line.len() > 0 && line.last() == '\r' {
        line.drop_last()
    } else {
        line
    }
}

/// The lines of `s` from position `from` on. A line ends at a line feed, or at a
/// carriage return directly followed by one; neither belongs to the line. Text
/// after the last line feed is a line of its own unless it is empty.
pub open spec fn lines_from(s: Seq<char>, from: int) -> Seq<Seq<char>>
    decreases s.len() - from,
    via lines_from_decreases
{
    if from < 0 || from >= s.len() {
        Seq::empty()
    } else {
        let end = find_from(s, '\n', from);
        let raw = s.subrange(from, end);
        if end < s.len() {
            seq![strip_carriage_return(raw)] + lines_from(s, end + 1)
        } else {
            seq![raw]
        }
    }
}

#[via_fn]
proof fn lines_from_decreases(s: Seq<char>, from: int) {
    if 0 <= from < s.len() {
        lemma_find_from_bounds(s, '\n', from);
    }
}

/// The lines of `s`.
pub open spec fn lines_of(s: Seq<char>) -> Seq<Seq<char>> {
    lines_from(s, 0)
}

/// The texts held by a sequence of character vectors.
pub open spec fn rows(v: Seq<Vec<char>>) -> Seq<Seq<char>> {
    Seq::new(v.len(), |i: int| v[i]@)
}

/// There are at most as many lines as characters.
pub proof fn lemma_lines_from_len(s: Seq<char>, from: int)
    requires
        0 <= from <= s.len(),
    ensures
        lines_from(s, from).len() <= s.len() - from,
    decreases s.len() - from,
{
    if from < s.len() {
        lemma_find_from_bounds(s, '\n', from);
        let end = find_from(s, '\n', from);
        if end + 1 <= s.len() {
            lemma_lines_from_len(s, end + 1);
        }
    }
}

/// Splits `text` into its lines.
pub fn split_lines(text: &[char]) -> (lines: Vec<Vec<char>>)
    ensures
        rows(lines@) == lines_of(text@),
{
    let mut lines: Vec<Vec<char>> = Vec::new();
    let mut pos: usize = 0;
    while pos < text.len()
        invariant
            pos <= text@.len(),
            lines_of(text@) == rows(lines@) + lines_from(text@, pos as int),
        decreases text@.len() - pos,
    {
        let end: usize = find_char_from(text, '\n', pos);
        let mut stop: usize = end;
        if end < text.len() && pos < end && text[end - 1] == '\r' {
            stop = end - 1;
        }
        let line = vstd::slice::slice_to_vec(vstd::slice::slice_subrange(text, pos, stop));
        proof {
            let raw = text@.subrange(pos as int, end as int);
            if end < text@.len() && pos < end && text@[end - 1] == '\r' {
                assert(raw.drop_last() =~= text@.subrange(pos as int, stop as int));
            }
        }
        lines.push(line);
        if end < text.len() {
            pos = end + 1;
        } else {
            pos = end;
        }
    }
    lines
}

/// The parts joined, with one `sep` between neighbours.
pub open spec fn join_with(parts: Seq<Seq<char>>, sep: char) -> Seq<char>
    decreases parts.len(),
{
    if parts.len() == 0 {
        Seq::empty()
    } else if parts.len() == 1 {
        parts[0]
    } else {
        join_with(parts.drop_last(), sep) + seq![sep] + parts.last()
    }
}

/// The lines joined by single line feeds.
pub open spec fn join_lines(lines: Seq<Seq<char>>) -> Seq<char> {
    join_with(lines, '\n')
}

/// Joins the parts `parts[from..to]`, with one `sep` between neighbours.
pub fn join_range_with(parts: &Vec<Vec<char>>, from: usize, to: usize, sep: char) -> (joined: Vec<
    char,
>)
    requires
        from <= to <= parts@.len(),
    ensures
        joined@ == join_with(rows(parts@).subrange(from as int, to as int), sep),
{
    let mut joined: Vec<char> = Vec::new();
    let mut i: usize = from;
    let ghost all = rows(parts@);
    while i < to
        invariant
            from <= i <= to <= parts@.len(),
            all == rows(parts@),
            joined@ == join_with(all.subrange(from as int, i as int), sep),
        decreases to - i,
    {
        if i > from {
            joined.push(sep);
        }
        append_chars(&mut joined, parts[i].as_slice());
        proof {
            let next = all.subrange(from as int, i + 1);
            assert(next.drop_last() =~= all.subrange(from as int, i as int));
        }
        i += 1;
    }
    joined
}

/// Joins the lines `lines[from..to]` by single line feeds.
pub fn join_range(lines: &Vec<Vec<char>>, from: usize, to: usize) -> (joined: Vec<char>)
    requires
        from <= to <= lines@.len(),
    ensures
        joined@ == join_lines(rows(lines@).subrange(from as int, to as int)),
{
    join_range_with(lines, from, to, '\n')
}

/// The first position at or after `from` that holds whitespace (the length if none).
pub open spec fn word_end(s: Seq<char>, from: int) -> int
    decreases s.len() - from,
{
    if from < 0 || from >= s.len() {
        s.len() as int
    } else if is_whitespace(s[from]) {
        from
    } else {
        word_end(s, from + 1)
    }
}

/// `word_end` answers a position between `from` and the length, and beyond
/// `from` where `from` holds no whitespace.
pub proof fn lemma_word_end_bounds(s: Seq<char>, from: int)
    requires
        0 <= from <= s.len(),
    ensures
        from <= word_end(s, from) <= s.len(),
        from < s.len() && !is_whitespace(s[from]) ==> from < word_end(s, from),
    decreases s.len() - from,
{
    if from < s.len() && !is_whitespace(s[from]) {
        lemma_word_end_bounds(s, from + 1);
    }
}

/// The words of `s` from position `from` on: the longest runs of characters
/// that are not whitespace.
pub open spec fn words_from(s: Seq<char>, from: int) -> Seq<Seq<char>>
    decreases s.len() - from,
    via words_from_decreases
{
    if from < 0 || from >= s.len() {
        Seq::empty()
    } else if is_whitespace(s[from]) {
        words_from(s, from + 1)
    } else {
        let end = word_end(s, from);
        seq![s.subrange(from, end)] + words_from(s, end)
    }
}

#[via_fn]
proof fn words_from_decreases(s: Seq<char>, from: int) {
    if 0 <= from < s.len() {
        lemma_word_end_bounds(s, from);
    }
}

/// The words of `s`.
pub open spec fn words_of(s: Seq<char>) -> Seq<Seq<char>> {
    words_from(s, 0)
}

/// Splits `text` into its words.
pub fn split_words(text: &[char]) -> (words: Vec<Vec<char>>)
    ensures
        rows(words@) == words_of(text@),
{
    let mut words: Vec<Vec<char>> = Vec::new();
    let mut pos: usize = 0;
    while pos < text.len()
        invariant
            pos <= text@.len(),
            words_of(text@) == rows(words@) + words_from(text@, pos as int),
        decreases text@.len() - pos,
    {
        if is_whitespace_char(text[pos]) {
            pos += 1;
        } else {
            let mut end: usize = pos + 1;
            while end < text.len() && !is_whitespace_char(text[end])
                invariant
                    pos < end <= text@.len(),
                    !is_whitespace(text@[pos as int]),
                    word_end(text@, end as int) == word_end(text@, pos as int),
                decreases text@.len() - end,
            {
                end += 1;
            }
            let word = vstd::slice::slice_to_vec(vstd::slice::slice_subrange(text, pos, end));
            words.push(word);
            pos = end;
        }
    }
    words
}

/// The character of a decimal digit.
pub open spec fn digit_char(d: int) -> char {
    seq!['0', '1', '2', '3', '4', '5', '6', '7', '8', '9'][d]
}

/// `n` written in decimal, without leading zeros.
pub open spec fn decimal_text(n: nat) -> Seq<char>
    decreases n,
{
    if n < 10 {
        seq![digit_char(n as int)]
    } else {
        decimal_text(n / 10).push(digit_char((n % 10) as int))
    }
}

/// Appends `n` in decimal to `out`.
pub fn push_decimal(out: &mut Vec<char>, n: usize)
    ensures
        final(out)@ == old(out)@ + decimal_text(n as nat),
    decreases n,
{
    if n >= 10 {
        push_decimal(out, n / 10);
    }
    let d: usize = n % 10;
    let c: char = if d == 0 {
        '0'
    } else if d == 1 {
        '1'
    } else if d == 2 {
        '2'
    } else if d == 3 {
        '3'
    } else if d == 4 {
        '4'
    } else if d == 5 {
        '5'
    } else if d == 6 {
        '6'
    } else if d == 7 {
        '7'
    } else if d == 8 {
        '8'
    } else {
        '9'
    };
    out.push(c);
}

/// The character of a hexadecimal digit, in lower case.
pub open spec fn hex_digit_char(d: int) -> char {
    seq!['0', '1', '2', '3', '4', '5', '6', '7', '8', '9', 'a', 'b', 'c', 'd', 'e', 'f'][d]
}

/// The last `width` hexadecimal digits of `n`, in lower case, zeros included.
pub open spec fn hex_text(n: nat, width: nat) -> Seq<char>
    decreases width,
{
    if width == 0 {
        Seq::empty()
    } else {
        hex_text(n / 16, (width - 1) as nat).push(hex_digit_char((n % 16) as int))
    }
}

/// Appends the last `width` hexadecimal digits of `n` to `out`.
pub fn push_hex(out: &mut Vec<char>, n: u64, width: usize)
    ensures
        final(out)@ == old(out)@ + hex_text(n as nat, width as nat),
    decreases width,
{
    if width == 0 {
        return ;
    }
    push_hex(out, n / 16, width - 1);
    let d: u64 = n % 16;
    let c: char = if d == 0 {
        '0'
    } else if d == 1 {
        '1'
    } else if d == 2 {
        '2'
    } else if d == 3 {
        '3'
    } else if d == 4 {
        '4'
    } else if d == 5 {
        '5'
    } else if d == 6 {
        '6'
    } else if d == 7 {
        '7'
    } else if d == 8 {
        '8'
    } else if d == 9 {
        '9'
    } else if d == 10 {
        'a'
    } else if d == 11 {
        'b'
    } else if d == 12 {
        'c'
    } else if d == 13 {
        'd'
    } else if d == 14 {
        'e'
    } else {
        'f'
    };
    out.push(c);
}

/// The text that the bytes `start..end` of the UTF-8 encoding of `source` hold,
/// if the range lies inside the encoding and both ends fall between characters.
pub open spec fn source_slice(source: Seq<char>, start: int, end: int) -> Option<Seq<char>> {
    let bytes = encode_utf8(source);
    if 0 <= start <= end <= bytes.len() && is_char_boundary(bytes, start) && is_char_boundary(
        bytes,
        end,
    ) {
        Some(decode_utf8(bytes.subrange(start, end)))
    } else {
        None
    }
}

/// Cuts the bytes `start..end` out of `source`.
pub fn slice_source(source: &str, start: usize, end: usize) -> (out: Option<&str>)
    ensures
        match source_slice(source@, start as int, end as int) {
            Some(text) => out is Some && out.unwrap()@ == text,
            None => out is None,
        },
{
    if start <= end && end <= source.as_bytes().len() && source.is_char_boundary(start)
        && source.is_char_boundary(end) {
        let ghost bytes = encode_utf8(source@);
        proof {
            vstd::utf8::encode_utf8_valid_utf8(source@);
            vstd::utf8::valid_utf8_split(bytes, end as int);
        }
        let (head, _) = source.split_at(end);
        proof {
            let front = bytes.subrange(0, end as int);
            if start < end {
                vstd::utf8::is_char_boundary_iff_not_is_continuation_byte(bytes, start as int);
                vstd::utf8::is_char_boundary_iff_not_is_continuation_byte(front, start as int);
            } else {
                vstd::utf8::is_char_boundary_start_end_of_seq(front);
            }
        }
        let (_, body) = head.split_at(start);
        proof {
            assert(body.spec_bytes() =~= bytes.subrange(start as int, end as int));
            vstd::utf8::encode_utf8_decode_utf8(body@);
        }
        Some(body)
    } else {
        None
    }
}

} // verus!
