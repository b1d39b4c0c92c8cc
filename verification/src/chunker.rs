//! Line-window chunking: cuts a text into overlapping windows of lines,
//! preferring to cut just after a natural boundary.

use crate::hashing::{hash_content, hash_text};
use crate::text::{
    chars_of, equals_str, has_str_prefix, join_lines, join_range, lemma_lines_from_len, lines_of,
    rows, split_lines, starts_with, string_of, trim, trim_chars,
};
use crate::types::{
    chunk_id, chunk_id_text, chunk_views, texts, yields_chunks, ChunkView, CodeChunk, IndexError,
};
use vstd::prelude::*;

verus! {

/// Whether a trimmed line opens a declaration in the given language.
pub open spec fn opens_declaration(trimmed: Seq<char>, language: Seq<char>) -> bool {
    if language == "typescript"@ || language == "javascript"@ {
        starts_with(trimmed, "export "@) || starts_with(trimmed, "function "@) || starts_with(
            trimmed,
            "class "@,
        ) || starts_with(trimmed, "interface "@) || starts_with(trimmed, "const "@)
    } else if language == "python"@ {
        starts_with(trimmed, "def "@) || starts_with(trimmed, "class "@) || starts_with(
            trimmed,
            "@"@,
        )
    } else if language == "rust"@ {
        starts_with(trimmed, "fn "@) || starts_with(trimmed, "pub fn "@) || starts_with(
            trimmed,
            "impl "@,
        ) || starts_with(trimmed, "struct "@)
    } else if language == "go"@ {
        starts_with(trimmed, "func "@) || starts_with(trimmed, "type "@)
    } else {
        false
    }
}

/// Whether a chunk may end just after `line`: the line is blank, is a lone closing
/// brace (with or without a semicolon), or opens a declaration in `language`.
pub open spec fn natural_boundary(line: Seq<char>, language: Seq<char>) -> bool {
    let trimmed = trim(line);
    trimmed.len() == 0 || trimmed == "}"@ || trimmed == "};"@ || opens_declaration(
        trimmed,
        language,
    )
}

/// Decides `opens_declaration`.
fn line_opens_declaration(trimmed: &[char], language: &[char]) -> (b: bool)
    ensures
        b == opens_declaration(trimmed@, language@),
{
    if equals_str(language, "typescript") || equals_str(language, "javascript") {
        has_str_prefix(trimmed, "export ") || has_str_prefix(trimmed, "function ")
            || has_str_prefix(trimmed, "class ") || has_str_prefix(trimmed, "interface ")
            || has_str_prefix(trimmed, "const ")
    } else if equals_str(language, "python") {
        has_str_prefix(trimmed, "def ") || has_str_prefix(trimmed, "class ") || has_str_prefix(
            trimmed,
            "@",
        )
    } else if equals_str(language, "rust") {
        has_str_prefix(trimmed, "fn ") || has_str_prefix(trimmed, "pub fn ") || has_str_prefix(
            trimmed,
            "impl ",
        ) || has_str_prefix(trimmed, "struct ")
    } else if equals_str(language, "go") {
        has_str_prefix(trimmed, "func ") || has_str_prefix(trimmed, "type ")
    } else {
        false
    }
}

/// Decides `natural_boundary` on characters.
pub fn is_boundary_line(line: &[char], language: &[char]) -> (b: bool)
    ensures
        b == natural_boundary(line@, language@),
{
    let trimmed = trim_chars(line);
    trimmed.len() == 0 || equals_str(trimmed, "}") || equals_str(trimmed, "};")
        || line_opens_declaration(trimmed, language)
}

/// Whether a chunk may end just after `line`.
pub fn is_natural_boundary(line: &str, language: &str) -> (b: bool)
    ensures
        b == natural_boundary(line@, language@),
{
    let l = chars_of(line);
    let g = chars_of(language);
    is_boundary_line(l.as_slice(), g.as_slice())
}

/// Scans the lines `lines[lo..hi]` from the last to the first and answers the
/// position just after the first natural boundary met, or `fallback` if there is none.
pub open spec fn scan_back(
    lines: Seq<Seq<char>>,
    language: Seq<char>,
    lo: int,
    hi: int,
    fallback: int,
) -> int
    decreases hi - lo,
{
    if hi <= lo || hi <= 0 || hi > lines.len() {
        fallback
    } else if natural_boundary(lines[hi - 1], language) {
        hi
    } else {
        scan_back(lines, language, lo, hi - 1, fallback)
    }
}

/// Where the chunk that starts at line `start` ends (exclusive, counted from 0).
/// A window of `max_size` lines that reaches the end of the text runs to the end.
/// Otherwise the chunk is cut just after the last natural boundary in the second
/// half of the window, or at the end of the window if that half holds none.
pub open spec fn chunk_end(
    lines: Seq<Seq<char>>,
    language: Seq<char>,
    start: int,
    max_size: int,
) -> int {
    if start + max_size >= lines.len() {
        lines.len() as int
    } else {
        scan_back(lines, language, start + max_size / 2, start + max_size, start + max_size)
    }
}

/// A scan answers a position above `lo` and at most `hi`, or the fallback.
pub proof fn lemma_scan_back_bounds(
    lines: Seq<Seq<char>>,
    language: Seq<char>,
    lo: int,
    hi: int,
    fallback: int,
)
    ensures
        scan_back(lines, language, lo, hi, fallback) == fallback || lo < scan_back(
            lines,
            language,
            lo,
            hi,
            fallback,
        ) <= hi,
    decreases hi - lo,
{
    if !(hi <= lo || hi <= 0 || hi > lines.len()) && !natural_boundary(lines[hi - 1], language) {
        lemma_scan_back_bounds(lines, language, lo, hi - 1, fallback);
    }
}

/// A chunk ends inside the text, and after more than half a window unless it
/// runs to the end of the text.
pub proof fn lemma_chunk_end_bounds(
    lines: Seq<Seq<char>>,
    language: Seq<char>,
    start: int,
    max_size: int,
)
    requires
        0 <= start,
        0 <= max_size,
    ensures
        chunk_end(lines, language, start, max_size) <= lines.len(),
        chunk_end(lines, language, start, max_size) == lines.len() || (start + max_size / 2
            < chunk_end(lines, language, start, max_size) && max_size >= 1) || (chunk_end(
            lines,
            language,
            start,
            max_size,
        ) == start && max_size == 0),
        chunk_end(lines, language, start, max_size) <= start + max_size,
        start <= lines.len() ==> start <= chunk_end(lines, language, start, max_size),
{
    if start + max_size < lines.len() {
        lemma_scan_back_bounds(
            lines,
            language,
            start + max_size / 2,
            start + max_size,
            start + max_size,
        );
    }
}

/// Finds where the chunk that starts at line `start` ends.
pub fn find_chunk_boundary(
    lines: &[Vec<char>],
    start: usize,
    max_size: usize,
    language: &[char],
) -> (end: usize)
    ensures
        end == chunk_end(rows(lines@), language@, start as int, max_size as int),
        end <= lines@.len(),
{
    let n: usize = lines.len();
    if start >= n || max_size >= n - start {
        return n;
    }
    let ideal: usize = start + max_size;
    let low: usize = start + max_size / 2;
    let ghost all = rows(lines@);
    let mut i: usize = ideal;
    while i > low
        invariant
            low <= i <= ideal < n,
            n == lines@.len(),
            ideal == start + max_size,
            low == start + max_size / 2,
            all == rows(lines@),
            scan_back(all, language@, low as int, i as int, ideal as int) == scan_back(
                all,
                language@,
                low as int,
                ideal as int,
                ideal as int,
            ),
        decreases i,
    {
        if is_boundary_line(lines[i - 1].as_slice(), language) {
            return i;
        }
        i -= 1;
    }
    ideal
}

/// Where the cursor stands after the chunk that starts at `start`: at the end of
/// the text if the chunk reaches it, else `overlap` lines before the chunk's end
/// (never before the first line).
pub open spec fn next_start(
    lines: Seq<Seq<char>>,
    language: Seq<char>,
    max_size: int,
    overlap: int,
    start: int,
) -> int {
    let end = chunk_end(lines, language, start, max_size);
    if end >= lines.len() {
        lines.len() as int
    } else if end >= overlap {
        end - overlap
    } else {
        0
    }
}

/// The line ranges `(start, end)` of the chunks cut from line `start` on, counted
/// from 0 with `end` exclusive; `None` if the cursor fails to advance at some step,
/// so that cutting would go on for ever.
pub open spec fn chunk_spans(
    lines: Seq<Seq<char>>,
    language: Seq<char>,
    max_size: int,
    overlap: int,
    start: int,
) -> Option<Seq<(int, int)>>
    decreases lines.len() - start,
{
    if start < 0 || start >= lines.len() {
        Some(Seq::empty())
    } else {
        let end = chunk_end(lines, language, start, max_size);
        let next = next_start(lines, language, max_size, overlap, start);
        if next <= start {
            None
        } else if next >= lines.len() {
            Some(seq![(start, end)])
        } else {
            match chunk_spans(lines, language, max_size, overlap, next) {
                Some(rest) => Some(seq![(start, end)] + rest),
                None => None,
            }
        }
    }
}

/// The chunk made of the lines `lines[start..end]`.
pub open spec fn chunk_at(lines: Seq<Seq<char>>, language: Seq<char>, start: int, end: int) -> ChunkView {
    let content = join_lines(lines.subrange(start, end));
    let hash = hash_text(content);
    ChunkView {
        id: chunk_id_text("chunk"@, (start + 1) as nat, hash),
        file_path: Seq::empty(),
        content,
        start_line: start + 1,
        end_line: end,
        chunk_type: "chunk"@,
        language,
        symbols: Seq::empty(),
        hash,
    }
}

/// The chunks of the given line ranges.
pub open spec fn chunks_of_spans(
    lines: Seq<Seq<char>>,
    language: Seq<char>,
    spans: Seq<(int, int)>,
) -> Seq<ChunkView> {
    Seq::new(spans.len(), |i: int| chunk_at(lines, language, spans[i].0, spans[i].1))
}

/// What chunking a text yields: the chunks in order, or the reason why there are none.
pub open spec fn chunking(
    content: Seq<char>,
    language: Seq<char>,
    max_size: int,
    overlap: int,
) -> Result<Seq<ChunkView>, IndexError> {
    let lines = lines_of(content);
    if lines.len() > u32::MAX {
        Err(IndexError::TooManyLines)
    } else {
        match chunk_spans(lines, language, max_size, overlap, 0) {
            Some(spans) => Ok(chunks_of_spans(lines, language, spans)),
            None => Err(IndexError::Stalled),
        }
    }
}

/// Whether chunks, in order, cover the lines `1..=line_count` without a gap: the
/// first starts at line 1, each starts after the one before it and no later than
/// just after its end, none is empty, and the last ends at the last line.
pub open spec fn covers_lines(chunks: Seq<ChunkView>, line_count: int) -> bool {
    &&& line_count == 0 <==> chunks.len() == 0
    &&& chunks.len() > 0 ==> chunks[0].start_line == 1 && chunks.last().end_line == line_count
    &&& forall|i: int|
        0 <= i < chunks.len() ==> 1 <= (#[trigger] chunks[i]).start_line <= chunks[i].end_line
            <= line_count
    &&& forall|i: int|
        0 <= i < chunks.len() - 1 ==> (#[trigger] chunks[i]).start_line < chunks[i
            + 1].start_line <= chunks[i].end_line + 1
}

/// Builds the chunk made of the lines `lines[start..end]`.
fn make_chunk(lines: &Vec<Vec<char>>, language: &str, start: usize, end: usize) -> (chunk:
    CodeChunk)
    requires
        start < end <= lines@.len() <= u32::MAX,
    ensures
        chunk@ == chunk_at(rows(lines@), language@, start as int, end as int),
{
    let body = join_range(lines, start, end);
    let content = string_of(body.as_slice());
    let hash = hash_content(content.as_str());
    let id = chunk_id("chunk", start + 1, hash.as_str());
    let symbols: Vec<String> = Vec::new();
    let chunk = CodeChunk {
        id,
        file_path: String::new(),
        content,
        start_line: (start + 1) as u32,
        end_line: end as u32,
        chunk_type: "chunk".to_string(),
        language: language.to_string(),
        symbols,
        hash,
    };
    assert(texts(chunk.symbols@) =~= Seq::empty());
    chunk
}

/// The spans `done`, followed by the spans in `rest` if there are any.
pub open spec fn then_spans(done: Seq<(int, int)>, rest: Option<Seq<(int, int)>>) -> Option<
    Seq<(int, int)>,
> {
    match rest {
        Some(more) => Some(done + more),
        None => None,
    }
}

/// Whether spans, in order, tile the lines from `start` to `line_count`: the first
/// starts at `start`, none is empty, each starts after the one before it and at or
/// before its end, and the last ends at `line_count`.
pub open spec fn spans_tile(spans: Seq<(int, int)>, start: int, line_count: int) -> bool {
    &&& start >= line_count <==> spans.len() == 0
    &&& spans.len() > 0 ==> spans[0].0 == start && spans.last().1 == line_count
    &&& forall|i: int|
        0 <= i < spans.len() ==> 0 <= (#[trigger] spans[i]).0 < spans[i].1 <= line_count
    &&& forall|i: int|
        0 <= i < spans.len() - 1 ==> (#[trigger] spans[i]).0 < spans[i + 1].0 <= spans[i].1
}

/// Whenever cutting comes to an end, the spans cut from `start` on tile the rest of the text.
pub proof fn lemma_spans_tile(
    lines: Seq<Seq<char>>,
    language: Seq<char>,
    max_size: int,
    overlap: int,
    start: int,
)
    requires
        0 <= start,
        0 <= max_size,
        0 <= overlap,
        chunk_spans(lines, language, max_size, overlap, start) is Some,
    ensures
        spans_tile(
            chunk_spans(lines, language, max_size, overlap, start).unwrap(),
            start,
            lines.len() as int,
        ),
    decreases lines.len() - start,
{
    if start < lines.len() {
        let next = next_start(lines, language, max_size, overlap, start);
        lemma_chunk_end_bounds(lines, language, start, max_size);
        let spans = chunk_spans(lines, language, max_size, overlap, start).unwrap();
        if next < lines.len() {
            lemma_spans_tile(lines, language, max_size, overlap, next);
            let rest = chunk_spans(lines, language, max_size, overlap, next).unwrap();
            assert forall|i: int| 0 <= i < spans.len() - 1 implies (#[trigger] spans[i]).0 < spans[i
                + 1].0 <= spans[i].1 by {}
            assert forall|i: int| 0 <= i < spans.len() implies 0 <= (#[trigger] spans[i]).0
                < spans[i].1 <= lines.len() by {}
            assert(spans.last() == rest.last());
        }
    }
}

/// With a window of at least one line and an overlap of at most half the window,
/// the cursor advances at every step, so cutting comes to an end.
pub proof fn lemma_small_overlap_ends(
    lines: Seq<Seq<char>>,
    language: Seq<char>,
    max_size: int,
    overlap: int,
    start: int,
)
    requires
        0 <= start,
        1 <= max_size,
        0 <= overlap <= max_size / 2,
    ensures
        chunk_spans(lines, language, max_size, overlap, start) is Some,
    decreases lines.len() - start,
{
    if start < lines.len() {
        let next = next_start(lines, language, max_size, overlap, start);
        lemma_chunk_end_bounds(lines, language, start, max_size);
        if next < lines.len() {
            lemma_small_overlap_ends(lines, language, max_size, overlap, next);
        }
    }
}

/// Chunks made from spans that tile the text cover its lines.
pub proof fn lemma_tiling_covers(lines: Seq<Seq<char>>, language: Seq<char>, spans: Seq<(int, int)>)
    requires
        spans_tile(spans, 0, lines.len() as int),
    ensures
        covers_lines(chunks_of_spans(lines, language, spans), lines.len() as int),
{
    let chunks = chunks_of_spans(lines, language, spans);
    assert forall|i: int| 0 <= i < chunks.len() implies 1 <= (#[trigger] chunks[i]).start_line
        <= chunks[i].end_line <= lines.len() by {}
    assert forall|i: int| 0 <= i < chunks.len() - 1 implies (#[trigger] chunks[i]).start_line
        < chunks[i + 1].start_line <= chunks[i].end_line + 1 by {}
}

/// Whenever chunking a text comes to an end, the chunks cover its lines: their
/// start lines strictly increase, there is no gap between them, and the last
/// one ends at the last line.
pub proof fn lemma_chunks_cover_lines(
    content: Seq<char>,
    language: Seq<char>,
    max_size: int,
    overlap: int,
)
    requires
        0 <= max_size,
        0 <= overlap,
        chunking(content, language, max_size, overlap) is Ok,
    ensures
        covers_lines(
            chunking(content, language, max_size, overlap).unwrap(),
            lines_of(content).len() as int,
        ),
{
    let lines = lines_of(content);
    lemma_spans_tile(lines, language, max_size, overlap, 0);
    lemma_tiling_covers(lines, language, chunk_spans(lines, language, max_size, overlap, 0).unwrap());
}

/// Cuts `content` into chunks of at most `max_chunk_size` lines, consecutive chunks
/// sharing up to `overlap` lines.
///
/// Fails with `TooManyLines` if the line count does not fit a line number, and
/// with `Stalled` if at some step the cursor would not advance.
pub fn chunk_code(content: &str, language: &str, max_chunk_size: usize, overlap: usize) -> (res:
    Result<Vec<CodeChunk>, IndexError>)
    ensures
        yields_chunks(res, chunking(content@, language@, max_chunk_size as int, overlap as int)),
        res is Ok ==> covers_lines(chunk_views(res.unwrap()@), lines_of(content@).len() as int),
        max_chunk_size >= 1 && overlap <= max_chunk_size / 2 && lines_of(content@).len()
            <= u32::MAX ==> res is Ok,
        max_chunk_size >= 1 && overlap <= max_chunk_size / 2 && content@.len() <= u32::MAX
            ==> res is Ok,
{
    let text = chars_of(content);
    let tag = chars_of(language);
    let lines = split_lines(text.as_slice());
    let n: usize = lines.len();
    proof {
        lemma_lines_from_len(content@, 0);
    }
    let ghost all = rows(lines@);
    let ghost k = max_chunk_size as int;
    let ghost o = overlap as int;
    if n > u32::MAX as usize {
        return Err(IndexError::TooManyLines);
    }
    let mut chunks: Vec<CodeChunk> = Vec::new();
    let mut start: usize = 0;
    let ghost mut done: Seq<(int, int)> = Seq::empty();
    while start < n
        invariant
            start <= n,
            n == lines@.len(),
            n <= u32::MAX,
            all == rows(lines@),
            all == lines_of(content@),
            tag@ == language@,
            k == max_chunk_size,
            o == overlap,
            chunk_spans(all, language@, k, o, 0) == then_spans(
                done,
                chunk_spans(all, language@, k, o, start as int),
            ),
            chunk_views(chunks@) == chunks_of_spans(all, language@, done),
        decreases n - start,
    {
        let end: usize = find_chunk_boundary(lines.as_slice(), start, max_chunk_size, tag.as_slice());
        let next: usize = if end >= n {
            n
        } else if end >= overlap {
            end - overlap
        } else {
            0
        };
        if next <= start {
            proof {
                if k >= 1 && o <= k / 2 {
                    lemma_small_overlap_ends(all, language@, k, o, 0);
                }
            }
            return Err(IndexError::Stalled);
        }
        let chunk = make_chunk(&lines, language, start, end);
        proof {
            assert(chunks_of_spans(all, language@, done.push((start as int, end as int)))
                =~= chunks_of_spans(all, language@, done).push(chunk@));
            done = done.push((start as int, end as int));
        }
        chunks.push(chunk);
        start = next;
    }
    proof {
        lemma_chunks_cover_lines(content@, language@, k, o);
    }
    Ok(chunks)
}

} // verus!
