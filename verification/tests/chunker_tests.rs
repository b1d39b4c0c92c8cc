use indexer_native::chunker::{
    chunk_code, find_chunk_boundary, is_boundary_line, is_natural_boundary,
};
use indexer_native::hashing::hash_content;
use indexer_native::types::{CodeChunk, IndexError};

fn chars(s: &str) -> Vec<char> {
    s.chars().collect()
}

fn rows(lines: &[&str]) -> Vec<Vec<char>> {
    lines.iter().map(|l| chars(l)).collect()
}

#[test]
fn test_chunk_code() {
    let content = r#"
function foo() {
    return 1;
}

function bar() {
    return 2;
}
"#;

    let chunks = chunk_code(content, "typescript", 5, 1).unwrap();
    assert!(!chunks.is_empty());
}

#[test]
fn test_natural_boundary() {
    assert!(is_natural_boundary("}", "typescript"));
    assert!(is_natural_boundary("export function", "typescript"));
    assert!(is_natural_boundary("def foo():", "python"));
    assert!(is_natural_boundary("fn main() {", "rust"));
}

#[test]
fn blank_lines_and_closing_braces_are_boundaries_everywhere() {
    for language in ["typescript", "python", "rust", "go", "zig", ""] {
        assert!(is_natural_boundary("", language));
        assert!(is_natural_boundary("   \t", language));
        assert!(is_natural_boundary("  }", language));
        assert!(is_natural_boundary("};  ", language));
        assert!(!is_natural_boundary("} else {", language));
        assert!(!is_natural_boundary("x = 1", language));
    }
}

#[test]
fn declaration_openers_by_language() {
    for line in ["export x", "function f", "class A", "interface I", "const c = 1"] {
        assert!(is_natural_boundary(line, "typescript"), "{}", line);
        assert!(is_natural_boundary(line, "javascript"), "{}", line);
        assert!(!is_natural_boundary(line, "go"), "{}", line);
    }
    for line in ["def f():", "class A:", "@decorator", "  @x"] {
        assert!(is_natural_boundary(line, "python"), "{}", line);
    }
    for line in ["fn f()", "pub fn f()", "impl A", "struct S"] {
        assert!(is_natural_boundary(line, "rust"), "{}", line);
        assert!(!is_natural_boundary(line, "python"), "{}", line);
    }
    for line in ["func f()", "type T struct"] {
        assert!(is_natural_boundary(line, "go"), "{}", line);
        assert!(!is_natural_boundary(line, "rust"), "{}", line);
    }
    assert!(!is_natural_boundary("export x", "tsx"));
    assert!(!is_natural_boundary("functional", "typescript"));
    assert!(!is_natural_boundary("pub struct S", "rust"));
    assert!(!is_natural_boundary("def", "python"));
}

#[test]
fn boundary_line_on_characters() {
    assert!(is_boundary_line(&chars(" impl X {"), &chars("rust")));
    assert!(!is_boundary_line(&chars(" impl X {"), &chars("go")));
}

#[test]
fn window_that_reaches_the_end_runs_to_the_end() {
    let lines = rows(&["a", "b", "c"]);
    assert_eq!(find_chunk_boundary(&lines, 0, 3, &chars("rust")), 3);
    assert_eq!(find_chunk_boundary(&lines, 1, 5, &chars("rust")), 3);
    assert_eq!(find_chunk_boundary(&lines, 0, usize::MAX, &chars("rust")), 3);
    assert_eq!(find_chunk_boundary(&lines, 2, usize::MAX, &chars("rust")), 3);
    assert_eq!(find_chunk_boundary(&lines, 7, 1, &chars("rust")), 3);
}

#[test]
fn cut_falls_just_after_the_last_boundary_of_the_second_half() {
    let lines = rows(&["a", "", "b", "", "c", "d", "e", "f"]);
    // window 0..6, second half is lines 3..6: the blank line 3 is the only boundary
    assert_eq!(find_chunk_boundary(&lines, 0, 6, &chars("rust")), 4);
    // window 0..4, second half is lines 2..4: line 3 is blank
    assert_eq!(find_chunk_boundary(&lines, 0, 4, &chars("rust")), 4);
    // window 0..3, second half is lines 1..3: line 1 is blank, line 2 is not
    assert_eq!(find_chunk_boundary(&lines, 0, 3, &chars("rust")), 2);
    // window 4..7 holds no boundary: cut at its end
    assert_eq!(find_chunk_boundary(&lines, 4, 3, &chars("rust")), 7);
    // a boundary in the first half of the window is not looked at
    assert_eq!(find_chunk_boundary(&lines, 1, 6, &chars("rust")), 7);
    // an empty window that does not reach the end
    assert_eq!(find_chunk_boundary(&lines, 2, 0, &chars("rust")), 2);
}

fn assert_chunk(c: &CodeChunk, language: &str, start: u32, end: u32, content: &str) {
    let hash = hash_content(content);
    assert_eq!(c.content, content);
    assert_eq!(c.hash, hash);
    assert_eq!(c.id, format!("chunk:{}:{}", start, &hash[..8]));
    assert_eq!(c.start_line, start);
    assert_eq!(c.end_line, end);
    assert_eq!(c.chunk_type, "chunk");
    assert_eq!(c.language, language);
    assert_eq!(c.file_path, "");
    assert!(c.symbols.is_empty());
}

#[test]
fn chunks_of_the_two_functions() {
    let content = "\nfunction foo() {\n    return 1;\n}\n\nfunction bar() {\n    return 2;\n}\n";
    let chunks = chunk_code(content, "typescript", 5, 1).unwrap();
    assert_eq!(chunks.len(), 2);
    assert_chunk(&chunks[0], "typescript", 1, 5, "\nfunction foo() {\n    return 1;\n}\n");
    assert_chunk(&chunks[1], "typescript", 5, 8, "\nfunction bar() {\n    return 2;\n}");
    assert_eq!(chunks[0].id, "chunk:1:9f621a06");
    assert_eq!(chunks[1].id, "chunk:5:ee953c57");
    assert_eq!(
        chunks[0].hash,
        "9f621a06d321e142817a1b797a543191e1fd59501859cecbbed6b79013db5320"
    );
}

#[test]
fn windows_without_boundaries_overlap_by_the_given_lines() {
    let chunks = chunk_code("l1\nl2\nl3\nl4\nl5\nl6\nl7", "text", 3, 1).unwrap();
    assert_eq!(chunks.len(), 3);
    assert_chunk(&chunks[0], "text", 1, 3, "l1\nl2\nl3");
    assert_chunk(&chunks[1], "text", 3, 5, "l3\nl4\nl5");
    assert_chunk(&chunks[2], "text", 5, 7, "l5\nl6\nl7");
}

#[test]
fn empty_text_has_no_chunks() {
    assert!(chunk_code("", "rust", 5, 1).unwrap().is_empty());
    assert!(chunk_code("", "rust", 0, 0).unwrap().is_empty());
}

#[test]
fn one_window_holds_a_short_text() {
    let chunks = chunk_code("a\r\nb\n", "rust", 10, 3).unwrap();
    assert_eq!(chunks.len(), 1);
    assert_chunk(&chunks[0], "rust", 1, 2, "a\nb");
}

#[test]
fn window_of_one_line_gives_one_chunk_per_line() {
    let chunks = chunk_code("a\n\nb", "go", 1, 0).unwrap();
    assert_eq!(chunks.len(), 3);
    assert_chunk(&chunks[0], "go", 1, 1, "a");
    assert_chunk(&chunks[1], "go", 2, 2, "");
    assert_chunk(&chunks[2], "go", 3, 3, "b");
}

#[test]
fn stalls_when_the_overlap_reaches_back_to_the_start() {
    // window 0..4, boundary at line 2, cut at 3, overlap 3 steps back to 0
    assert_eq!(chunk_code("a\nb\n\nc\nd\ne\nf", "text", 4, 3).err(), Some(IndexError::Stalled));
    // an empty window never advances
    assert_eq!(chunk_code("a\nb", "text", 0, 0).err(), Some(IndexError::Stalled));
    // overlap as large as the window
    assert_eq!(chunk_code("a\nb\nc\nd", "text", 2, 2).err(), Some(IndexError::Stalled));
}

#[test]
fn large_overlap_is_fine_where_the_cursor_still_advances() {
    // no boundary: windows of 4 lines that overlap by 3
    let chunks = chunk_code("a\nb\nc\nd\ne\nf", "text", 4, 3).unwrap();
    let spans: Vec<(u32, u32)> = chunks.iter().map(|c| (c.start_line, c.end_line)).collect();
    assert_eq!(spans, vec![(1, 4), (2, 5), (3, 6)]);
}

fn assert_covers(chunks: &[CodeChunk], line_count: u32) {
    assert_eq!(chunks.is_empty(), line_count == 0);
    if chunks.is_empty() {
        return;
    }
    assert_eq!(chunks[0].start_line, 1);
    assert_eq!(chunks[chunks.len() - 1].end_line, line_count);
    for c in chunks {
        assert!(1 <= c.start_line && c.start_line <= c.end_line && c.end_line <= line_count);
    }
    for w in chunks.windows(2) {
        assert!(w[0].start_line < w[1].start_line);
        assert!(w[1].start_line <= w[0].end_line + 1);
    }
}

#[test]
fn chunks_cover_every_line_in_order() {
    let mut content = String::new();
    for i in 0..57 {
        if i % 7 == 3 {
            content.push_str("}\n");
        } else if i % 11 == 5 {
            content.push('\n');
        } else if i % 5 == 0 {
            content.push_str("fn f() {\n");
        } else {
            content.push_str("    let x = 1;\n");
        }
    }
    for max in 1..12usize {
        for overlap in 0..=max / 2 {
            let chunks = chunk_code(&content, "rust", max, overlap).unwrap();
            assert_covers(&chunks, 57);
            for c in &chunks {
                assert!((c.end_line - c.start_line + 1) as usize <= max);
            }
        }
    }
}

#[test]
fn whenever_chunking_ends_the_chunks_cover_every_line() {
    let content = "a\n\nb\n}\nc\nd\n\ne\nf\ng\n};\nh";
    for max in 0..8usize {
        for overlap in 0..8usize {
            match chunk_code(content, "rust", max, overlap) {
                Ok(chunks) => assert_covers(&chunks, 12),
                Err(e) => {
                    assert_eq!(e, IndexError::Stalled);
                    assert!(max == 0 || overlap > max / 2);
                }
            }
        }
    }
}

#[test]
fn chunking_twice_gives_the_same_chunks() {
    let content = "\nfunction foo() {\n    return 1;\n}\n\nfunction bar() {\n    return 2;\n}\n";
    let a = chunk_code(content, "typescript", 3, 1).unwrap();
    let b = chunk_code(content, "typescript", 3, 1).unwrap();
    assert_eq!(a.len(), b.len());
    for (x, y) in a.iter().zip(b.iter()) {
        assert_eq!(x.id, y.id);
        assert_eq!(x.content, y.content);
        assert_eq!(x.hash, y.hash);
        assert_eq!((x.start_line, x.end_line), (y.start_line, y.end_line));
        assert_eq!(x.chunk_type, y.chunk_type);
        assert_eq!(x.language, y.language);
        assert_eq!(x.symbols, y.symbols);
        assert_eq!(x.file_path, y.file_path);
    }
}
