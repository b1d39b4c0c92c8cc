use indexer_native::embeddings::{
    chunk_for_embedding, compute_content_hash, preprocess_text, quantization_range, TextChunk,
    DEFAULT_CHUNK_WORDS, DEFAULT_MAX_TOKENS, DEFAULT_OVERLAP_WORDS, DEFAULT_QUANT_BITS,
    MAX_QUANT_BITS,
};
use indexer_native::performance::{
    get_best_backend, original_byte_size, quantized_byte_size, WEIGHT_BYTES,
};
use std::collections::hash_map::DefaultHasher;
use std::hash::{Hash, Hasher};

#[test]
fn preprocess_trims_lines_and_drops_blank_ones() {
    assert_eq!(preprocess_text("  a  \n\n\t b c \r\n   \nd".to_string(), None), "a\nb c\nd");
    assert_eq!(preprocess_text("".to_string(), None), "");
    assert_eq!(preprocess_text(" \n \n".to_string(), Some(5)), "");
    assert_eq!(preprocess_text("one line".to_string(), None), "one line");
}

#[test]
fn preprocess_cuts_to_four_bytes_per_token() {
    assert_eq!(preprocess_text("abcdefghij".to_string(), Some(2)), "abcdefgh");
    assert_eq!(preprocess_text("abcdefgh".to_string(), Some(2)), "abcdefgh");
    assert_eq!(preprocess_text("abc\n\ndefghij".to_string(), Some(1)), "abc\n");
    assert_eq!(preprocess_text("abcdefghij".to_string(), Some(0)), "");
    assert_eq!(DEFAULT_MAX_TOKENS, 8192);
    let long = "x".repeat(40000);
    assert_eq!(preprocess_text(long.clone(), None).len(), 32768);
    assert_eq!(preprocess_text(long.clone(), Some(u32::MAX)).len(), 40000);
}

#[test]
fn preprocess_never_cuts_a_character_in_two() {
    // "é" takes two bytes: the cut at byte 4 falls between characters
    assert_eq!(preprocess_text("éééé".to_string(), Some(1)), "éé");
    // "aééé": the cut at byte 4 falls inside the second "é"
    assert_eq!(preprocess_text("aééé".to_string(), Some(1)), "aé");
    // "€" takes three bytes, "😀" four
    assert_eq!(preprocess_text("€€€".to_string(), Some(1)), "€");
    assert_eq!(preprocess_text("ab😀😀".to_string(), Some(1)), "ab");
    assert_eq!(preprocess_text("😀😀".to_string(), Some(1)), "😀");
}

fn std_hash_key(content: &str) -> String {
    let mut hasher = DefaultHasher::new();
    content.to_string().hash(&mut hasher);
    format!("{:016x}", hasher.finish())
}

#[test]
fn content_hash_is_the_default_hash_in_sixteen_hex_digits() {
    for content in ["", "a", "hello world", "fn main() {}\n", "é€😀", "\u{0}"] {
        let key = compute_content_hash(content.to_string());
        assert_eq!(key.len(), 16);
        assert!(key.chars().all(|c| c.is_ascii_digit() || ('a'..='f').contains(&c)));
        assert_eq!(key, std_hash_key(content), "{:?}", content);
    }
}

#[test]
fn content_hash_tells_contents_apart() {
    assert_eq!(compute_content_hash("same".to_string()), compute_content_hash("same".to_string()));
    assert_ne!(compute_content_hash("a".to_string()), compute_content_hash("b".to_string()));
    assert_ne!(compute_content_hash("a".to_string()), "a");
}

fn spans(chunks: &[TextChunk]) -> Vec<(String, u32, u32, u32)> {
    chunks
        .iter()
        .map(|c| (c.text.clone(), c.start_offset, c.end_offset, c.overlap_prev))
        .collect()
}

#[test]
fn word_chunks_with_overlap() {
    let chunks = chunk_for_embedding("aa bb cc dd ee ff gg".to_string(), Some(3), Some(1));
    assert_eq!(
        spans(&chunks),
        vec![
            ("aa bb cc".to_string(), 0, 9, 0),
            ("cc dd ee".to_string(), 6, 15, 1),
            ("ee ff gg".to_string(), 12, 21, 1),
        ]
    );
}

#[test]
fn word_chunks_without_overlap() {
    let chunks = chunk_for_embedding("  a  bcd\tef\n".to_string(), Some(2), Some(0));
    assert_eq!(
        spans(&chunks),
        vec![("a bcd".to_string(), 0, 6, 0), ("ef".to_string(), 6, 9, 0)]
    );
}

#[test]
fn word_offsets_count_bytes() {
    let chunks = chunk_for_embedding("é €€ x".to_string(), Some(1), Some(0));
    assert_eq!(
        spans(&chunks),
        vec![("é".to_string(), 0, 3, 0), ("€€".to_string(), 3, 10, 0), ("x".to_string(), 10, 12, 0)]
    );
}

#[test]
fn word_chunks_of_short_and_empty_texts() {
    assert!(chunk_for_embedding("".to_string(), None, None).is_empty());
    assert!(chunk_for_embedding(" \n ".to_string(), Some(0), Some(0)).is_empty());
    let one = chunk_for_embedding("just three words".to_string(), None, None);
    assert_eq!(spans(&one), vec![("just three words".to_string(), 0, 17, 0)]);
    // one chunk holds the text, so any overlap will do
    let any = chunk_for_embedding("a b c".to_string(), Some(3), Some(9));
    assert_eq!(spans(&any), vec![("a b c".to_string(), 0, 6, 0)]);
    assert_eq!(DEFAULT_CHUNK_WORDS, 512);
    assert_eq!(DEFAULT_OVERLAP_WORDS, 50);
}

#[test]
fn word_chunks_with_the_default_sizes() {
    let text: Vec<String> = (0..1000).map(|i| format!("w{}", i)).collect();
    let chunks = chunk_for_embedding(text.join(" "), None, None);
    assert_eq!(chunks.len(), 3);
    assert!(chunks[0].text.starts_with("w0 w1 "));
    assert!(chunks[0].text.ends_with(" w511"));
    assert!(chunks[1].text.starts_with("w462 "));
    assert!(chunks[1].text.ends_with(" w973"));
    assert!(chunks[2].text.starts_with("w924 "));
    assert!(chunks[2].text.ends_with(" w999"));
    assert_eq!(chunks[0].overlap_prev, 0);
    assert_eq!(chunks[1].overlap_prev, 50);
    assert_eq!(chunks[2].overlap_prev, 50);
    assert_eq!(chunks[0].start_offset, 0);
    assert_eq!(chunks[1].start_offset, chunks[0].end_offset - 50 * 5);
}

#[test]
fn best_backend_prefers_cuda_then_metal_then_vulkan() {
    assert_eq!(get_best_backend(true, true, true), "cuda");
    assert_eq!(get_best_backend(true, false, false), "cuda");
    assert_eq!(get_best_backend(false, true, true), "metal");
    assert_eq!(get_best_backend(false, false, true), "vulkan");
    assert_eq!(get_best_backend(false, false, false), "cpu");
}

#[test]
fn byte_sizes_by_format() {
    assert_eq!(WEIGHT_BYTES, 8);
    assert_eq!(original_byte_size(0), 0);
    assert_eq!(original_byte_size(1000), 8000);
    assert_eq!(quantized_byte_size(1000, "f32"), 4000);
    assert_eq!(quantized_byte_size(1000, "f16"), 2000);
    assert_eq!(quantized_byte_size(1000, "bf16"), 2000);
    assert_eq!(quantized_byte_size(1000, "q8_0"), 1000);
    assert_eq!(quantized_byte_size(1000, "q4_0"), 500);
    assert_eq!(quantized_byte_size(1001, "q4_1"), 500);
    assert_eq!(quantized_byte_size(1000, "unknown"), 4000);
    assert_eq!(quantized_byte_size(1000, "F32"), 4000);
    assert_eq!(quantized_byte_size(usize::MAX / 8, "f32"), (usize::MAX / 8) * 4);
}

#[test]
fn quantization_ranges() {
    assert_eq!(DEFAULT_QUANT_BITS, 8);
    assert_eq!(MAX_QUANT_BITS, 31);
    assert_eq!(quantization_range(8), (-128, 127));
    assert_eq!(quantization_range(1), (-1, 0));
    assert_eq!(quantization_range(2), (-2, 1));
    assert_eq!(quantization_range(16), (-32768, 32767));
    assert_eq!(quantization_range(31), (-1073741824, 1073741823));
}

#[test]
fn quantized_values_come_back_within_one_step() {
    let v = [0.5f64, -1.25, 3.0, 2.75, 0.0, -0.1];
    let (min_val, max_val) = quantization_range(8);
    let lo = v.iter().cloned().fold(f64::INFINITY, f64::min);
    let hi = v.iter().cloned().fold(f64::NEG_INFINITY, f64::max);
    let scale = (max_val as f64 - min_val as f64) / (hi - lo);
    let step = (hi - lo) / 255.0;
    for x in v {
        let q = ((x - lo) * scale + min_val as f64).round() as i32;
        assert!(min_val <= q && q <= max_val);
        let back = (q as f64 - min_val as f64) / scale + lo;
        assert!((back - x).abs() <= step);
    }
}
