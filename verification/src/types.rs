//! The records exchanged with callers, and their mathematical views.

use crate::text::{append_chars, chars_of, decimal_text, push_decimal, string_of};
use vstd::prelude::*;

verus! {

/// Why an operation of the library could not produce its result.
#[derive(Debug, Clone, Copy, PartialEq, Eq, Structural)]
pub enum IndexError {
    /// The language tag names no supported language.
    UnsupportedLanguage,
    /// No syntax tree is available, or the tree does not fit the source text.
    MalformedInput,
    /// The chunking cursor would not advance, so chunking would never end.
    Stalled,
    /// The text has more lines than a line number can count.
    TooManyLines,
}

/// The texts held by a sequence of strings.
pub open spec fn texts(v: Seq<String>) -> Seq<Seq<char>> {
    Seq::new(v.len(), |i: int| v[i]@)
}

/// A bounded, content-addressed slice of source text.
#[derive(Debug, Clone)]
pub struct CodeChunk {
    pub id: String,
    pub file_path: String,
    pub content: String,
    pub start_line: u32,
    pub end_line: u32,
    pub chunk_type: String,
    pub language: String,
    pub symbols: Vec<String>,
    pub hash: String,
}

/// What a `CodeChunk` holds, as plain values. Lines are counted from 1 and both
/// ends are inclusive.
pub ghost struct ChunkView {
    pub id: Seq<char>,
    pub file_path: Seq<char>,
    pub content: Seq<char>,
    pub start_line: int,
    pub end_line: int,
    pub chunk_type: Seq<char>,
    pub language: Seq<char>,
    pub symbols: Seq<Seq<char>>,
    pub hash: Seq<char>,
}

impl View for CodeChunk {
    type V = ChunkView;

    open spec fn view(&self) -> ChunkView {
        ChunkView {
            id: self.id@,
            file_path: self.file_path@,
            content: self.content@,
            start_line: self.start_line as int,
            end_line: self.end_line as int,
            chunk_type: self.chunk_type@,
            language: self.language@,
            symbols: texts(self.symbols@),
            hash: self.hash@,
        }
    }
}

/// Number of digest characters that enter a chunk's identifier.
pub const ID_HASH_LEN: usize = 8;

/// The identifier of a chunk: a scope, the line the chunk starts at, and the
/// first eight characters of its digest (all of it if it is shorter), joined
/// by colons.
pub open spec fn chunk_id_text(scope: Seq<char>, line: nat, digest: Seq<char>) -> Seq<char> {
    let kept = if digest.len() < ID_HASH_LEN {
        digest.len() as int
    } else {
        ID_HASH_LEN as int
    };
    scope + seq![':'] + decimal_text(line) + seq![':'] + digest.subrange(0, kept)
}

/// Builds the identifier of a chunk.
pub fn chunk_id(scope: &str, line: usize, digest: &str) -> (id: String)
    ensures
        id@ == chunk_id_text(scope@, line as nat, digest@),
{
    let all = chars_of(digest);
    let kept: usize = if all.len() < ID_HASH_LEN {
        all.len()
    } else {
        ID_HASH_LEN
    };
    let mut id = chars_of(scope);
    id.push(':');
    push_decimal(&mut id, line);
    id.push(':');
    append_chars(&mut id, vstd::slice::slice_subrange(all.as_slice(), 0, kept));
    string_of(id.as_slice())
}

/// The views of a sequence of chunks.
pub open spec fn chunk_views(v: Seq<CodeChunk>) -> Seq<ChunkView> {
    Seq::new(v.len(), |i: int| v[i]@)
}

/// Whether `res` is the outcome that `want` describes: the same error, or chunks
/// with exactly the wanted views, in order.
pub open spec fn yields_chunks(
    res: Result<Vec<CodeChunk>, IndexError>,
    want: Result<Seq<ChunkView>, IndexError>,
) -> bool {
    match want {
        Ok(views) => res is Ok && chunk_views(res.unwrap()@) == views,
        Err(e) => res == Err::<Vec<CodeChunk>, IndexError>(e),
    }
}

/// Whether two outcomes of chunking are the same: the same error, or chunks
/// that agree in every field, one for one.
pub open spec fn same_chunks(
    first: Result<Vec<CodeChunk>, IndexError>,
    second: Result<Vec<CodeChunk>, IndexError>,
) -> bool {
    match (first, second) {
        (Ok(a), Ok(b)) => chunk_views(a@) == chunk_views(b@),
        (Err(a), Err(b)) => a == b,
        _ => false,
    }
}

/// Chunking the same input twice gives the same outcome: every chunking
/// function yields what a function of its inputs describes, and two outcomes
/// that the same description fits are the same.
pub proof fn lemma_rechunking_is_identical(
    first: Result<Vec<CodeChunk>, IndexError>,
    second: Result<Vec<CodeChunk>, IndexError>,
    want: Result<Seq<ChunkView>, IndexError>,
)
    requires
        yields_chunks(first, want),
        yields_chunks(second, want),
    ensures
        same_chunks(first, second),
{
}

/// A declaration found in a source file.
#[derive(Debug, Clone)]
pub struct Symbol {
    pub name: String,
    pub kind: String,
    pub file_path: String,
    pub start_line: u32,
    pub end_line: u32,
    pub signature: Option<String>,
    pub exported: bool,
}

/// What a `Symbol` holds, as plain values.
pub ghost struct SymbolView {
    pub name: Seq<char>,
    pub kind: Seq<char>,
    pub file_path: Seq<char>,
    pub start_line: int,
    pub end_line: int,
    pub signature: Option<Seq<char>>,
    pub exported: bool,
}

impl View for Symbol {
    type V = SymbolView;

    open spec fn view(&self) -> SymbolView {
        SymbolView {
            name: self.name@,
            kind: self.kind@,
            file_path: self.file_path@,
            start_line: self.start_line as int,
            end_line: self.end_line as int,
            signature: match self.signature {
                Some(s) => Some(s@),
                None => None,
            },
            exported: self.exported,
        }
    }
}

/// The views of a sequence of symbols.
pub open spec fn symbol_views(v: Seq<Symbol>) -> Seq<SymbolView> {
    Seq::new(v.len(), |i: int| v[i]@)
}

/// Whether `res` is the outcome that `want` describes: the same error, or
/// symbols with exactly the wanted views, in order.
pub open spec fn yields_symbols(
    res: Result<Vec<Symbol>, IndexError>,
    want: Result<Seq<SymbolView>, IndexError>,
) -> bool {
    match want {
        Ok(views) => res is Ok && symbol_views(res.unwrap()@) == views,
        Err(e) => res == Err::<Vec<Symbol>, IndexError>(e),
    }
}

/// One file or directory of a manifest, as of a point in time.
#[derive(Debug, Clone)]
pub struct MerkleNode {
    pub hash: String,
    pub path: String,
    pub is_file: bool,
    pub children: Vec<String>,
}

/// The paths that differ between two manifests.
#[derive(Debug, Clone)]
pub struct SyncDiff {
    pub added: Vec<String>,
    pub modified: Vec<String>,
    pub deleted: Vec<String>,
}

} // verus!
