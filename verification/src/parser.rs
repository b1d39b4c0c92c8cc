//! Structure-aware extraction: chunks and symbols read off a syntax tree.

use crate::hashing::{hash_content, hash_text};
use crate::text::{
    chars_of, find_char_from, find_from, has_str_prefix, slice_source, source_slice, starts_with,
    str_equal, string_of, trim, trim_chars,
};
use crate::types::{
    chunk_id, chunk_id_text, chunk_views, symbol_views, texts, yields_chunks, yields_symbols,
    ChunkView, CodeChunk, IndexError, Symbol, SymbolView,
};
use vstd::prelude::*;
use vstd::utf8::encode_utf8;

verus! {

/// Whether nodes of this kind become chunks in the given language.
pub open spec fn chunk_node(kind: Seq<char>, language: Seq<char>) -> bool {
    if language == "typescript"@ || language == "javascript"@ {
        kind == "function_declaration"@ || kind == "method_definition"@ || kind
            == "class_declaration"@ || kind == "interface_declaration"@ || kind
            == "type_alias_declaration"@ || kind == "enum_declaration"@ || kind
            == "export_statement"@
    } else if language == "python"@ {
        kind == "function_definition"@ || kind == "class_definition"@
    } else if language == "rust"@ {
        kind == "function_item"@ || kind == "impl_item"@ || kind == "struct_item"@ || kind
            == "enum_item"@ || kind == "trait_item"@ || kind == "mod_item"@
    } else if language == "go"@ {
        kind == "function_declaration"@ || kind == "method_declaration"@ || kind
            == "type_declaration"@
    } else {
        false
    }
}

/// Decides `chunk_node`.
pub fn is_chunk_node(kind: &str, language: &str) -> (b: bool)
    ensures
        b == chunk_node(kind@, language@),
{
    if str_equal(language, "typescript") || str_equal(language, "javascript") {
        str_equal(kind, "function_declaration") || str_equal(kind, "method_definition")
            || str_equal(kind, "class_declaration") || str_equal(kind, "interface_declaration")
            || str_equal(kind, "type_alias_declaration") || str_equal(kind, "enum_declaration")
            || str_equal(kind, "export_statement")
    } else if str_equal(language, "python") {
        str_equal(kind, "function_definition") || str_equal(kind, "class_definition")
    } else if str_equal(language, "rust") {
        str_equal(kind, "function_item") || str_equal(kind, "impl_item") || str_equal(
            kind,
            "struct_item",
        ) || str_equal(kind, "enum_item") || str_equal(kind, "trait_item") || str_equal(
            kind,
            "mod_item",
        )
    } else if str_equal(language, "go") {
        str_equal(kind, "function_declaration") || str_equal(kind, "method_declaration")
            || str_equal(kind, "type_declaration")
    } else {
        false
    }
}

/// The chunk type of a node kind.
pub open spec fn chunk_type_of(kind: Seq<char>) -> Seq<char> {
    if kind == "function_declaration"@ || kind == "function_definition"@ || kind
        == "function_item"@ {
        "function"@
    } else if kind == "method_definition"@ || kind == "method_declaration"@ {
        "method"@
    } else if kind == "class_declaration"@ || kind == "class_definition"@ {
        "class"@
    } else if kind == "interface_declaration"@ || kind == "trait_item"@ {
        "interface"@
    } else if kind == "struct_item"@ || kind == "type_declaration"@ {
        "type"@
    } else if kind == "enum_declaration"@ || kind == "enum_item"@ {
        "enum"@
    } else if kind == "impl_item"@ {
        "impl"@
    } else if kind == "mod_item"@ {
        "module"@
    } else {
        "other"@
    }
}

/// Maps a node kind to its chunk type. The language plays no part.
pub fn map_node_kind(kind: &str, language: &str) -> (label: String)
    ensures
        label@ == chunk_type_of(kind@),
{
    let label = if str_equal(kind, "function_declaration") || str_equal(
        kind,
        "function_definition",
    ) || str_equal(kind, "function_item") {
        "function"
    } else if str_equal(kind, "method_definition") || str_equal(kind, "method_declaration") {
        "method"
    } else if str_equal(kind, "class_declaration") || str_equal(kind, "class_definition") {
        "class"
    } else if str_equal(kind, "interface_declaration") || str_equal(kind, "trait_item") {
        "interface"
    } else if str_equal(kind, "struct_item") || str_equal(kind, "type_declaration") {
        "type"
    } else if str_equal(kind, "enum_declaration") || str_equal(kind, "enum_item") {
        "enum"
    } else if str_equal(kind, "impl_item") {
        "impl"
    } else if str_equal(kind, "mod_item") {
        "module"
    } else {
        "other"
    };
    label.to_string()
}

/// Whether nodes of this kind declare a symbol.
pub open spec fn symbol_node(kind: Seq<char>) -> bool {
    kind == "function_declaration"@ || kind == "function_definition"@ || kind == "function_item"@
        || kind == "method_definition"@ || kind == "method_declaration"@ || kind
        == "class_declaration"@ || kind == "class_definition"@ || kind == "interface_declaration"@
        || kind == "struct_item"@ || kind == "enum_declaration"@ || kind == "enum_item"@ || kind
        == "type_alias_declaration"@ || kind == "trait_item"@
}

/// Decides `symbol_node`.
pub fn is_symbol_node(kind: &str) -> (b: bool)
    ensures
        b == symbol_node(kind@),
{
    str_equal(kind, "function_declaration") || str_equal(kind, "function_definition")
        || str_equal(kind, "function_item") || str_equal(kind, "method_definition") || str_equal(
        kind,
        "method_declaration",
    ) || str_equal(kind, "class_declaration") || str_equal(kind, "class_definition")
        || str_equal(kind, "interface_declaration") || str_equal(kind, "struct_item")
        || str_equal(kind, "enum_declaration") || str_equal(kind, "enum_item") || str_equal(
        kind,
        "type_alias_declaration",
    ) || str_equal(kind, "trait_item")
}

/// The symbol kind of a node kind.
pub open spec fn symbol_kind_of(kind: Seq<char>) -> Seq<char> {
    if kind == "function_declaration"@ || kind == "function_definition"@ || kind
        == "function_item"@ {
        "function"@
    } else if kind == "method_definition"@ || kind == "method_declaration"@ {
        "method"@
    } else if kind == "class_declaration"@ || kind == "class_definition"@ {
        "class"@
    } else if kind == "interface_declaration"@ || kind == "trait_item"@ {
        "interface"@
    } else if kind == "struct_item"@ {
        "class"@
    } else if kind == "enum_declaration"@ || kind == "enum_item"@ {
        "enum"@
    } else if kind == "type_alias_declaration"@ {
        "type"@
    } else {
        "variable"@
    }
}

/// Maps a node kind to its symbol kind.
pub fn map_symbol_kind(kind: &str) -> (label: String)
    ensures
        label@ == symbol_kind_of(kind@),
{
    let label = if str_equal(kind, "function_declaration") || str_equal(
        kind,
        "function_definition",
    ) || str_equal(kind, "function_item") {
        "function"
    } else if str_equal(kind, "method_definition") || str_equal(kind, "method_declaration") {
        "method"
    } else if str_equal(kind, "class_declaration") || str_equal(kind, "class_definition") {
        "class"
    } else if str_equal(kind, "interface_declaration") || str_equal(kind, "trait_item") {
        "interface"
    } else if str_equal(kind, "struct_item") {
        "class"
    } else if str_equal(kind, "enum_declaration") || str_equal(kind, "enum_item") {
        "enum"
    } else if str_equal(kind, "type_alias_declaration") {
        "type"
    } else {
        "variable"
    };
    label.to_string()
}

/// A node of a syntax tree: its kind, the bytes and rows of the source that it
/// spans (rows counted from 0), and its children in source order.
#[derive(Debug)]
pub struct SyntaxNode {
    pub kind: String,
    pub start_byte: usize,
    pub end_byte: usize,
    pub start_row: usize,
    pub end_row: usize,
    pub children: Vec<SyntaxNode>,
}

/// What a `SyntaxNode` holds, as plain values.
pub ghost struct SyntaxTree {
    pub kind: Seq<char>,
    pub start_byte: int,
    pub end_byte: int,
    pub start_row: int,
    pub end_row: int,
    pub children: Seq<SyntaxTree>,
}

/// The plain value of a node and of everything below it.
pub open spec fn tree_of(node: SyntaxNode) -> SyntaxTree
    decreases node,
{
    SyntaxTree {
        kind: node.kind@,
        start_byte: node.start_byte as int,
        end_byte: node.end_byte as int,
        start_row: node.start_row as int,
        end_row: node.end_row as int,
        children: Seq::new(
            node.children@.len(),
            |i: int|
                if 0 <= i < node.children@.len() {
                    tree_of(node.children@[i])
                } else {
                    arbitrary()
                },
        ),
    }
}

impl View for SyntaxNode {
    type V = SyntaxTree;

    open spec fn view(&self) -> SyntaxTree {
        tree_of(*self)
    }
}

/// The view of a node holds the views of its children, one for one.
pub proof fn lemma_view_children(node: SyntaxNode)
    ensures
        node@.children.len() == node.children@.len(),
        forall|i: int| 0 <= i < node.children@.len() ==> node@.children[i] == node.children@[i]@,
{
}

/// Whether nodes of this kind are names.
pub open spec fn name_kind(kind: Seq<char>) -> bool {
    kind == "identifier"@ || kind == "type_identifier"@
}

/// Whether the byte range of a node lies inside the encoding of `source`.
pub open spec fn range_inside(source: Seq<char>, tree: SyntaxTree) -> bool {
    0 <= tree.start_byte <= tree.end_byte <= encode_utf8(source).len()
}

/// The texts of the names among the first `upto` children, in order. A name
/// whose range does not fall between characters is left out. `None` if the
/// range of a name lies outside the source.
pub open spec fn child_names(source: Seq<char>, children: Seq<SyntaxTree>, upto: int) -> Option<
    Seq<Seq<char>>,
>
    decreases upto,
{
    if upto <= 0 || upto > children.len() {
        Some(Seq::empty())
    } else {
        match child_names(source, children, upto - 1) {
            None => None,
            Some(names) => {
                let child = children[upto - 1];
                if !name_kind(child.kind) {
                    Some(names)
                } else if !range_inside(source, child) {
                    None
                } else {
                    match source_slice(source, child.start_byte, child.end_byte) {
                        Some(text) => Some(names.push(text)),
                        None => Some(names),
                    }
                }
            },
        }
    }
}

/// The chunk of one node: its text, its lines counted from 1, the chunk type of
/// its kind, and the names among its children. `None` if the node does not fit
/// the source or a line number does not fit.
pub open spec fn node_chunk(
    source: Seq<char>,
    file_path: Seq<char>,
    language: Seq<char>,
    tree: SyntaxTree,
) -> Option<ChunkView> {
    match (
        source_slice(source, tree.start_byte, tree.end_byte),
        child_names(source, tree.children, tree.children.len() as int),
    ) {
        (Some(text), Some(names)) => {
            if tree.start_row < u32::MAX && tree.end_row < u32::MAX {
                let hash = hash_text(text);
                Some(
                    ChunkView {
                        id: chunk_id_text(file_path, (tree.start_row + 1) as nat, hash),
                        file_path,
                        content: text,
                        start_line: tree.start_row + 1,
                        end_line: tree.end_row + 1,
                        chunk_type: chunk_type_of(tree.kind),
                        language,
                        symbols: names,
                        hash,
                    },
                )
            } else {
                None
            }
        },
        _ => None,
    }
}

/// The chunks of the first `upto` subtrees of `tree`, in order.
pub open spec fn children_chunks(
    source: Seq<char>,
    file_path: Seq<char>,
    language: Seq<char>,
    tree: SyntaxTree,
    upto: int,
) -> Option<Seq<ChunkView>>
    decreases tree, upto,
{
    if upto <= 0 || upto > tree.children.len() {
        Some(Seq::empty())
    } else {
        match (
            children_chunks(source, file_path, language, tree, upto - 1),
            tree_chunks(source, file_path, language, tree.children[upto - 1]),
        ) {
            (Some(before), Some(last)) => Some(before + last),
            _ => None,
        }
    }
}

/// The chunks of a tree, depth first: the chunk of the root if its kind is
/// chunk-worthy in the language, then the chunks of each subtree. Chunks of
/// nested declarations overlap the chunks that enclose them. `None` if some
/// chunk-worthy node has no chunk.
pub open spec fn tree_chunks(
    source: Seq<char>,
    file_path: Seq<char>,
    language: Seq<char>,
    tree: SyntaxTree,
) -> Option<Seq<ChunkView>>
    decreases tree, tree.children.len() + 1,
{
    let below = children_chunks(source, file_path, language, tree, tree.children.len() as int);
    if chunk_node(tree.kind, language) {
        match (node_chunk(source, file_path, language, tree), below) {
            (Some(own), Some(rest)) => Some(seq![own] + rest),
            _ => None,
        }
    } else {
        below
    }
}

/// Decides `name_kind`.
fn is_name_kind(kind: &str) -> (b: bool)
    ensures
        b == name_kind(kind@),
{
    str_equal(kind, "identifier") || str_equal(kind, "type_identifier")
}

/// Collects the names among the children of `node`.
fn extract_node_symbols(node: &SyntaxNode, source: &str) -> (res: Result<Vec<String>, IndexError>)
    ensures
        match child_names(source@, node@.children, node@.children.len() as int) {
            Some(names) => res is Ok && texts(res.unwrap()@) == names,
            None => res == Err::<Vec<String>, IndexError>(IndexError::MalformedInput),
        },
{
    let mut symbols: Vec<String> = Vec::new();
    let limit: usize = source.as_bytes().len();
    let mut i: usize = 0;
    proof {
        lemma_view_children(*node);
    }
    while i < node.children.len()
        invariant
            i <= node.children@.len(),
            node@.children.len() == node.children@.len(),
            forall|k: int| 0 <= k < node.children@.len() ==> node@.children[k] == node.children@[k]@,
            limit == encode_utf8(source@).len(),
            child_names(source@, node@.children, i as int) == Some(texts(symbols@)),
        decreases node.children@.len() - i,
    {
        let child = &node.children[i];
        if is_name_kind(child.kind.as_str()) {
            if !(child.start_byte <= child.end_byte && child.end_byte <= limit) {
                proof {
                    lemma_child_names_fail(source@, node@.children, i + 1, node@.children.len() as int);
                }
                return Err(IndexError::MalformedInput);
            }
            match slice_source(source, child.start_byte, child.end_byte) {
                Some(text) => {
                    let name = text.to_string();
                    symbols.push(name);
                },
                None => {},
            }
        }
        i += 1;
    }
    Ok(symbols)
}

/// Once the names among the first children cannot be had, neither can those among more.
pub proof fn lemma_child_names_fail(
    source: Seq<char>,
    children: Seq<SyntaxTree>,
    upto: int,
    more: int,
)
    requires
        child_names(source, children, upto) is None,
        upto <= more <= children.len(),
    ensures
        child_names(source, children, more) is None,
    decreases more - upto,
{
    if upto < more {
        lemma_child_names_fail(source, children, upto, more - 1);
    }
}

/// Builds the chunk of one node.
fn make_node_chunk(node: &SyntaxNode, source: &str, file_path: &str, language: &str) -> (res:
    Result<CodeChunk, IndexError>)
    ensures
        match node_chunk(source@, file_path@, language@, node@) {
            Some(view) => res is Ok && res.unwrap()@ == view,
            None => res == Err::<CodeChunk, IndexError>(IndexError::MalformedInput),
        },
{
    let text = match slice_source(source, node.start_byte, node.end_byte) {
        Some(text) => text,
        None => {
            return Err(IndexError::MalformedInput);
        },
    };
    let symbols = match extract_node_symbols(node, source) {
        Ok(symbols) => symbols,
        Err(e) => {
            return Err(e);
        },
    };
    if node.start_row >= u32::MAX as usize || node.end_row >= u32::MAX as usize {
        return Err(IndexError::MalformedInput);
    }
    let hash = hash_content(text);
    let id = chunk_id(file_path, node.start_row + 1, hash.as_str());
    Ok(
        CodeChunk {
            id,
            file_path: file_path.to_string(),
            content: text.to_string(),
            start_line: (node.start_row + 1) as u32,
            end_line: (node.end_row + 1) as u32,
            chunk_type: map_node_kind(node.kind.as_str(), language),
            language: language.to_string(),
            symbols,
            hash,
        },
    )
}

/// Walks the tree depth first and appends the chunk of every chunk-worthy node.
fn extract_chunks_recursive(
    node: &SyntaxNode,
    source: &str,
    file_path: &str,
    language: &str,
    chunks: &mut Vec<CodeChunk>,
) -> (res: Result<(), IndexError>)
    ensures
        match tree_chunks(source@, file_path@, language@, node@) {
            Some(found) => res is Ok && chunk_views(final(chunks)@) == chunk_views(old(chunks)@)
                + found,
            None => res == Err::<(), IndexError>(IndexError::MalformedInput),
        },
    decreases node,
{
    let ghost start = chunk_views(chunks@);
    let ghost mut own: Seq<ChunkView> = Seq::empty();
    if is_chunk_node(node.kind.as_str(), language) {
        match make_node_chunk(node, source, file_path, language) {
            Ok(chunk) => {
                proof {
                    own = seq![chunk@];
                }
                chunks.push(chunk);
            },
            Err(e) => {
                return Err(e);
            },
        }
    }
    proof {
        lemma_view_children(*node);
    }
    let mut i: usize = 0;
    while i < node.children.len()
        invariant
            i <= node.children@.len(),
            node@.children.len() == node.children@.len(),
            forall|k: int| 0 <= k < node.children@.len() ==> node@.children[k] == node.children@[k]@,
            children_chunks(source@, file_path@, language@, node@, i as int) is Some,
            chunk_views(chunks@) == start + own + children_chunks(
                source@,
                file_path@,
                language@,
                node@,
                i as int,
            ).unwrap(),
            chunk_node(node@.kind, language@) ==> node_chunk(
                source@,
                file_path@,
                language@,
                node@,
            ) is Some && own == seq![node_chunk(source@, file_path@, language@, node@).unwrap()],
            !chunk_node(node@.kind, language@) ==> own == Seq::<ChunkView>::empty(),
        decreases node.children@.len() - i,
    {
        let child = &node.children[i];
        match extract_chunks_recursive(child, source, file_path, language, chunks) {
            Ok(()) => {},
            Err(e) => {
                proof {
                    lemma_children_chunks_fail(
                        source@,
                        file_path@,
                        language@,
                        node@,
                        i + 1,
                        node@.children.len() as int,
                    );
                }
                return Err(e);
            },
        }
        i += 1;
    }
    Ok(())
}

/// Once the chunks of the first subtrees cannot be had, neither can those of more.
pub proof fn lemma_children_chunks_fail(
    source: Seq<char>,
    file_path: Seq<char>,
    language: Seq<char>,
    tree: SyntaxTree,
    upto: int,
    more: int,
)
    requires
        children_chunks(source, file_path, language, tree, upto) is None,
        upto <= more <= tree.children.len(),
    ensures
        children_chunks(source, file_path, language, tree, more) is None,
    decreases more - upto,
{
    if upto < more {
        lemma_children_chunks_fail(source, file_path, language, tree, upto, more - 1);
    }
}

/// Longest signature, in characters, before trimming.
pub const SIGNATURE_CAP: usize = 100;

/// The text of the first name among the children from `from` on: `Some(None)` if
/// there is no name or if its range does not fall between characters, `None` if
/// its range lies outside the source.
pub open spec fn name_of(source: Seq<char>, children: Seq<SyntaxTree>, from: int) -> Option<
    Option<Seq<char>>,
>
    decreases children.len() - from,
{
    if from < 0 || from >= children.len() {
        Some(None)
    } else if name_kind(children[from].kind) {
        if range_inside(source, children[from]) {
            Some(source_slice(source, children[from].start_byte, children[from].end_byte))
        } else {
            None
        }
    } else {
        name_of(source, children, from + 1)
    }
}

/// The signature of a declaration: its text up to the first `{` or `:`,
/// whichever comes first, at most 100 characters of it, trimmed.
pub open spec fn signature_of(text: Seq<char>) -> Seq<char> {
    let brace = find_from(text, '{', 0);
    let colon = find_from(text, ':', 0);
    let stop = if brace <= colon {
        brace
    } else {
        colon
    };
    let cut = if stop <= SIGNATURE_CAP {
        stop
    } else {
        SIGNATURE_CAP as int
    };
    trim(text.subrange(0, cut))
}

/// Whether a declaration is exported: its parent is an export statement, or its
/// text starts with a visibility keyword.
pub open spec fn exported(parent_kind: Option<Seq<char>>, text: Seq<char>) -> bool {
    parent_kind == Some("export_statement"@) || starts_with(text, "pub "@) || starts_with(
        text,
        "export "@,
    )
}

/// The symbol that a node declares: `Some(None)` if its kind declares none or it
/// has no name, `None` if the node does not fit the source or a line number does
/// not fit.
pub open spec fn symbol_of(
    source: Seq<char>,
    file_path: Seq<char>,
    parent_kind: Option<Seq<char>>,
    tree: SyntaxTree,
) -> Option<Option<SymbolView>> {
    if !symbol_node(tree.kind) {
        Some(None)
    } else {
        match name_of(source, tree.children, 0) {
            None => None,
            Some(None) => Some(None),
            Some(Some(name)) => match source_slice(source, tree.start_byte, tree.end_byte) {
                None => None,
                Some(text) => if tree.start_row < u32::MAX && tree.end_row < u32::MAX {
                    Some(
                        Some(
                            SymbolView {
                                name,
                                kind: symbol_kind_of(tree.kind),
                                file_path,
                                start_line: tree.start_row + 1,
                                end_line: tree.end_row + 1,
                                signature: Some(signature_of(text)),
                                exported: exported(parent_kind, text),
                            },
                        ),
                    )
                } else {
                    None
                },
            },
        }
    }
}

/// The symbols of the first `upto` subtrees of `tree`, in order.
pub open spec fn children_symbols(
    source: Seq<char>,
    file_path: Seq<char>,
    tree: SyntaxTree,
    upto: int,
) -> Option<Seq<SymbolView>>
    decreases tree, upto,
{
    if upto <= 0 || upto > tree.children.len() {
        Some(Seq::empty())
    } else {
        match (
            children_symbols(source, file_path, tree, upto - 1),
            tree_symbols(source, file_path, Some(tree.kind), tree.children[upto - 1]),
        ) {
            (Some(before), Some(last)) => Some(before + last),
            _ => None,
        }
    }
}

/// The symbols of a tree, depth first: the symbol of the root if it declares
/// one, then the symbols of each subtree. `None` if some node has no answer.
pub open spec fn tree_symbols(
    source: Seq<char>,
    file_path: Seq<char>,
    parent_kind: Option<Seq<char>>,
    tree: SyntaxTree,
) -> Option<Seq<SymbolView>>
    decreases tree, tree.children.len() + 1,
{
    match (
        symbol_of(source, file_path, parent_kind, tree),
        children_symbols(source, file_path, tree, tree.children.len() as int),
    ) {
        (Some(Some(own)), Some(rest)) => Some(seq![own] + rest),
        (Some(None), Some(rest)) => Some(rest),
        _ => None,
    }
}

/// Once the symbols of the first subtrees cannot be had, neither can those of more.
pub proof fn lemma_children_symbols_fail(
    source: Seq<char>,
    file_path: Seq<char>,
    tree: SyntaxTree,
    upto: int,
    more: int,
)
    requires
        children_symbols(source, file_path, tree, upto) is None,
        upto <= more <= tree.children.len(),
    ensures
        children_symbols(source, file_path, tree, more) is None,
    decreases more - upto,
{
    if upto < more {
        lemma_children_symbols_fail(source, file_path, tree, upto, more - 1);
    }
}

/// Finds the text of the first name among the children of `node`.
fn find_name_child(node: &SyntaxNode, source: &str) -> (res: Result<Option<String>, IndexError>)
    ensures
        match name_of(source@, node@.children, 0) {
            Some(Some(name)) => res is Ok && res.unwrap() is Some && res.unwrap().unwrap()@ == name,
            Some(None) => res is Ok && res.unwrap() is None,
            None => res == Err::<Option<String>, IndexError>(IndexError::MalformedInput),
        },
{
    let limit: usize = source.as_bytes().len();
    let mut i: usize = 0;
    proof {
        lemma_view_children(*node);
    }
    while i < node.children.len()
        invariant
            i <= node.children@.len(),
            node@.children.len() == node.children@.len(),
            forall|k: int| 0 <= k < node.children@.len() ==> node@.children[k] == node.children@[k]@,
            limit == encode_utf8(source@).len(),
            name_of(source@, node@.children, i as int) == name_of(source@, node@.children, 0),
        decreases node.children@.len() - i,
    {
        let child = &node.children[i];
        if is_name_kind(child.kind.as_str()) {
            if !(child.start_byte <= child.end_byte && child.end_byte <= limit) {
                return Err(IndexError::MalformedInput);
            }
            return match slice_source(source, child.start_byte, child.end_byte) {
                Some(text) => Ok(Some(text.to_string())),
                None => Ok(None),
            };
        }
        i += 1;
    }
    Ok(None)
}

/// Decides `exported`.
fn is_exported(parent_kind: Option<&str>, text: &[char]) -> (b: bool)
    ensures
        b == exported(
            match parent_kind {
                Some(k) => Some(k@),
                None => None,
            },
            text@,
        ),
{
    let by_parent = match parent_kind {
        Some(k) => str_equal(k, "export_statement"),
        None => false,
    };
    by_parent || has_str_prefix(text, "pub ") || has_str_prefix(
        text,
        "export ",
    )
}

/// Computes `signature_of`.
fn signature_text(text: &[char]) -> (signature: String)
    ensures
        signature@ == signature_of(text@),
{
    let brace: usize = find_char_from(text, '{', 0);
    let colon: usize = find_char_from(text, ':', 0);
    let stop: usize = if brace <= colon {
        brace
    } else {
        colon
    };
    let cut: usize = if stop <= SIGNATURE_CAP {
        stop
    } else {
        SIGNATURE_CAP
    };
    let head = vstd::slice::slice_subrange(text, 0, cut);
    string_of(trim_chars(head))
}

/// Reads the symbol that a node declares, if any.
fn extract_symbol(node: &SyntaxNode, source: &str, file_path: &str, parent_kind: Option<&str>) -> (res:
    Result<Option<Symbol>, IndexError>)
    ensures
        match symbol_of(
            source@,
            file_path@,
            match parent_kind {
                Some(k) => Some(k@),
                None => None,
            },
            node@,
        ) {
            Some(Some(view)) => res is Ok && res.unwrap() is Some && res.unwrap().unwrap()@ == view,
            Some(None) => res is Ok && res.unwrap() is None,
            None => res == Err::<Option<Symbol>, IndexError>(IndexError::MalformedInput),
        },
{
    if !is_symbol_node(node.kind.as_str()) {
        return Ok(None);
    }
    let name = match find_name_child(node, source) {
        Ok(Some(name)) => name,
        Ok(None) => {
            return Ok(None);
        },
        Err(e) => {
            return Err(e);
        },
    };
    let text = match slice_source(source, node.start_byte, node.end_byte) {
        Some(text) => chars_of(text),
        None => {
            return Err(IndexError::MalformedInput);
        },
    };
    if node.start_row >= u32::MAX as usize || node.end_row >= u32::MAX as usize {
        return Err(IndexError::MalformedInput);
    }
    Ok(
        Some(
            Symbol {
                name,
                kind: map_symbol_kind(node.kind.as_str()),
                file_path: file_path.to_string(),
                start_line: (node.start_row + 1) as u32,
                end_line: (node.end_row + 1) as u32,
                signature: Some(signature_text(text.as_slice())),
                exported: is_exported(parent_kind, text.as_slice()),
            },
        ),
    )
}

/// Walks the tree depth first and appends the symbol of every node that declares one.
fn extract_symbols_recursive(
    node: &SyntaxNode,
    source: &str,
    file_path: &str,
    parent_kind: Option<&str>,
    symbols: &mut Vec<Symbol>,
) -> (res: Result<(), IndexError>)
    ensures
        match tree_symbols(
            source@,
            file_path@,
            match parent_kind {
                Some(k) => Some(k@),
                None => None,
            },
            node@,
        ) {
            Some(found) => res is Ok && symbol_views(final(symbols)@) == symbol_views(
                old(symbols)@,
            ) + found,
            None => res == Err::<(), IndexError>(IndexError::MalformedInput),
        },
    decreases node,
{
    let ghost start = symbol_views(symbols@);
    let ghost mut own: Seq<SymbolView> = Seq::empty();
    match extract_symbol(node, source, file_path, parent_kind) {
        Ok(Some(symbol)) => {
            proof {
                own = seq![symbol@];
            }
            symbols.push(symbol);
        },
        Ok(None) => {},
        Err(e) => {
            return Err(e);
        },
    }
    proof {
        lemma_view_children(*node);
    }
    let ghost above: Option<Seq<char>> = match parent_kind {
        Some(k) => Some(k@),
        None => None,
    };
    let mut i: usize = 0;
    while i < node.children.len()
        invariant
            i <= node.children@.len(),
            node@.children.len() == node.children@.len(),
            forall|k: int| 0 <= k < node.children@.len() ==> node@.children[k] == node.children@[k]@,
            node@.kind == node.kind@,
            children_symbols(source@, file_path@, node@, i as int) is Some,
            symbol_views(symbols@) == start + own + children_symbols(
                source@,
                file_path@,
                node@,
                i as int,
            ).unwrap(),
            match symbol_of(source@, file_path@, above, node@) {
                Some(Some(view)) => own == seq![view],
                Some(None) => own == Seq::<SymbolView>::empty(),
                None => false,
            },
        decreases node.children@.len() - i,
    {
        let child = &node.children[i];
        match extract_symbols_recursive(child, source, file_path, Some(node.kind.as_str()), symbols) {
            Ok(()) => {},
            Err(e) => {
                proof {
                    lemma_children_symbols_fail(
                        source@,
                        file_path@,
                        node@,
                        i + 1,
                        node@.children.len() as int,
                    );
                }
                return Err(e);
            },
        }
        i += 1;
    }
    Ok(())
}

/// The grammars that source text can be parsed with.
#[derive(Debug, Clone, Copy, PartialEq, Eq, Structural)]
pub enum Grammar {
    TypeScript,
    JavaScript,
    Python,
    Rust,
    Go,
}

/// The grammar that a language tag stands for, if any.
pub open spec fn grammar_of(language: Seq<char>) -> Option<Grammar> {
    if language == "typescript"@ || language == "tsx"@ {
        Some(Grammar::TypeScript)
    } else if language == "javascript"@ || language == "jsx"@ {
        Some(Grammar::JavaScript)
    } else if language == "python"@ {
        Some(Grammar::Python)
    } else if language == "rust"@ {
        Some(Grammar::Rust)
    } else if language == "go"@ {
        Some(Grammar::Go)
    } else {
        None
    }
}

/// Looks up the grammar of a language tag.
pub fn get_parser(language: &str) -> (res: Result<Grammar, IndexError>)
    ensures
        match grammar_of(language@) {
            Some(grammar) => res == Ok::<Grammar, IndexError>(grammar),
            None => res == Err::<Grammar, IndexError>(IndexError::UnsupportedLanguage),
        },
{
    if str_equal(language, "typescript") || str_equal(language, "tsx") {
        Ok(Grammar::TypeScript)
    } else if str_equal(language, "javascript") || str_equal(language, "jsx") {
        Ok(Grammar::JavaScript)
    } else if str_equal(language, "python") {
        Ok(Grammar::Python)
    } else if str_equal(language, "rust") {
        Ok(Grammar::Rust)
    } else if str_equal(language, "go") {
        Ok(Grammar::Go)
    } else {
        Err(IndexError::UnsupportedLanguage)
    }
}

/// The tags of the languages that chunks are extracted for, in their fixed order.
pub open spec fn supported_languages() -> Seq<Seq<char>> {
    seq!["typescript"@, "javascript"@, "python"@, "rust"@, "go"@]
}

/// Lists the languages that chunks are extracted for.
pub fn get_supported_languages() -> (tags: Vec<String>)
    ensures
        texts(tags@) == supported_languages(),
{
    let mut tags: Vec<String> = Vec::new();
    tags.push("typescript".to_string());
    tags.push("javascript".to_string());
    tags.push("python".to_string());
    tags.push("rust".to_string());
    tags.push("go".to_string());
    tags
}

/// The chunks of a syntax tree of `source`: `UnsupportedLanguage` if the tag
/// names no language, `MalformedInput` if a chunk-worthy node does not fit the
/// source.
pub open spec fn structural_chunks(
    tree: SyntaxTree,
    source: Seq<char>,
    file_path: Seq<char>,
    language: Seq<char>,
) -> Result<Seq<ChunkView>, IndexError> {
    if grammar_of(language) is None {
        Err(IndexError::UnsupportedLanguage)
    } else {
        match tree_chunks(source, file_path, language, tree) {
            Some(chunks) => Ok(chunks),
            None => Err(IndexError::MalformedInput),
        }
    }
}

/// Extracts one chunk for every chunk-worthy node of `tree`, depth first.
pub fn extract_chunks_structural(
    tree: &SyntaxNode,
    source: &str,
    file_path: &str,
    language: &str,
) -> (res: Result<Vec<CodeChunk>, IndexError>)
    ensures
        yields_chunks(res, structural_chunks(tree@, source@, file_path@, language@)),
{
    match get_parser(language) {
        Ok(_) => {},
        Err(e) => {
            return Err(e);
        },
    }
    let mut chunks: Vec<CodeChunk> = Vec::new();
    match extract_chunks_recursive(tree, source, file_path, language, &mut chunks) {
        Ok(()) => {
            Ok(chunks)
        },
        Err(e) => Err(e),
    }
}

/// The symbols of a syntax tree of `source`: `MalformedInput` if a declaration
/// does not fit the source.
pub open spec fn structural_symbols(tree: SyntaxTree, source: Seq<char>, file_path: Seq<char>) -> Result<
    Seq<SymbolView>,
    IndexError,
> {
    match tree_symbols(source, file_path, None, tree) {
        Some(symbols) => Ok(symbols),
        None => Err(IndexError::MalformedInput),
    }
}

/// Extracts one symbol for every named declaration of `tree`, depth first.
pub fn extract_symbols_structural(tree: &SyntaxNode, source: &str, file_path: &str) -> (res: Result<
    Vec<Symbol>,
    IndexError,
>)
    ensures
        yields_symbols(res, structural_symbols(tree@, source@, file_path@)),
{
    let mut symbols: Vec<Symbol> = Vec::new();
    match extract_symbols_recursive(tree, source, file_path, None, &mut symbols) {
        Ok(()) => {
            Ok(symbols)
        },
        Err(e) => Err(e),
    }
}

/// The syntax tree that parsing `source` with `grammar` yields, if it yields one.
pub uninterp spec fn parsed_tree(source: Seq<char>, grammar: Grammar) -> Option<SyntaxTree>;

/// A node of a tree that `tree_sitter` parsed.
#[verifier::external_type_specification]
#[verifier::external_body]
pub struct ExNode<'tree>(tree_sitter::Node<'tree>);

/// Copies a `tree_sitter::Node` and everything below it: for each node what
/// `kind`, `start_byte`, `end_byte`, `start_position().row` and
/// `end_position().row` answer, and its children as `child` hands them out.
#[verifier::external_body]
fn copy_node(node: tree_sitter::Node) -> SyntaxNode {
    let mut children = Vec::new();
    for i in 0..node.child_count() {
        children.extend(node.child(i).map(copy_node));
    }
    SyntaxNode {
        kind: node.kind().to_string(),
        start_byte: node.start_byte(),
        end_byte: node.end_byte(),
        start_row: node.start_position().row,
        end_row: node.end_position().row,
        children,
    }
}

/// Parses `source` with `tree_sitter::Parser::parse`, after `set_language` with
/// the grammar's language, and copies the tree from its root node.
/// Trusted: the outcome depends on the source text and the grammar alone;
/// `None` where the language is refused or the parser returns no tree.
#[verifier::external_body]
fn parse_source(source: &str, grammar: Grammar) -> (tree: Option<SyntaxNode>)
    ensures
        match parsed_tree(source@, grammar) {
            Some(view) => tree is Some && tree.unwrap()@ == view,
            None => tree is None,
        },
{
    let language = match grammar {
        Grammar::TypeScript => tree_sitter_typescript::LANGUAGE_TYPESCRIPT,
        Grammar::JavaScript => tree_sitter_javascript::LANGUAGE,
        Grammar::Python => tree_sitter_python::LANGUAGE,
        Grammar::Rust => tree_sitter_rust::LANGUAGE,
        Grammar::Go => tree_sitter_go::LANGUAGE,
    };
    let mut parser = tree_sitter::Parser::new();
    parser.set_language(&language.into()).ok()?;
    let tree = parser.parse(source, None)?;
    Some(copy_node(tree.root_node()))
}

/// What parsing a file and extracting its chunks yields.
pub open spec fn file_chunks(file_path: Seq<char>, content: Seq<char>, language: Seq<char>) -> Result<
    Seq<ChunkView>,
    IndexError,
> {
    match grammar_of(language) {
        None => Err(IndexError::UnsupportedLanguage),
        Some(grammar) => match parsed_tree(content, grammar) {
            None => Err(IndexError::MalformedInput),
            Some(tree) => structural_chunks(tree, content, file_path, language),
        },
    }
}

/// Parses a file and extracts its chunks.
pub fn parse_file(file_path: &str, content: &str, language: &str) -> (res: Result<
    Vec<CodeChunk>,
    IndexError,
>)
    ensures
        yields_chunks(res, file_chunks(file_path@, content@, language@)),
{
    let grammar = match get_parser(language) {
        Ok(grammar) => grammar,
        Err(e) => {
            return Err(e);
        },
    };
    match parse_source(content, grammar) {
        Some(tree) => extract_chunks_structural(&tree, content, file_path, language),
        None => Err(IndexError::MalformedInput),
    }
}

/// What parsing a file and extracting its symbols yields.
pub open spec fn file_symbols(file_path: Seq<char>, content: Seq<char>, language: Seq<char>) -> Result<
    Seq<SymbolView>,
    IndexError,
> {
    match grammar_of(language) {
        None => Err(IndexError::UnsupportedLanguage),
        Some(grammar) => match parsed_tree(content, grammar) {
            None => Err(IndexError::MalformedInput),
            Some(tree) => structural_symbols(tree, content, file_path),
        },
    }
}

/// Parses a file and extracts its symbols.
pub fn extract_symbols(file_path: &str, content: &str, language: &str) -> (res: Result<
    Vec<Symbol>,
    IndexError,
>)
    ensures
        yields_symbols(res, file_symbols(file_path@, content@, language@)),
{
    let grammar = match get_parser(language) {
        Ok(grammar) => grammar,
        Err(e) => {
            return Err(e);
        },
    };
    match parse_source(content, grammar) {
        Some(tree) => extract_symbols_structural(&tree, content, file_path),
        None => Err(IndexError::MalformedInput),
    }
}

} // verus!
