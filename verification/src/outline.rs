//! A map of a source file, so a large one can be navigated instead of pasted:
//! its definitions in source order, each with its kind, name, nesting,
//! lines, first line and byte range.
//!
//! Parsing is tree-sitter's, for each language its grammar; what the parse
//! gives is copied into the library's own `SyntaxNode` tree, and the outline
//! is read from that tree.

use crate::text::{contains, lines, trim};
use vstd::prelude::*;

verus! {

pub const MAX_SIGNATURE_CHARS: usize = 160;

pub const DEFAULT_MAX_SYMBOLS: usize = 400;

pub const HARD_MAX_SYMBOLS: usize = 2000;

pub const DEFAULT_MAX_MATCHES: usize = 50;

pub const HARD_MAX_MATCHES: usize = 200;

/// A workspace-wide search stops after this many candidate files.
pub const MAX_SEARCHED_FILES: usize = 5000;

/// A source language the outline knows.
#[derive(Clone, Copy, Debug, PartialEq, Eq, Structural)]
pub enum Language {
    Rust,
    Python,
    JavaScript,
    TypeScript,
    Tsx,
    Go,
}

/// The last component of a `/`-separated path, as `Path::file_name` finds
/// it: empty and `.` components do not count, and a path ending in `..`
/// has none.
pub open spec fn file_name(path: Seq<char>) -> Option<Seq<char>> {
    match last_component(crate::text::split_on(path, '/')) {
        Some(c) => if c == seq!['.', '.'] {
            None
        } else {
            Some(c)
        },
        None => None,
    }
}

/// The last of `parts` that is neither empty nor `.`.
pub open spec fn last_component(parts: Seq<Seq<char>>) -> Option<Seq<char>>
    decreases parts.len(),
{
    if parts.len() == 0 {
        None
    } else if parts.last().len() == 0 || parts.last() == seq!['.'] {
        last_component(parts.drop_last())
    } else {
        Some(parts.last())
    }
}

/// The index of the last `.` in `s`, if there is one.
pub open spec fn last_dot(s: Seq<char>) -> Option<int>
    decreases s.len(),
{
    if s.len() == 0 {
        None
    } else if s.last() == '.' {
        Some(s.len() - 1)
    } else {
        last_dot(s.drop_last())
    }
}

/// `Path::extension`: what follows the last `.` of the file name, unless
/// nothing comes before that `.`.
pub open spec fn extension(path: Seq<char>) -> Option<Seq<char>> {
    match file_name(path) {
        None => None,
        Some(name) => match last_dot(name) {
            Some(i) => if i > 0 {
                Some(name.skip(i + 1))
            } else {
                None
            },
            None => None,
        },
    }
}

/// `char::to_ascii_lowercase`.
pub open spec fn ascii_lower(c: char) -> char {
    if 'A' <= c <= 'Z' {
        ((c as u32) + 32) as char
    } else {
        c
    }
}

/// `str::to_ascii_lowercase`.
pub open spec fn ascii_lowercase(s: Seq<char>) -> Seq<char> {
    s.map_values(|c: char| ascii_lower(c))
}

/// The language of a file extension (taken in lower case).
pub open spec fn language_of_extension(e: Seq<char>) -> Option<Language> {
    if e == "rs"@ {
        Some(Language::Rust)
    } else if e == "py"@ || e == "pyi"@ {
        Some(Language::Python)
    } else if e == "js"@ || e == "jsx"@ || e == "mjs"@ || e == "cjs"@ {
        Some(Language::JavaScript)
    } else if e == "ts"@ || e == "mts"@ || e == "cts"@ {
        Some(Language::TypeScript)
    } else if e == "tsx"@ {
        Some(Language::Tsx)
    } else if e == "go"@ {
        Some(Language::Go)
    } else {
        None
    }
}

/// The node kinds of a language that introduce a name worth listing.
pub open spec fn definition_kind_list(language: Language) -> Seq<Seq<char>> {
    match language {
        Language::Rust => seq![
            "function_item"@,
            "function_signature_item"@,
            "struct_item"@,
            "enum_item"@,
            "union_item"@,
            "trait_item"@,
            "impl_item"@,
            "type_item"@,
            "const_item"@,
            "static_item"@,
            "mod_item"@,
            "macro_definition"@,
        ],
        Language::Python => seq!["function_definition"@, "class_definition"@],
        Language::JavaScript => seq![
            "function_declaration"@,
            "generator_function_declaration"@,
            "class_declaration"@,
            "method_definition"@,
        ],
        Language::TypeScript | Language::Tsx => seq![
            "function_declaration"@,
            "generator_function_declaration"@,
            "class_declaration"@,
            "abstract_class_declaration"@,
            "method_definition"@,
            "interface_declaration"@,
            "type_alias_declaration"@,
            "enum_declaration"@,
        ],
        Language::Go => seq!["function_declaration"@, "method_declaration"@, "type_declaration"@],
    }
}

pub fn ascii_lowercased(s: &[char]) -> (r: Vec<char>)
    ensures
        r@ == ascii_lowercase(s@),
{
    let mut r: Vec<char> = Vec::new();
    let mut i: usize = 0;
    while i < s.len()
        invariant
            i <= s.len(),
            r@ == ascii_lowercase(s@.take(i as int)),
        decreases s.len() - i,
    {
        let c = s[i];
        let l = if 'A' <= c && c <= 'Z' {
            ((c as u8) + 32) as char
        } else {
            c
        };
        r.push(l);
        assert(ascii_lowercase(s@.take(i + 1)) =~= ascii_lowercase(s@.take(i as int)).push(
            ascii_lower(s@[i as int]),
        ));
        i += 1;
    }
    assert(s@.take(s.len() as int) =~= s@);
    r
}

impl Language {
    pub fn as_str(self) -> (s: &'static str)
        ensures
            s@ == (match self {
                Language::Rust => "rust"@,
                Language::Python => "python"@,
                Language::JavaScript => "javascript"@,
                Language::TypeScript => "typescript"@,
                Language::Tsx => "tsx"@,
                Language::Go => "go"@,
            }),
    {
        match self {
            Language::Rust => "rust",
            Language::Python => "python",
            Language::JavaScript => "javascript",
            Language::TypeScript => "typescript",
            Language::Tsx => "tsx",
            Language::Go => "go",
        }
    }

    /// The language of a file, by its extension in any case.
    pub fn from_path(path: &str) -> (r: Option<Language>)
        ensures
            r == (match extension(path@) {
                Some(e) => language_of_extension(ascii_lowercase(e)),
                None => None,
            }),
    {
        let cs = crate::text::chars_of(path);
        let e = match extension_of(cs.as_slice()) {
            Some(e) => e,
            None => return None,
        };
        let l = ascii_lowercased(e.as_slice());
        let n = l.as_slice();
        if crate::text::is_text(n, "rs") {
            Some(Language::Rust)
        } else if crate::text::is_text(n, "py") || crate::text::is_text(n, "pyi") {
            Some(Language::Python)
        } else if crate::text::is_text(n, "js") || crate::text::is_text(n, "jsx")
            || crate::text::is_text(n, "mjs") || crate::text::is_text(n, "cjs") {
            Some(Language::JavaScript)
        } else if crate::text::is_text(n, "ts") || crate::text::is_text(n, "mts")
            || crate::text::is_text(n, "cts") {
            Some(Language::TypeScript)
        } else if crate::text::is_text(n, "tsx") {
            Some(Language::Tsx)
        } else if crate::text::is_text(n, "go") {
            Some(Language::Go)
        } else {
            None
        }
    }

    /// Node kinds that introduce a name worth listing. Anything else is
    /// walked through, so a method inside a class or an `impl` block is
    /// still found.
    pub fn definition_kinds(self) -> (r: Vec<&'static str>)
        ensures
            r@.len() == definition_kind_list(self).len(),
            forall|i: int| 0 <= i < r@.len() ==> #[trigger] r@[i]@ == definition_kind_list(self)[i],
    {
        let r = match self {
            Language::Rust => vec![
                "function_item",
                "function_signature_item",
                "struct_item",
                "enum_item",
                "union_item",
                "trait_item",
                "impl_item",
                "type_item",
                "const_item",
                "static_item",
                "mod_item",
                "macro_definition",
            ],
            Language::Python => vec!["function_definition", "class_definition"],
            Language::JavaScript => vec![
                "function_declaration",
                "generator_function_declaration",
                "class_declaration",
                "method_definition",
            ],
            Language::TypeScript | Language::Tsx => vec![
                "function_declaration",
                "generator_function_declaration",
                "class_declaration",
                "abstract_class_declaration",
                "method_definition",
                "interface_declaration",
                "type_alias_declaration",
                "enum_declaration",
            ],
            Language::Go => vec!["function_declaration", "method_declaration", "type_declaration"],
        };
        r
    }
}

/// The extension of a path, as `Path::extension` finds it.
pub fn extension_of(path: &[char]) -> (r: Option<Vec<char>>)
    ensures
        match r {
            Some(e) => extension(path@) == Some(e@),
            None => extension(path@) is None,
        },
{
    let parts = crate::text::split_chars(path, '/');
    let ghost all = crate::text::split_on(path@, '/');
    let mut k: usize = parts.len();
    assert(all.take(k as int) =~= all);
    while k > 0 && (parts[k - 1].len() == 0 || (parts[k - 1].len() == 1 && parts[k - 1][0] == '.'))
        invariant
            k <= parts.len(),
            crate::text::views(parts@) == all,
            last_component(all) == last_component(all.take(k as int)),
        decreases k,
    {
        proof {
            assert(all.take(k as int).drop_last() =~= all.take(k - 1));
            assert(all.take(k as int).last() == parts@[k - 1]@);
            if parts@[k - 1]@.len() == 1 {
                assert(parts@[k - 1]@ =~= seq!['.']);
            }
        }
        k -= 1;
    }
    if k == 0 {
        assert(all.take(0) =~= Seq::<Seq<char>>::empty());
        return None;
    }
    proof {
        assert(all.take(k as int).last() == parts@[k - 1]@);
        if parts@[k - 1]@.len() == 1 {
            assert(parts@[k - 1]@ != seq!['.']);
        }
    }
    let name = parts[k - 1].as_slice();
    if name.len() == 2 && name[0] == '.' && name[1] == '.' {
        assert(name@ =~= seq!['.', '.']);
        return None;
    }
    let mut i: usize = name.len();
    assert(name@.take(i as int) =~= name@);
    while i > 0 && name[i - 1] != '.'
        invariant
            i <= name.len(),
            last_dot(name@) == last_dot(name@.take(i as int)),
        decreases i,
    {
        assert(name@.take(i as int).drop_last() =~= name@.take(i - 1));
        i -= 1;
    }
    if i == 0 {
        assert(name@.take(0) =~= Seq::<char>::empty());
        return None;
    }
    assert(name@.take(i as int).last() == '.');
    if i == 1 {
        return None;
    }
    Some(crate::text::slice_from(name, i))
}

} // verus!

verus! {

// ---------------------------------------------------------------------------
// Parsing
// ---------------------------------------------------------------------------

/// A node of a syntax tree: its kind, where it lies (bytes and rows, rows
/// counted from 0), the byte ranges of its `name`, `type` and `trait`
/// fields, and its named children in order.
#[derive(Debug)]
pub struct SyntaxNode {
    pub kind: String,
    pub start_byte: usize,
    pub end_byte: usize,
    pub start_row: usize,
    pub end_row: usize,
    pub name_field: Option<(usize, usize)>,
    pub type_field: Option<(usize, usize)>,
    pub trait_field: Option<(usize, usize)>,
    pub children: Vec<SyntaxNode>,
}

#[verifier::external_type_specification]
#[verifier::external_body]
pub struct ExNode<'tree>(tree_sitter::Node<'tree>);

/// The tree tree-sitter's parse of a text with the grammar of `language`
/// gives, node for node as a `SyntaxNode`; nothing when the grammar is
/// refused or the parse gives no tree. The parse is set no timeout and no
/// cancellation flag, so it depends on the text and the grammar alone.
pub uninterp spec fn parsed_syntax(source: Seq<char>, language: Language) -> Option<SyntaxNode>;

/// A tree-sitter node as a `SyntaxNode`: `Node::kind`, `start_byte`,
/// `end_byte`, the rows of `start_position` and `end_position`, the byte
/// ranges of the children `child_by_field_name` gives for `name`, `type` and
/// `trait`, and the nodes `Node::named_children` gives, copied the same way
/// and in that order. Only `parse_syntax` calls it; nothing is claimed of it
/// on its own, as a `Node` is opaque here.
#[verifier::external_body]
fn copy_node(node: &tree_sitter::Node) -> SyntaxNode {
    let field = |f: &str| node.child_by_field_name(f).map(|c| (c.start_byte(), c.end_byte()));
    let mut cursor = node.walk();
    SyntaxNode {
        kind: node.kind().to_string(),
        start_byte: node.start_byte(),
        end_byte: node.end_byte(),
        start_row: node.start_position().row,
        end_row: node.end_position().row,
        name_field: field("name"),
        type_field: field("type"),
        trait_field: field("trait"),
        children: node.named_children(&mut cursor).map(|c| copy_node(&c)).collect(),
    }
}

/// `tree_sitter::Parser::new`, `Parser::set_language` with the grammar of
/// `language` (tree-sitter-rust, -python, -javascript, -typescript with its
/// TSX variant, -go), `Parser::parse` of the whole text and its root node
/// copied by `copy_node`. Claimed: the result is `parsed_syntax` of the
/// text and the language; what that tree holds is tree-sitter's and is not
/// stated.
#[verifier::external_body]
fn parse_syntax(source: &str, language: Language) -> (r: Option<SyntaxNode>)
    ensures
        r == parsed_syntax(source@, language),
{
    let grammar = match language {
        Language::Rust => tree_sitter_rust::LANGUAGE,
        Language::Python => tree_sitter_python::LANGUAGE,
        Language::JavaScript => tree_sitter_javascript::LANGUAGE,
        Language::TypeScript => tree_sitter_typescript::LANGUAGE_TYPESCRIPT,
        Language::Tsx => tree_sitter_typescript::LANGUAGE_TSX,
        Language::Go => tree_sitter_go::LANGUAGE,
    };
    let mut parser = tree_sitter::Parser::new();
    parser.set_language(&grammar.into()).ok()?;
    let tree = parser.parse(source, None)?;
    Some(copy_node(&tree.root_node()))
}

/// Parse `source` with the grammar of `language` and copy the tree out;
/// nothing when the grammar or the parse fails.
pub fn syntax_tree(source: &str, language: Language) -> (r: Option<SyntaxNode>)
    ensures
        r == parsed_syntax(source@, language),
{
    parse_syntax(source, language)
}

} // verus!

verus! {

// ---------------------------------------------------------------------------
// Symbols
// ---------------------------------------------------------------------------

/// A definition found in a source file.
#[derive(Clone, Debug, PartialEq)]
pub struct Symbol {
    pub kind: String,
    pub name: String,
    /// 1-based, to match every other line number a caller sees.
    pub line: usize,
    pub end_line: usize,
    pub depth: usize,
    pub signature: String,
    pub start_byte: usize,
    pub end_byte: usize,
}

pub struct SymbolView {
    pub kind: Seq<char>,
    pub name: Seq<char>,
    pub line: usize,
    pub end_line: usize,
    pub depth: usize,
    pub signature: Seq<char>,
    pub start_byte: usize,
    pub end_byte: usize,
}

impl View for Symbol {
    type V = SymbolView;

    open spec fn view(&self) -> SymbolView {
        SymbolView {
            kind: self.kind@,
            name: self.name@,
            line: self.line,
            end_line: self.end_line,
            depth: self.depth,
            signature: self.signature@,
            start_byte: self.start_byte,
            end_byte: self.end_byte,
        }
    }
}

pub open spec fn symbols_view(v: Seq<Symbol>) -> Seq<SymbolView> {
    Seq::new(v.len(), |i: int| v[i]@)
}

/// A symbol found in a file of a workspace.
#[derive(Clone, Debug)]
pub struct Match {
    pub path: String,
    pub symbol: Symbol,
}

/// `n + 1`, kept at `usize::MAX`.
pub open spec fn next_up(n: usize) -> usize {
    if n < usize::MAX {
        (n + 1) as usize
    } else {
        n
    }
}

fn add_one(n: usize) -> (r: usize)
    ensures
        r == next_up(n),
{
    if n < usize::MAX {
        n + 1
    } else {
        n
    }
}

/// The index of the character at byte offset `b` of `s` in UTF-8: the
/// offsets of the characters, and the length of the whole text.
pub open spec fn char_at_byte(s: Seq<char>, b: int) -> Option<int>
    decreases s.len(),
{
    if b == 0 {
        Some(0)
    } else if b < 0 || s.len() == 0 {
        None
    } else {
        match char_at_byte(s.drop_first(), b - crate::checks::utf8_width(s[0])) {
            Some(k) => Some(k + 1),
            None => None,
        }
    }
}

/// `str::get(start..end)`: the text between two byte offsets, when both
/// fall on character boundaries in order.
pub open spec fn slice_bytes(s: Seq<char>, start: int, end: int) -> Option<Seq<char>> {
    match (char_at_byte(s, start), char_at_byte(s, end)) {
        (Some(i), Some(j)) => if i <= j {
            Some(s.subrange(i, j))
        } else {
            None
        },
        _ => None,
    }
}

pub fn byte_to_char(cs: &[char], b: usize) -> (r: Option<usize>)
    ensures
        match r {
            Some(i) => char_at_byte(cs@, b as int) == Some(i as int),
            None => char_at_byte(cs@, b as int) is None,
        },
{
    let mut i: usize = 0;
    let mut acc: u128 = 0;
    assert(cs@.skip(0) =~= cs@);
    while acc < b as u128 && i < cs.len()
        invariant
            i <= cs.len(),
            acc <= b as u128 + 4,
            char_at_byte(cs@, b as int) == (match char_at_byte(cs@.skip(i as int), b - acc) {
                Some(k) => Some(k + i),
                None => None,
            }),
        decreases cs.len() - i,
    {
        assert(cs@.skip(i as int).drop_first() =~= cs@.skip(i + 1));
        assert(cs@.skip(i as int)[0] == cs@[i as int]);
        let w = crate::checks::width_of(cs[i]);
        acc = acc + w as u128;
        i += 1;
    }
    if acc == b as u128 {
        Some(i)
    } else {
        proof {
            if acc < b as u128 {
                assert(cs@.skip(i as int).len() == 0);
            }
        }
        None
    }
}

pub fn slice_of_bytes(cs: &[char], start: usize, end: usize) -> (r: Option<Vec<char>>)
    ensures
        match r {
            Some(t) => slice_bytes(cs@, start as int, end as int) == Some(t@),
            None => slice_bytes(cs@, start as int, end as int) is None,
        },
{
    let i = match byte_to_char(cs, start) {
        Some(i) => i,
        None => return None,
    };
    let j = match byte_to_char(cs, end) {
        Some(j) => j,
        None => return None,
    };
    proof {
        lemma_char_at_byte_bound(cs@, start as int);
        lemma_char_at_byte_bound(cs@, end as int);
    }
    if i > j {
        return None;
    }
    Some(crate::text::slice_range(cs, i, j))
}

proof fn lemma_char_at_byte_bound(s: Seq<char>, b: int)
    ensures
        char_at_byte(s, b) matches Some(k) ==> 0 <= k <= s.len(),
    decreases s.len(),
{
    if b != 0 && b >= 0 && s.len() > 0 {
        lemma_char_at_byte_bound(s.drop_first(), b - crate::checks::utf8_width(s[0]));
    }
}

pub open spec fn field_text(s: Seq<char>, f: Option<(usize, usize)>) -> Option<Seq<char>> {
    match f {
        Some((a, b)) => slice_bytes(s, a as int, b as int),
        None => None,
    }
}

fn field_text_of(cs: &[char], f: Option<(usize, usize)>) -> (r: Option<Vec<char>>)
    ensures
        match r {
            Some(t) => field_text(cs@, f) == Some(t@),
            None => field_text(cs@, f) is None,
        },
{
    match f {
        Some((a, b)) => slice_of_bytes(cs, a, b),
        None => None,
    }
}

/// The first child of `n`, from the `k`th on, whose kind ends in
/// `identifier`.
pub open spec fn identifier_child(n: SyntaxNode, k: int) -> Option<int>
    decreases n.children@.len() - k,
{
    if k < 0 || k >= n.children@.len() {
        None
    } else if crate::text::has_suffix(n.children@[k].kind@, "identifier"@) {
        Some(k)
    } else {
        identifier_child(n, k + 1)
    }
}

/// A name a short way down a definition that has no `name` field: an
/// identifier among the children, else the first found among the
/// children's descendants, at most three levels further.
pub open spec fn first_identifier(n: SyntaxNode, s: Seq<char>, depth: int) -> Option<Seq<char>>
    decreases n, n.children@.len() + 1,
{
    if depth > 3 {
        None
    } else {
        match identifier_child(n, 0) {
            Some(i) => slice_bytes(
                s,
                n.children@[i].start_byte as int,
                n.children@[i].end_byte as int,
            ),
            None => identifier_below(n, s, depth, 0),
        }
    }
}

pub open spec fn identifier_below(n: SyntaxNode, s: Seq<char>, depth: int, k: int) -> Option<
    Seq<char>,
>
    decreases n, n.children@.len() - k,
{
    if k < 0 || k >= n.children@.len() {
        None
    } else {
        match first_identifier(n.children@[k], s, depth + 1) {
            Some(x) => Some(x),
            None => identifier_below(n, s, depth, k + 1),
        }
    }
}

/// The name a definition introduces: for an `impl`, its type (after the
/// trait, as `Trait for Type`, when it has one); else its `name` field;
/// else the first identifier a short way down.
pub open spec fn definition_name(n: SyntaxNode, s: Seq<char>) -> Option<Seq<char>> {
    if n.kind@ == "impl_item"@ {
        match (field_text(s, n.trait_field), field_text(s, n.type_field)) {
            (Some(t), Some(ty)) => Some(t + " for "@ + ty),
            (None, Some(ty)) => Some(ty),
            _ => None,
        }
    } else {
        match field_text(s, n.name_field) {
            Some(name) => Some(name),
            None => first_identifier(n, s, 0),
        }
    }
}

fn find_identifier(n: &SyntaxNode, cs: &[char], depth: usize) -> (r: Option<Vec<char>>)
    requires
        depth <= 4,
    ensures
        match r {
            Some(t) => first_identifier(*n, cs@, depth as int) == Some(t@),
            None => first_identifier(*n, cs@, depth as int) is None,
        },
    decreases n,
{
    if depth > 3 {
        return None;
    }
    let suffix = crate::text::chars_of("identifier");
    let mut k: usize = 0;
    while k < n.children.len()
        invariant
            k <= n.children.len(),
            suffix@ == "identifier"@,
            depth <= 3,
            identifier_child(*n, 0) == identifier_child(*n, k as int),
        decreases n.children.len() - k,
    {
        let kind = crate::text::chars_of(n.children[k].kind.as_str());
        if crate::text::ends_with(kind.as_slice(), suffix.as_slice()) {
            return slice_of_bytes(cs, n.children[k].start_byte, n.children[k].end_byte);
        }
        k += 1;
    }
    let mut k: usize = 0;
    while k < n.children.len()
        invariant
            k <= n.children.len(),
            depth <= 3,
            identifier_child(*n, 0) is None,
            identifier_below(*n, cs@, depth as int, 0) == identifier_below(
                *n,
                cs@,
                depth as int,
                k as int,
            ),
        decreases n.children.len() - k,
    {
        proof {
            assert(decreases_to!(*n => n.children));
            assert(decreases_to!(n.children => n.children@));
            assert(decreases_to!(n.children@ => n.children@[k as int]));
        }
        let found = find_identifier(&n.children[k], cs, depth + 1);
        if found.is_some() {
            return found;
        }
        k += 1;
    }
    None
}

fn name_of_definition(n: &SyntaxNode, cs: &[char]) -> (r: Option<Vec<char>>)
    ensures
        match r {
            Some(t) => definition_name(*n, cs@) == Some(t@),
            None => definition_name(*n, cs@) is None,
        },
{
    let kind = crate::text::chars_of(n.kind.as_str());
    if crate::text::is_text(kind.as_slice(), "impl_item") {
        let trait_name = field_text_of(cs, n.trait_field);
        let ty_name = field_text_of(cs, n.type_field);
        return match (trait_name, ty_name) {
            (Some(t), Some(ty)) => {
                let mut out = t;
                let sep = crate::text::chars_of(" for ");
                crate::json::push_all(&mut out, sep.as_slice());
                crate::json::push_all(&mut out, ty.as_slice());
                Some(out)
            },
            (None, Some(ty)) => Some(ty),
            _ => None,
        };
    }
    match field_text_of(cs, n.name_field) {
        Some(name) => Some(name),
        None => find_identifier(n, cs, 0),
    }
}

/// A signature line shortened to `limit` characters, marked with `…` when
/// it was cut.
pub open spec fn truncated(v: Seq<char>, limit: int) -> Seq<char> {
    if v.len() <= limit {
        v
    } else {
        v.take(limit).push('…')
    }
}

pub fn truncate_chars(value: &[char], limit: usize) -> (r: Vec<char>)
    ensures
        r@ == truncated(value@, limit as int),
{
    if value.len() <= limit {
        return crate::text::slice_from(value, 0);
    }
    let mut out = crate::text::slice_range(value, 0, limit);
    out.push('…');
    out
}

/// The symbol a definition at `depth` gives, if a name can be found for
/// it; its signature is its first line, trimmed and shortened.
pub open spec fn symbol_of(n: SyntaxNode, s: Seq<char>, depth: usize) -> Option<SymbolView> {
    match definition_name(n, s) {
        None => None,
        Some(name) => {
            let ls = lines(s);
            Some(
                SymbolView {
                    kind: n.kind@,
                    name,
                    line: next_up(n.start_row),
                    end_line: next_up(n.end_row),
                    depth,
                    signature: if n.start_row < ls.len() {
                        truncated(trim(ls[n.start_row as int]), MAX_SIGNATURE_CHARS as int)
                    } else {
                        Seq::empty()
                    },
                    start_byte: n.start_byte,
                    end_byte: n.end_byte,
                },
            )
        },
    }
}

fn symbol_from(n: &SyntaxNode, cs: &[char], ls: &Vec<Vec<char>>, depth: usize) -> (r: Option<Symbol>)
    requires
        crate::text::views(ls@) == lines(cs@),
    ensures
        match r {
            Some(sym) => symbol_of(*n, cs@, depth) == Some(sym@),
            None => symbol_of(*n, cs@, depth) is None,
        },
{
    let name = match name_of_definition(n, cs) {
        Some(name) => name,
        None => return None,
    };
    let signature = if n.start_row < ls.len() {
        assert(ls@[n.start_row as int]@ == lines(cs@)[n.start_row as int]);
        let t = crate::text::trim_chars(ls[n.start_row].as_slice());
        truncate_chars(t.as_slice(), MAX_SIGNATURE_CHARS)
    } else {
        Vec::new()
    };
    Some(
        Symbol {
            kind: n.kind.clone(),
            name: crate::text::string_of(name.as_slice()),
            line: add_one(n.start_row),
            end_line: add_one(n.end_row),
            depth,
            signature: crate::text::string_of(signature.as_slice()),
            start_byte: n.start_byte,
            end_byte: n.end_byte,
        },
    )
}

} // verus!

verus! {

// ---------------------------------------------------------------------------
// Outlines
// ---------------------------------------------------------------------------

pub open spec fn is_definition(language: Language, kind: Seq<char>) -> bool {
    definition_kind_list(language).contains(kind)
}

/// The symbols `collect` gathers: walking the children of `n` from the
/// `k`th on, after `acc`, at nesting `depth`; a definition with a name is
/// listed and its own body walked one level deeper, anything else is walked
/// through; nothing is added once `max` symbols are listed.
pub open spec fn collected(
    n: SyntaxNode,
    s: Seq<char>,
    language: Language,
    depth: usize,
    max: usize,
    k: int,
    acc: Seq<SymbolView>,
) -> Seq<SymbolView>
    decreases n, n.children@.len() - k,
{
    if k < 0 || k >= n.children@.len() || acc.len() >= max {
        acc
    } else {
        let c = n.children@[k];
        proof {
            assert(decreases_to!(n => n.children));
            assert(decreases_to!(n.children => n.children@));
            assert(decreases_to!(n.children@ => n.children@[k]));
        }
        let after = if is_definition(language, c.kind@) && symbol_of(c, s, depth) is Some {
            collected(c, s, language, next_up(depth), max, 0, acc.push(symbol_of(c, s, depth)->0))
        } else {
            collected(c, s, language, depth, max, 0, acc)
        };
        collected(n, s, language, depth, max, k + 1, after)
    }
}

/// The outline of a source file with syntax tree `tree`.
pub open spec fn outline_of(tree: SyntaxNode, s: Seq<char>, language: Language, max: usize) -> Seq<
    SymbolView,
> {
    collected(tree, s, language, 0, max, 0, Seq::empty())
}

/// The outline when parsing gave `tree`: none without a tree.
pub open spec fn outline_result(
    tree: Option<SyntaxNode>,
    s: Seq<char>,
    language: Language,
    max: usize,
) -> Seq<SymbolView> {
    match tree {
        Some(t) => outline_of(t, s, language, max),
        None => Seq::empty(),
    }
}

/// An outline never lists more than `max` symbols, and what was listed
/// before stays, in order, at its front.
pub proof fn lemma_collected_bounded(
    n: SyntaxNode,
    s: Seq<char>,
    language: Language,
    depth: usize,
    max: usize,
    k: int,
    acc: Seq<SymbolView>,
)
    requires
        acc.len() <= max,
    ensures
        collected(n, s, language, depth, max, k, acc).len() <= max,
        acc.len() <= collected(n, s, language, depth, max, k, acc).len(),
        collected(n, s, language, depth, max, k, acc).take(acc.len() as int) == acc,
    decreases n, n.children@.len() - k,
{
    if !(k < 0 || k >= n.children@.len() || acc.len() >= max) {
        let c = n.children@[k];
        assert(decreases_to!(n => n.children));
        assert(decreases_to!(n.children => n.children@));
        assert(decreases_to!(n.children@ => n.children@[k]));
        if is_definition(language, c.kind@) && symbol_of(c, s, depth) is Some {
            let pushed = acc.push(symbol_of(c, s, depth)->0);
            lemma_collected_bounded(c, s, language, next_up(depth), max, 0, pushed);
            let after = collected(c, s, language, next_up(depth), max, 0, pushed);
            lemma_collected_bounded(n, s, language, depth, max, k + 1, after);
            let fin = collected(n, s, language, depth, max, k + 1, after);
            assert(fin.take(acc.len() as int) =~= after.take(pushed.len() as int).take(
                acc.len() as int,
            ));
            assert(pushed.take(acc.len() as int) =~= acc);
        } else {
            lemma_collected_bounded(c, s, language, depth, max, 0, acc);
            let after = collected(c, s, language, depth, max, 0, acc);
            lemma_collected_bounded(n, s, language, depth, max, k + 1, after);
            let fin = collected(n, s, language, depth, max, k + 1, after);
            assert(fin.take(acc.len() as int) =~= after.take(after.len() as int).take(
                acc.len() as int,
            ));
            assert(after.take(after.len() as int) =~= after);
        }
    } else {
        assert(acc.take(acc.len() as int) =~= acc);
    }
}

fn is_definition_kind(kinds: &Vec<&'static str>, language: Language, kind: &String) -> (r: bool)
    requires
        kinds@.len() == definition_kind_list(language).len(),
        forall|i: int| 0 <= i < kinds@.len() ==> #[trigger] kinds@[i]@ == definition_kind_list(language)[i],
    ensures
        r == is_definition(language, kind@),
{
    let k = crate::text::chars_of(kind.as_str());
    let mut i: usize = 0;
    while i < kinds.len()
        invariant
            i <= kinds.len(),
            k@ == kind@,
            kinds@.len() == definition_kind_list(language).len(),
            forall|j: int| 0 <= j < kinds@.len() ==> #[trigger] kinds@[j]@ == definition_kind_list(language)[j],
            forall|j: int| 0 <= j < i ==> definition_kind_list(language)[j] != kind@,
        decreases kinds.len() - i,
    {
        if crate::text::is_text(k.as_slice(), kinds[i]) {
            assert(definition_kind_list(language)[i as int] == kind@);
            return true;
        }
        i += 1;
    }
    false
}

fn collect(
    n: &SyntaxNode,
    cs: &[char],
    ls: &Vec<Vec<char>>,
    kinds: &Vec<&'static str>,
    language: Language,
    depth: usize,
    out: &mut Vec<Symbol>,
    max: usize,
)
    requires
        crate::text::views(ls@) == lines(cs@),
        kinds@.len() == definition_kind_list(language).len(),
        forall|i: int| 0 <= i < kinds@.len() ==> #[trigger] kinds@[i]@ == definition_kind_list(language)[i],
    ensures
        symbols_view(final(out)@) == collected(
            *n,
            cs@,
            language,
            depth,
            max,
            0,
            symbols_view(old(out)@),
        ),
    decreases n,
{
    let ghost start = symbols_view(out@);
    let mut k: usize = 0;
    while k < n.children.len()
        invariant
            k <= n.children.len(),
            start == symbols_view(old(out)@),
            crate::text::views(ls@) == lines(cs@),
            kinds@.len() == definition_kind_list(language).len(),
            forall|i: int| 0 <= i < kinds@.len() ==> #[trigger] kinds@[i]@ == definition_kind_list(language)[i],
            collected(*n, cs@, language, depth, max, 0, start) == collected(
                *n,
                cs@,
                language,
                depth,
                max,
                k as int,
                symbols_view(out@),
            ),
        decreases n.children.len() - k,
    {
        if out.len() >= max {
            assert(symbols_view(out@).len() == out@.len());
            return;
        }
        proof {
            assert(decreases_to!(*n => n.children));
            assert(decreases_to!(n.children => n.children@));
            assert(decreases_to!(n.children@ => n.children@[k as int]));
        }
        let c = &n.children[k];
        let mut handled = false;
        if is_definition_kind(kinds, language, &c.kind) {
            match symbol_from(c, cs, ls, depth) {
                Some(sym) => {
                    let ghost before = out@;
                    out.push(sym);
                    assert(symbols_view(out@) =~= symbols_view(before).push(sym@));
                    collect(c, cs, ls, kinds, language, add_one(depth), out, max);
                    handled = true;
                },
                None => {},
            }
        }
        if !handled {
            collect(c, cs, ls, kinds, language, depth, out, max);
        }
        k += 1;
    }
}

/// The outline of `source` read from its syntax tree.
pub fn outline_in(tree: &SyntaxNode, source: &str, language: Language, max_symbols: usize) -> (r:
    Vec<Symbol>)
    ensures
        symbols_view(r@) == outline_of(*tree, source@, language, max_symbols),
        r@.len() <= max_symbols,
{
    let cs = crate::text::chars_of(source);
    let ls = crate::text::lines_of(cs.as_slice());
    let kinds = language.definition_kinds();
    let mut out: Vec<Symbol> = Vec::new();
    assert(symbols_view(out@) =~= Seq::empty());
    collect(tree, cs.as_slice(), &ls, &kinds, language, 0, &mut out, max_symbols);
    proof {
        lemma_collected_bounded(*tree, source@, language, 0, max_symbols, 0, Seq::empty());
    }
    out
}

/// The definitions in `source`, in source order with their nesting, at
/// most `max_symbols` of them.
pub fn outline(source: &str, language: Language, max_symbols: usize) -> (r: Vec<Symbol>)
    ensures
        symbols_view(r@) == outline_result(parsed_syntax(source@, language), source@, language, max_symbols),
        r@.len() <= max_symbols,
{
    match syntax_tree(source, language) {
        Some(tree) => outline_in(&tree, source, language, max_symbols),
        None => {
            let r: Vec<Symbol> = Vec::new();
            assert(symbols_view(r@) =~= outline_result(None, source@, language, max_symbols));
            r
        },
    }
}

} // verus!

verus! {

// ---------------------------------------------------------------------------
// Rendering and searching
// ---------------------------------------------------------------------------

/// `format!("{:>6}", ..)` of a text: padded with spaces on the left to six
/// characters.
pub open spec fn right_aligned(t: Seq<char>, width: int) -> Seq<char> {
    if t.len() >= width {
        t
    } else {
        Seq::new((width - t.len()) as nat, |i: int| ' ') + t
    }
}

pub open spec fn spaces(n: nat) -> Seq<char> {
    Seq::new(n, |i: int| ' ')
}

/// One line of a rendered outline: the line number right-aligned, then the
/// nesting as two spaces a level, the kind and the name.
pub open spec fn render_line(sym: SymbolView) -> Seq<char> {
    right_aligned(crate::text::decimal(sym.line as nat), 6) + "  "@ + spaces(2 * sym.depth as nat)
        + sym.kind + " "@ + sym.name
}

/// The lines of an outline, joined by newlines.
pub open spec fn rendered(syms: Seq<SymbolView>) -> Seq<char>
    decreases syms.len(),
{
    if syms.len() == 0 {
        Seq::empty()
    } else if syms.len() == 1 {
        render_line(syms[0])
    } else {
        rendered(syms.drop_last()) + "\n"@ + render_line(syms.last())
    }
}

fn push_spaces(out: &mut Vec<char>, n: usize)
    ensures
        final(out)@ == old(out)@ + spaces(n as nat),
{
    let ghost o = out@;
    let mut i: usize = 0;
    while i < n
        invariant
            i <= n,
            out@ == o + spaces(i as nat),
        decreases n - i,
    {
        out.push(' ');
        assert(o + spaces((i + 1) as nat) =~= (o + spaces(i as nat)).push(' '));
        i += 1;
    }
}

fn push_render_line(out: &mut Vec<char>, sym: &Symbol)
    ensures
        final(out)@ == old(out)@ + render_line(sym@),
{
    let ghost o = out@;
    let digits = crate::text::decimal_text(sym.line as u64);
    if digits.len() < 6 {
        push_spaces(out, 6 - digits.len());
    }
    crate::json::push_all(out, digits.as_slice());
    assert(out@ =~= o + right_aligned(crate::text::decimal(sym.line as nat), 6));
    crate::json::push_text(out, "  ");
    let mut level: usize = 0;
    while level < sym.depth
        invariant
            level <= sym.depth,
            out@ == o + right_aligned(crate::text::decimal(sym.line as nat), 6) + "  "@ + spaces(
                2 * level as nat,
            ),
        decreases sym.depth - level,
    {
        let ghost before = out@;
        push_spaces(out, 2);
        assert(spaces(2 * (level + 1) as nat) =~= spaces(2 * level as nat) + spaces(2));
        assert(out@ =~= before + spaces(2));
        level += 1;
    }
    crate::json::push_text(out, sym.kind.as_str());
    crate::json::push_text(out, " ");
    crate::json::push_text(out, sym.name.as_str());
    assert(out@ =~= o + render_line(sym@));
}

/// Render an outline the way a caller reads it: one line per symbol,
/// nesting shown by indentation, line number first so it can be jumped to.
pub fn render(symbols: &[Symbol]) -> (r: String)
    ensures
        r@ == rendered(symbols_view(symbols@)),
{
    let ghost sv = symbols_view(symbols@);
    let mut out: Vec<char> = Vec::new();
    let mut i: usize = 0;
    assert(sv.take(0) =~= Seq::<SymbolView>::empty());
    while i < symbols.len()
        invariant
            i <= symbols.len(),
            sv == symbols_view(symbols@),
            out@ == rendered(sv.take(i as int)),
        decreases symbols.len() - i,
    {
        assert(sv.take(i + 1).drop_last() =~= sv.take(i as int));
        assert(sv.take(i + 1).last() == symbols@[i as int]@);
        if i > 0 {
            out.push('\n');
            assert(seq!['\n'] == "\n"@) by {
                reveal_strlit("\n");
            }
        } else {
            assert(sv.take(1)[0] == symbols@[0]@);
        }
        push_render_line(&mut out, &symbols[i]);
        assert(out@ =~= rendered(sv.take(i + 1)));
        i += 1;
    }
    assert(sv.take(symbols.len() as int) =~= sv);
    crate::text::string_of(out.as_slice())
}

/// Whether a symbol answers a search: its name exactly, or else its name
/// holding the needle in any ASCII case.
pub open spec fn symbol_matches(sym: SymbolView, needle: Seq<char>, exact: bool) -> bool {
    if exact {
        sym.name == needle
    } else {
        contains(ascii_lowercase(sym.name), ascii_lowercase(needle))
    }
}

pub open spec fn matching(syms: Seq<SymbolView>, needle: Seq<char>, exact: bool) -> Seq<SymbolView>
    decreases syms.len(),
{
    if syms.len() == 0 {
        syms
    } else {
        let r = matching(syms.drop_last(), needle, exact);
        if symbol_matches(syms.last(), needle, exact) {
            r.push(syms.last())
        } else {
            r
        }
    }
}

pub fn copy_symbol(s: &Symbol) -> (r: Symbol)
    ensures
        r@ == s@,
{
    Symbol {
        kind: s.kind.clone(),
        name: s.name.clone(),
        line: s.line,
        end_line: s.end_line,
        depth: s.depth,
        signature: s.signature.clone(),
        start_byte: s.start_byte,
        end_byte: s.end_byte,
    }
}

/// The symbols that answer a search, in order.
pub fn filter_symbols(symbols: Vec<Symbol>, needle: &str, exact: bool) -> (r: Vec<Symbol>)
    ensures
        symbols_view(r@) == matching(symbols_view(symbols@), needle@, exact),
{
    let ghost sv = symbols_view(symbols@);
    let nc = crate::text::chars_of(needle);
    let lower_needle = ascii_lowercased(nc.as_slice());
    let mut out: Vec<Symbol> = Vec::new();
    let mut i: usize = 0;
    assert(sv.take(0) =~= Seq::<SymbolView>::empty());
    while i < symbols.len()
        invariant
            i <= symbols.len(),
            sv == symbols_view(symbols@),
            nc@ == needle@,
            lower_needle@ == ascii_lowercase(needle@),
            symbols_view(out@) == matching(sv.take(i as int), needle@, exact),
        decreases symbols.len() - i,
    {
        assert(sv.take(i + 1).drop_last() =~= sv.take(i as int));
        assert(sv.take(i + 1).last() == symbols@[i as int]@);
        let name = crate::text::chars_of(symbols[i].name.as_str());
        let hit = if exact {
            crate::text::same_chars(name.as_slice(), nc.as_slice())
        } else {
            let lower = ascii_lowercased(name.as_slice());
            crate::text::contains_chars(lower.as_slice(), lower_needle.as_slice())
        };
        if hit {
            let ghost before = out@;
            out.push(copy_symbol(&symbols[i]));
            assert(symbols_view(out@) =~= symbols_view(before).push(symbols@[i as int]@));
        }
        i += 1;
    }
    assert(sv.take(symbols.len() as int) =~= sv);
    out
}

/// The definitions in `source` that answer a search.
pub fn find_in_source(source: &str, language: Language, needle: &str, exact: bool) -> (r: Vec<
    Symbol,
>)
    ensures
        symbols_view(r@) == matching(
            outline_result(parsed_syntax(source@, language), source@, language, HARD_MAX_SYMBOLS),
            needle@,
            exact,
        ),
{
    let all = outline(source, language, HARD_MAX_SYMBOLS);
    filter_symbols(all, needle, exact)
}

} // verus!

verus! {

/// A workspace search under way: the matches so far, how many files were
/// read, and whether the search was cut short.
pub struct Search {
    pub matches: Vec<Match>,
    pub searched: usize,
    pub truncated: bool,
}

pub struct MatchView {
    pub path: Seq<char>,
    pub symbol: SymbolView,
}

pub struct SearchView {
    pub matches: Seq<MatchView>,
    pub searched: usize,
    pub truncated: bool,
}

impl View for Search {
    type V = SearchView;

    open spec fn view(&self) -> SearchView {
        SearchView {
            matches: Seq::new(
                self.matches@.len(),
                |i: int| MatchView { path: self.matches@[i].path@, symbol: self.matches@[i].symbol@ },
            ),
            searched: self.searched,
            truncated: self.truncated,
        }
    }
}

pub fn new_search() -> (s: Search)
    ensures
        s@ == (SearchView { matches: Seq::empty(), searched: 0, truncated: false }),
{
    let s = Search { matches: Vec::new(), searched: 0, truncated: false };
    assert(s@.matches =~= Seq::empty());
    s
}

/// Whether the search stops before the next file: the matches or the files
/// read have reached their budget. Stopping marks the search cut short.
pub fn search_exhausted(search: &mut Search, max_matches: usize) -> (stop: bool)
    ensures
        stop == (old(search).matches.len() >= max_matches || old(search).searched
            >= MAX_SEARCHED_FILES),
        final(search)@ == (SearchView { truncated: old(search)@.truncated || stop, ..old(search)@ }),
{
    if search.matches.len() >= max_matches || search.searched >= MAX_SEARCHED_FILES {
        search.truncated = true;
        return true;
    }
    false
}

/// The matches a file adds: its symbols in order, each under the file's
/// path (with `\\` written as `/`), as long as there is room; a symbol
/// left out marks the search cut short.
pub open spec fn added(v: SearchView, path: Seq<char>, found: Seq<SymbolView>, max: usize) -> SearchView {
    let room: int = if v.matches.len() >= max {
        0
    } else {
        max - v.matches.len()
    };
    let n: int = if found.len() <= room {
        found.len() as int
    } else {
        room
    };
    SearchView {
        matches: v.matches + Seq::new(
            n as nat,
            |i: int| MatchView { path: crate::checkpoints::forward_slashes(path), symbol: found[i] },
        ),
        truncated: v.truncated || found.len() > room,
        ..v
    }
}

/// Add a file's symbols to the matches.
pub fn add_matches(search: &mut Search, relative: &str, found: Vec<Symbol>, max_matches: usize)
    ensures
        final(search)@ == added(old(search)@, relative@, symbols_view(found@), max_matches),
{
    let ghost before = search@;
    let rc = crate::text::chars_of(relative);
    let fixed = crate::checkpoints::forward_slashed(rc.as_slice());
    let path = crate::text::string_of(fixed.as_slice());
    let ghost fv = symbols_view(found@);
    let mut i: usize = 0;
    while i < found.len()
        invariant
            i <= found.len(),
            before == old(search)@,
            fv == symbols_view(found@),
            path@ == crate::checkpoints::forward_slashes(relative@),
            before.matches.len() + i == search.matches.len(),
            before.matches.len() >= max_matches ==> i == 0,
            before.matches.len() < max_matches ==> before.matches.len() + i <= max_matches,
            search@ == (SearchView {
                matches: before.matches + Seq::new(
                    i as nat,
                    |k: int| MatchView { path: path@, symbol: fv[k] },
                ),
                ..before
            }),
        decreases found.len() - i,
    {
        if search.matches.len() >= max_matches {
            let ghost mid = search@;
            search.truncated = true;
            proof {
                let target = added(before, relative@, fv, max_matches);
                let room: int = if before.matches.len() >= max_matches {
                    0
                } else {
                    max_matches - before.matches.len()
                };
                assert(i == room);
                assert(fv.len() > room);
                assert(search@.matches == mid.matches);
                assert(mid.matches =~= target.matches);
                assert(search@ == target);
            }
            return;
        }
        let ghost old_view = search@;
        let m = Match { path: path.clone(), symbol: copy_symbol(&found[i]) };
        let ghost mv = MatchView { path: m.path@, symbol: m.symbol@ };
        search.matches.push(m);
        proof {
            assert(mv == MatchView { path: path@, symbol: fv[i as int] });
            assert(search@.matches =~= old_view.matches.push(mv));
            assert(search@.matches =~= before.matches + Seq::new(
                (i + 1) as nat,
                |k: int| MatchView { path: path@, symbol: fv[k] },
            ));
        }
        i += 1;
    }
    proof {
        let target = added(before, relative@, fv, max_matches);
        assert(search@.matches =~= target.matches);
    }
}

/// Take in one file the walk read: count it, and when its text holds the
/// needle at all, add the definitions in it that answer the search.
pub fn search_file(
    search: &mut Search,
    relative: &str,
    source: &str,
    language: Language,
    needle: &str,
    exact: bool,
    max_matches: usize,
)
    requires
        old(search).searched < MAX_SEARCHED_FILES,
    ensures
        !contains(source@, needle@) ==> final(search)@ == (SearchView {
            searched: (old(search).searched + 1) as usize,
            ..old(search)@
        }),
        contains(source@, needle@) ==> final(search)@ == added(
            SearchView { searched: (old(search).searched + 1) as usize, ..old(search)@ },
            relative@,
            matching(
                outline_result(parsed_syntax(source@, language), source@, language, HARD_MAX_SYMBOLS),
                needle@,
                exact,
            ),
            max_matches,
        ),
{
    search.searched = search.searched + 1;
    let sc = crate::text::chars_of(source);
    let nc = crate::text::chars_of(needle);
    if !crate::text::contains_chars(sc.as_slice(), nc.as_slice()) {
        return;
    }
    let found = find_in_source(source, language, needle, exact);
    add_matches(search, relative, found, max_matches);
}

} // verus!

verus! {

/// A search gives back only symbols that answer it, in the order they came.
pub proof fn lemma_matching_answers(syms: Seq<SymbolView>, needle: Seq<char>, exact: bool)
    ensures
        forall|i: int|
            0 <= i < matching(syms, needle, exact).len() ==> symbol_matches(
                #[trigger] matching(syms, needle, exact)[i],
                needle,
                exact,
            ),
        matching(syms, needle, exact).len() <= syms.len(),
    decreases syms.len(),
{
    if syms.len() > 0 {
        lemma_matching_answers(syms.drop_last(), needle, exact);
    }
}

} // verus!

verus! {

/// Collecting under a smaller budget gives the front of what a larger one
/// gives: the walk is the same, it only stops sooner.
proof fn lemma_collected_budget(
    n: SyntaxNode,
    s: Seq<char>,
    language: Language,
    depth: usize,
    m: usize,
    big: usize,
    k: int,
    acc: Seq<SymbolView>,
)
    requires
        acc.len() <= m <= big,
    ensures
        ({
            let full = collected(n, s, language, depth, big, k, acc);
            collected(n, s, language, depth, m, k, acc) == full.take(
                if full.len() <= m { full.len() as int } else { m as int },
            )
        }),
    decreases n, n.children@.len() - k,
{
    let full = collected(n, s, language, depth, big, k, acc);
    lemma_collected_bounded(n, s, language, depth, big, k, acc);
    if k < 0 || k >= n.children@.len() || acc.len() >= m {
        if acc.len() >= m {
            assert(full.take(m as int) =~= acc);
        } else {
            assert(full.take(full.len() as int) =~= full);
        }
    } else {
        let c = n.children@[k];
        assert(decreases_to!(n => n.children));
        assert(decreases_to!(n.children => n.children@));
        assert(decreases_to!(n.children@ => n.children@[k]));
        let (d2, acc2) = if is_definition(language, c.kind@) && symbol_of(c, s, depth) is Some {
            (next_up(depth), acc.push(symbol_of(c, s, depth)->0))
        } else {
            (depth, acc)
        };
        lemma_collected_budget(c, s, language, d2, m, big, 0, acc2);
        lemma_collected_bounded(c, s, language, d2, big, 0, acc2);
        let after_big = collected(c, s, language, d2, big, 0, acc2);
        let after_m = collected(c, s, language, d2, m, 0, acc2);
        lemma_collected_bounded(n, s, language, depth, big, k + 1, after_big);
        if after_big.len() <= m {
            assert(after_m =~= after_big.take(after_big.len() as int));
            assert(after_big.take(after_big.len() as int) =~= after_big);
            lemma_collected_budget(n, s, language, depth, m, big, k + 1, after_big);
        } else {
            assert(after_m == after_big.take(m as int));
            assert(collected(n, s, language, depth, m, k + 1, after_m) == after_m);
            assert(full.take(after_big.len() as int) == after_big);
            assert(full.take(m as int) =~= after_big.take(m as int));
        }
    }
}

/// A smaller symbol budget gives the front of the outline a larger one
/// gives: as many of its symbols as the budget allows, in the same order.
pub proof fn lemma_budget_prefix(
    tree: Option<SyntaxNode>,
    s: Seq<char>,
    language: Language,
    m: usize,
    big: usize,
)
    requires
        m <= big,
    ensures
        ({
            let full = outline_result(tree, s, language, big);
            outline_result(tree, s, language, m) == full.take(
                if full.len() <= m { full.len() as int } else { m as int },
            )
        }),
{
    match tree {
        Some(t) => lemma_collected_budget(t, s, language, 0, m, big, 0, Seq::empty()),
        None => {
            assert(Seq::<SymbolView>::empty().take(0) =~= Seq::<SymbolView>::empty());
        },
    }
}

/// A symbol that answers an exact search also answers the loose one.
proof fn lemma_exact_answers_loose(sym: SymbolView, needle: Seq<char>)
    requires
        symbol_matches(sym, needle, true),
    ensures
        symbol_matches(sym, needle, false),
{
    let l = ascii_lowercase(needle);
    assert(l.subrange(0, l.len() as int) =~= l);
    assert(crate::text::occurs_at(l, l, 0));
}

/// An exact search answers with what the loose search answers, narrowed
/// to the exact names: a subsequence of the loose answer, in its order.
pub proof fn lemma_exact_within_loose(syms: Seq<SymbolView>, needle: Seq<char>)
    ensures
        matching(syms, needle, true) == matching(matching(syms, needle, false), needle, true),
    decreases syms.len(),
{
    if syms.len() > 0 {
        lemma_exact_within_loose(syms.drop_last(), needle);
        let loose = matching(syms, needle, false);
        let rest = matching(syms.drop_last(), needle, false);
        if symbol_matches(syms.last(), needle, false) {
            assert(loose.drop_last() =~= rest);
        } else {
            if symbol_matches(syms.last(), needle, true) {
                lemma_exact_answers_loose(syms.last(), needle);
            }
        }
    }
}

} // verus!

verus! {

/// The node kinds that introduce a definition, language by language.
pub open spec fn documented_kind(language: Language, k: Seq<char>) -> bool {
    match language {
        Language::Rust => {
            ||| k == "function_item"@
            ||| k == "function_signature_item"@
            ||| k == "struct_item"@
            ||| k == "enum_item"@
            ||| k == "union_item"@
            ||| k == "trait_item"@
            ||| k == "impl_item"@
            ||| k == "type_item"@
            ||| k == "const_item"@
            ||| k == "static_item"@
            ||| k == "mod_item"@
            ||| k == "macro_definition"@
        },
        Language::Python => k == "function_definition"@ || k == "class_definition"@,
        Language::JavaScript => {
            ||| k == "function_declaration"@
            ||| k == "generator_function_declaration"@
            ||| k == "class_declaration"@
            ||| k == "method_definition"@
        },
        Language::TypeScript | Language::Tsx => {
            ||| k == "function_declaration"@
            ||| k == "generator_function_declaration"@
            ||| k == "class_declaration"@
            ||| k == "abstract_class_declaration"@
            ||| k == "method_definition"@
            ||| k == "interface_declaration"@
            ||| k == "type_alias_declaration"@
            ||| k == "enum_declaration"@
        },
        Language::Go => {
            ||| k == "function_declaration"@
            ||| k == "method_declaration"@
            ||| k == "type_declaration"@
        },
    }
}

proof fn lemma_documented_is_definition(language: Language, k: Seq<char>)
    requires
        documented_kind(language, k),
    ensures
        is_definition(language, k),
{
    let l = definition_kind_list(language);
    match language {
        Language::Rust => {
            if k == "function_item"@ { assert(l[0] == k); }
            else if k == "function_signature_item"@ { assert(l[1] == k); }
            else if k == "struct_item"@ { assert(l[2] == k); }
            else if k == "enum_item"@ { assert(l[3] == k); }
            else if k == "union_item"@ { assert(l[4] == k); }
            else if k == "trait_item"@ { assert(l[5] == k); }
            else if k == "impl_item"@ { assert(l[6] == k); }
            else if k == "type_item"@ { assert(l[7] == k); }
            else if k == "const_item"@ { assert(l[8] == k); }
            else if k == "static_item"@ { assert(l[9] == k); }
            else if k == "mod_item"@ { assert(l[10] == k); }
            else { assert(l[11] == k); }
        },
        Language::Python => {
            if k == "function_definition"@ { assert(l[0] == k); } else { assert(l[1] == k); }
        },
        Language::JavaScript => {
            if k == "function_declaration"@ { assert(l[0] == k); }
            else if k == "generator_function_declaration"@ { assert(l[1] == k); }
            else if k == "class_declaration"@ { assert(l[2] == k); }
            else { assert(l[3] == k); }
        },
        Language::TypeScript | Language::Tsx => {
            if k == "function_declaration"@ { assert(l[0] == k); }
            else if k == "generator_function_declaration"@ { assert(l[1] == k); }
            else if k == "class_declaration"@ { assert(l[2] == k); }
            else if k == "abstract_class_declaration"@ { assert(l[3] == k); }
            else if k == "method_definition"@ { assert(l[4] == k); }
            else if k == "interface_declaration"@ { assert(l[5] == k); }
            else if k == "type_alias_declaration"@ { assert(l[6] == k); }
            else { assert(l[7] == k); }
        },
        Language::Go => {
            if k == "function_declaration"@ { assert(l[0] == k); }
            else if k == "method_declaration"@ { assert(l[1] == k); }
            else { assert(l[2] == k); }
        },
    }
}

/// A named definition at the top of the tree opens the outline: when the
/// first node under the root is of a kind its language lists as a
/// definition (for Rust: functions and their signatures, structs, enums,
/// unions, traits, impls, type aliases, consts, statics, modules and
/// macros) and has a name, it is the first symbol, at depth 0.
pub proof fn lemma_definitions_are_listed(
    tree: SyntaxNode,
    s: Seq<char>,
    language: Language,
    max: usize,
)
    requires
        tree.children@.len() > 0,
        max > 0,
        documented_kind(language, tree.children@[0].kind@),
        symbol_of(tree.children@[0], s, 0) is Some,
    ensures
        outline_of(tree, s, language, max).len() > 0,
        outline_of(tree, s, language, max)[0] == symbol_of(tree.children@[0], s, 0)->0,
{
    let c = tree.children@[0];
    lemma_documented_is_definition(language, c.kind@);
    let sym = symbol_of(c, s, 0)->0;
    let acc = Seq::<SymbolView>::empty().push(sym);
    lemma_collected_bounded(c, s, language, next_up(0), max, 0, acc);
    let after = collected(c, s, language, next_up(0), max, 0, acc);
    lemma_collected_bounded(tree, s, language, 0, max, 1, after);
    let fin = collected(tree, s, language, 0, max, 1, after);
    assert(fin == outline_of(tree, s, language, max));
    assert(fin.take(after.len() as int)[0] == fin[0]);
    assert(after.take(1)[0] == after[0]);
    assert(acc[0] == sym);
}

} // verus!

verus! {

proof fn lemma_definition_is_documented(language: Language, k: Seq<char>)
    requires
        is_definition(language, k),
    ensures
        documented_kind(language, k),
{
    let l = definition_kind_list(language);
    let j = choose|j: int| 0 <= j < l.len() && l[j] == k;
    assert(0 <= j < l.len() && l[j] == k);
    match language {
        Language::Rust => {
            assert(j == 0 || j == 1 || j == 2 || j == 3 || j == 4 || j == 5 || j == 6 || j == 7
                || j == 8 || j == 9 || j == 10 || j == 11);
        },
        Language::Python => {
            assert(j == 0 || j == 1);
        },
        Language::JavaScript => {
            assert(j == 0 || j == 1 || j == 2 || j == 3);
        },
        Language::TypeScript | Language::Tsx => {
            assert(j == 0 || j == 1 || j == 2 || j == 3 || j == 4 || j == 5 || j == 6 || j == 7);
        },
        Language::Go => {
            assert(j == 0 || j == 1 || j == 2);
        },
    }
}

proof fn lemma_nothing_collected(n: SyntaxNode, s: Seq<char>, language: Language, max: usize, k: int)
    requires
        0 <= k,
        forall|i: int|
            0 <= i < n.children@.len() ==> (#[trigger] n.children@[i]).children@.len() == 0
                && !documented_kind(language, n.children@[i].kind@),
    ensures
        collected(n, s, language, 0, max, k, Seq::empty()) == Seq::<SymbolView>::empty(),
    decreases n.children@.len() - k,
{
    if k < n.children@.len() && 0 < max {
        let c = n.children@[k];
        if is_definition(language, c.kind@) {
            lemma_definition_is_documented(language, c.kind@);
        }
        assert(collected(c, s, language, 0, max, 0, Seq::empty()) == Seq::<SymbolView>::empty());
        lemma_nothing_collected(n, s, language, max, k + 1);
    }
}

/// Nothing but definitions is listed: when the nodes under the root are
/// leaves of kinds the language does not list as definitions, the outline
/// is empty.
pub proof fn lemma_only_definitions_are_listed(
    tree: SyntaxNode,
    s: Seq<char>,
    language: Language,
    max: usize,
)
    requires
        forall|i: int|
            0 <= i < tree.children@.len() ==> (#[trigger] tree.children@[i]).children@.len() == 0
                && !documented_kind(language, tree.children@[i].kind@),
    ensures
        outline_of(tree, s, language, max).len() == 0,
{
    lemma_nothing_collected(tree, s, language, max, 0);
}

} // verus!
