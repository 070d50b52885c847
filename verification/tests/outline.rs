use catdesk::outline::{
    add_matches, filter_symbols, find_in_source, new_search, outline, render, search_exhausted,
    search_file, syntax_tree, truncate_chars, Language, Symbol, DEFAULT_MAX_MATCHES,
    DEFAULT_MAX_SYMBOLS, HARD_MAX_SYMBOLS, MAX_SEARCHED_FILES,
};

const RUST_SOURCE: &str = r#"
use std::fmt;

const LIMIT: usize = 3;

pub struct Ledger {
    entries: Vec<u32>,
}

impl Ledger {
    pub fn new() -> Self {
        // A brace inside a string literal is what defeats a regex outline.
        let _noise = "{ fn not_a_function() {";
        Self { entries: Vec::new() }
    }

    fn total(&self) -> u32 {
        self.entries.iter().sum()
    }
}

impl fmt::Debug for Ledger {
    fn fmt(&self, f: &mut fmt::Formatter<'_>) -> fmt::Result {
        write!(f, "Ledger")
    }
}

pub fn audit(ledger: &Ledger) -> bool {
    ledger.total() > LIMIT as u32
}
"#;

fn names(symbols: &[Symbol]) -> Vec<&str> {
    symbols.iter().map(|symbol| symbol.name.as_str()).collect()
}

#[test]
fn a_rust_outline_lists_definitions_in_source_order_with_nesting() {
    let symbols = outline(RUST_SOURCE, Language::Rust, DEFAULT_MAX_SYMBOLS);

    assert_eq!(
        names(&symbols),
        vec![
            "LIMIT",
            "Ledger",
            "Ledger",
            "new",
            "total",
            "fmt::Debug for Ledger",
            "fmt",
            "audit",
        ]
    );
    let new = symbols
        .iter()
        .find(|symbol| symbol.name == "new")
        .expect("missing new");
    assert_eq!(new.depth, 1, "a method sits inside its impl block");
    assert_eq!(new.kind, "function_item");
    assert!(new.signature.starts_with("pub fn new()"));
}

#[test]
fn a_brace_inside_a_string_does_not_invent_a_symbol() {
    let symbols = outline(RUST_SOURCE, Language::Rust, DEFAULT_MAX_SYMBOLS);

    assert!(
        !names(&symbols).contains(&"not_a_function"),
        "a string literal was parsed as code: {:?}",
        names(&symbols)
    );
}

#[test]
fn a_symbol_range_covers_the_whole_definition() {
    let symbols = outline(RUST_SOURCE, Language::Rust, DEFAULT_MAX_SYMBOLS);
    let audit = symbols
        .iter()
        .find(|symbol| symbol.name == "audit")
        .expect("missing audit");

    let text = &RUST_SOURCE[audit.start_byte..audit.end_byte];
    assert!(text.starts_with("pub fn audit"));
    assert!(text.trim_end().ends_with('}'));
    assert!(audit.end_line > audit.line);
}

#[test]
fn python_classes_carry_their_methods() {
    let source = "\
class Ledger:
    def __init__(self):
        self.entries = []

    def total(self):
        return sum(self.entries)


def audit(ledger):
    return ledger.total() > 3
";
    let symbols = outline(source, Language::Python, DEFAULT_MAX_SYMBOLS);

    assert_eq!(
        names(&symbols),
        vec!["Ledger", "__init__", "total", "audit"]
    );
    assert_eq!(symbols[1].depth, 1);
    assert_eq!(symbols[3].depth, 0);
}

#[test]
fn typescript_interfaces_and_type_aliases_are_listed() {
    let source = "\
export interface Ledger {
  entries: number[];
}

export type Total = number;

export class Auditor {
  check(ledger: Ledger): boolean {
    return ledger.entries.length > 0;
  }
}
";
    let symbols = outline(source, Language::TypeScript, DEFAULT_MAX_SYMBOLS);

    assert_eq!(names(&symbols), vec!["Ledger", "Total", "Auditor", "check"]);
}

#[test]
fn go_functions_methods_and_types_are_listed() {
    let source = "\
package ledger

type Ledger struct {
\tEntries []int
}

func (l *Ledger) Total() int {
\treturn len(l.Entries)
}

func Audit(l *Ledger) bool {
\treturn l.Total() > 3
}
";
    let symbols = outline(source, Language::Go, DEFAULT_MAX_SYMBOLS);

    assert_eq!(names(&symbols), vec!["Ledger", "Total", "Audit"]);
}

#[test]
fn the_symbol_budget_is_respected() {
    let symbols = outline(RUST_SOURCE, Language::Rust, 3);
    assert_eq!(symbols.len(), 3);
}

#[test]
fn a_search_matches_on_substring_unless_it_is_asked_for_exact() {
    let loose = find_in_source(RUST_SOURCE, Language::Rust, "tot", false);
    assert_eq!(names(&loose), vec!["total"]);

    let exact = find_in_source(RUST_SOURCE, Language::Rust, "tot", true);
    assert!(exact.is_empty());

    let exact_hit = find_in_source(RUST_SOURCE, Language::Rust, "total", true);
    assert_eq!(names(&exact_hit), vec!["total"]);
}

#[test]
fn languages_are_recognised_by_extension() {
    assert_eq!(Language::from_path("a/b.rs"), Some(Language::Rust));
    assert_eq!(Language::from_path("a/b.tsx"), Some(Language::Tsx));
    assert_eq!(Language::from_path("a/b.TS"), Some(Language::TypeScript));
    assert_eq!(Language::from_path("a/b.md"), None);
}

#[test]
fn a_rendered_outline_leads_with_the_line_number() {
    let symbols = outline(RUST_SOURCE, Language::Rust, DEFAULT_MAX_SYMBOLS);
    let rendered = render(&symbols);
    let first = rendered.lines().next().expect("empty outline");

    assert!(first.trim_start().starts_with('4'), "got {first:?}");
    assert!(rendered.contains("  function_item new"));
}

#[test]
fn extensions_follow_the_path_rules() {
    assert_eq!(Language::from_path("x/.rs"), None);
    assert_eq!(Language::from_path("x/y.d.ts"), Some(Language::TypeScript));
    assert_eq!(Language::from_path("x/y.py/"), Some(Language::Python));
    assert_eq!(Language::from_path("x/y.GO/."), Some(Language::Go));
    assert_eq!(Language::from_path("x/y.rs/.."), None);
    assert_eq!(Language::from_path("Makefile"), None);
    assert_eq!(Language::from_path("lib.mjs"), Some(Language::JavaScript));
    assert_eq!(Language::Tsx.as_str(), "tsx");
    assert_eq!(Language::Go.definition_kinds().len(), 3);
}

#[test]
fn rendering_pads_the_line_and_indents_by_depth() {
    let symbol = Symbol {
        kind: "function_item".to_string(),
        name: "run".to_string(),
        line: 12,
        end_line: 14,
        depth: 2,
        signature: "fn run()".to_string(),
        start_byte: 0,
        end_byte: 10,
    };
    let mut other = symbol.clone();
    other.line = 1234567;
    other.depth = 0;
    assert_eq!(
        render(&[symbol, other]),
        "    12      function_item run\n1234567  function_item run"
    );
    assert_eq!(render(&[]), "");
}

#[test]
fn long_signatures_are_cut_with_an_ellipsis() {
    let text: Vec<char> = "abcdef".chars().collect();
    assert_eq!(truncate_chars(&text, 3).into_iter().collect::<String>(), "abc…");
    assert_eq!(truncate_chars(&text, 6).into_iter().collect::<String>(), "abcdef");
}

#[test]
fn a_loose_search_ignores_ascii_case() {
    let symbols = outline(RUST_SOURCE, Language::Rust, DEFAULT_MAX_SYMBOLS);
    let hits = filter_symbols(symbols, "LEDGER", false);
    assert_eq!(names(&hits), vec!["Ledger", "Ledger", "fmt::Debug for Ledger"]);
}

#[test]
fn a_search_records_relative_paths_and_stops_at_its_budget() {
    let mut search = new_search();
    assert!(!search_exhausted(&mut search, DEFAULT_MAX_MATCHES));
    search_file(&mut search, "src\\ledger.rs", RUST_SOURCE, Language::Rust, "audit", true, 1);
    assert_eq!(search.searched, 1);
    assert_eq!(search.matches.len(), 1);
    assert_eq!(search.matches[0].path, "src/ledger.rs");
    assert_eq!(search.matches[0].symbol.name, "audit");
    assert!(!search.truncated);

    search_file(&mut search, "notes.rs", "fn other() {}", Language::Rust, "audit", true, 1);
    assert_eq!(search.searched, 2);
    assert_eq!(search.matches.len(), 1);

    let more = outline(RUST_SOURCE, Language::Rust, DEFAULT_MAX_SYMBOLS);
    add_matches(&mut search, "again.rs", more, 1);
    assert_eq!(search.matches.len(), 1);
    assert!(search.truncated);
    assert!(search_exhausted(&mut search, 1));

    let mut full = new_search();
    full.searched = MAX_SEARCHED_FILES;
    assert!(search_exhausted(&mut full, DEFAULT_MAX_MATCHES));
    assert!(full.truncated);
}

#[test]
fn a_smaller_budget_gives_the_front_of_the_outline() {
    let full = outline(RUST_SOURCE, Language::Rust, DEFAULT_MAX_SYMBOLS);
    assert!(full.len() > 3);
    for budget in 0..=full.len() + 1 {
        let part = outline(RUST_SOURCE, Language::Rust, budget);
        let keep = budget.min(full.len());
        assert_eq!(part, full[..keep].to_vec());
    }
}

#[test]
fn a_search_is_the_outline_filtered() {
    let all = outline(RUST_SOURCE, Language::Rust, HARD_MAX_SYMBOLS);
    let loose = find_in_source(RUST_SOURCE, Language::Rust, "ledger", false);
    assert_eq!(loose, filter_symbols(all.clone(), "ledger", false));
    let exact = find_in_source(RUST_SOURCE, Language::Rust, "Ledger", true);
    assert_eq!(exact, filter_symbols(all, "Ledger", true));
    assert_eq!(exact, filter_symbols(loose, "Ledger", true));
    assert_eq!(names(&exact), vec!["Ledger", "Ledger"]);
}

#[test]
fn the_parse_gives_the_whole_tree() {
    let tree = syntax_tree("fn a() {}\nstruct B;\n", Language::Rust).expect("a tree");
    assert_eq!(tree.kind, "source_file");
    assert_eq!(tree.start_byte, 0);
    assert_eq!(tree.children.len(), 2);
    assert_eq!(tree.children[0].kind, "function_item");
    assert_eq!(tree.children[0].name_field, Some((3, 4)));
    assert_eq!(tree.children[1].kind, "struct_item");
    assert_eq!(tree.children[1].start_row, 1);
}
