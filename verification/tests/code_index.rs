use wiki::code::splitter::{parse_frontmatter, render_structure_md, source_key, FnMeta};
use wiki::code::watcher::{body_dir, watch_action, WatchAction};
use wiki::tools::{stem_matches, symbol_stem};
use wiki::code::{
    build_matcher, count_body_loc, extract_fenced_code, find_large, fn_tree, format_grep, grep_content, list_bodies,
    matcher_hits, open_report, outline, read_body, ref_graph, render_check, search_scope, validate, BodyEntry,
};
use wiki::keyed::KeyedMap;

fn s(x: &str) -> String {
    x.to_string()
}

fn body_file(code: &str) -> String {
    format!("---\nfn: f\nsource: src/a.rs\n---\n\n```rust\n{}\n```\n", code)
}

#[test]
fn fenced_code_and_loc() {
    let content = "intro\n```rust\nfn a() {\n}\n```\nafter\n```\nx\n```\n";
    assert_eq!(count_body_loc(content), 3);
    assert_eq!(extract_fenced_code(content), "fn a() {\n}\nx");
    assert_eq!(count_body_loc("no fences"), 0);
}

#[test]
fn read_body_windows() {
    let content = "l1\nl2\nl3\nl4";
    assert_eq!(read_body(content, 1, None), content);
    assert_eq!(read_body(content, 0, None), content);
    assert_eq!(read_body(content, 2, Some(2)), "l2\nl3\n-- lines 2-3 of 4");
    assert_eq!(read_body(content, 3, None), "l3\nl4\n-- lines 3-4 of 4");
    assert_eq!(read_body(content, 9, Some(1)), "\n-- lines 5-4 of 4");
}

#[test]
fn grep_pages() {
    let results = vec![s("a:1: x"), s("a:2: y"), s("b:5: z")];
    assert_eq!(format_grep(&results, 0, 2, "q"), "a:1: x\na:2: y\n-- 2/3 (next cursor: 2)");
    assert_eq!(format_grep(&results, 2, 2, "q"), "b:5: z\n-- 1/3");
    assert_eq!(format_grep(&vec![], 0, 2, "q\"x"), "no matches for \"q\\\"x\"");
}

#[test]
fn grep_skips_frontmatter() {
    let content = "---\nfn: Foo\n---\nlet foo = 1;\nbar\nFOO()";
    let m = build_matcher("foo", false).unwrap();
    assert_eq!(grep_content("p.md", content, &m), vec![s("p.md:4: let foo = 1;"), s("p.md:6: FOO()")]);
    let r = build_matcher(r"^ba.$", true).unwrap();
    assert!(matcher_hits(&r, "bar"));
    assert!(!matcher_hits(&r, "barn"));
    assert_eq!(grep_content("p.md", content, &r), vec![s("p.md:5: bar")]);
    assert!(build_matcher("(unclosed", true).is_err());
    assert!(build_matcher("(unclosed", false).is_ok());
}

#[test]
fn scopes() {
    assert_eq!(search_scope("bodies"), (true, false));
    assert_eq!(search_scope("structure"), (false, true));
    assert_eq!(search_scope("both"), (true, true));
}

#[test]
fn call_tree() {
    let mut bodies: KeyedMap<String> = KeyedMap::new();
    bodies.insert(s("main"), body_file("fn main() { helper(); parse (x); main(); unknown(); }"));
    bodies.insert(s("helper"), body_file("fn helper() { parse(); }"));
    bodies.insert(s("parse"), body_file("fn parse() { helper(); }"));
    assert_eq!(fn_tree("main", &bodies, 3), "main\n  helper\n    parse\n      helper\n  parse");
    assert_eq!(fn_tree("main", &bodies, 0), "main");
    assert_eq!(fn_tree("ghost", &bodies, 2), "ghost");
}

#[test]
fn outline_of_source_and_structure() {
    let src = "// fn commented()\npub struct Store {\n    x: u8,\n}\nimpl Store {\n    pub async fn load(&self) {}\n}\npub(crate) unsafe fn raw() {}\n";
    assert_eq!(
        outline("src/a.rs", src),
        "outline: src/a.rs\nstruct Store  (line 2)\nimpl Store  (line 5)\n    fn load  (line 6)\nfn raw  (line 8)"
    );
    let structure = "---\nsource: src/a.rs\nfns:\n  - load\n  - raw\n---\nbody";
    assert_eq!(outline("idx/rs/structure/src/a.md", structure), "outline: idx/rs/structure/src/a.md\nfn load\nfn raw");
}

#[test]
fn reference_graph() {
    let body = "---\nfn: load\nsource: src/a.rs\nlanguage: rs\n---\n```\n```";
    assert_eq!(
        ref_graph("idx/rs/functions/src/a/load.md", body, "idx", "both"),
        "file: idx/rs/functions/src/a/load.md\nin: idx/rs/structure/src/a.md\nsource: src/a.rs"
    );
    assert_eq!(
        ref_graph("idx/rs/functions/src/a/load.md", body, "idx", "out"),
        "file: idx/rs/functions/src/a/load.md\nsource: src/a.rs"
    );
    let structure = "---\nsource: src/a.rs\nfns:\n  - load\n  - raw\n---\n";
    assert_eq!(
        ref_graph("idx/rs/structure/src/a.md", structure, "idx", "both"),
        "file: idx/rs/structure/src/a.md\nout (2):\n  load\n  raw"
    );
}

#[test]
fn index_validation() {
    let structs = vec![
        (s("idx/rs/structure/src/a.md"), s("---\nsource: src/a.rs\nfns:\n  - load\n  - gone\n---\n")),
        (s("idx/rs/structure/notes.md"), s("no front matter")),
    ];
    let bodies = vec![s("idx/rs/functions/src/a/load.md"), s("idx/rs/functions/src/b/stray.md")];
    let c = validate(&bodies, &structs, "idx");
    assert_eq!(c.structures, 2);
    assert_eq!(c.bodies, 2);
    assert_eq!(c.orphans, vec![s("idx/rs/functions/src/b/stray.md")]);
    assert_eq!(c.dead_refs, vec![(s("idx/rs/structure/src/a.md"), s("gone"))]);
    assert_eq!(
        render_check(&c, None),
        "structures: 2\nbodies:     2\norphans:    1\n  - idx/rs/functions/src/b/stray.md\ndead refs:  1\n  - idx/rs/structure/src/a.md -> gone"
    );
    assert!(render_check(&c, Some(1)).ends_with("\n\nfixed: deleted 1 orphans"));
}

fn entry(size: u64, loc: usize, mtime: u128, stem: &str) -> BodyEntry {
    BodyEntry { size, loc, mtime, stem: s(stem) }
}

#[test]
fn body_listing() {
    let es = vec![entry(100, 5, 3, "beta"), entry(300, 50, 1, "alpha"), entry(200, 20, 2, "gamma")];
    assert_eq!(
        list_bodies(&es, None, None, None, "size", 0, None),
        Ok(s("     300  alpha\n     200  gamma\n     100  beta\n-- 3/3"))
    );
    assert_eq!(
        list_bodies(&es, None, Some(10), None, "loc", 0, Some(1)),
        Ok(s("     300      50 loc  alpha\n-- 1/2 (next cursor: 1)"))
    );
    assert_eq!(list_bodies(&es, None, None, None, "name", 1, Some(1)), Ok(s("     100  beta\n-- 1/3 (next cursor: 2)")));
    assert_eq!(list_bodies(&es, None, None, None, "mtime", 0, Some(1)), Ok(s("     100  beta\n-- 1/3 (next cursor: 1)")));
    assert_eq!(list_bodies(&es, Some("g*"), None, None, "size", 0, None), Ok(s("     200  gamma\n-- 1/1")));
    assert_eq!(list_bodies(&es, None, None, None, "size", 5, None), Ok(s("no .md (total=3, cursor=5)")));
    assert!(list_bodies(&es, Some("[unclosed"), None, None, "size", 0, None).unwrap_err().starts_with("invalid glob: "));
}

#[test]
fn large_functions_report() {
    assert_eq!(find_large(&vec![(10, s("rs/functions/src/a/f.md"))], 256), "no fns exceed 256 loc");
    assert_eq!(
        find_large(&vec![(300, s("rs/functions/src/a/f.md")), (900, s("py/functions/m/g.md")), (5, s("x.md"))], 256),
        "⚠    900 loc  py/functions/m/g/g\n⚠    300 loc  rs/functions/src/a/f/f"
    );
}

#[test]
fn open_source_report() {
    assert_eq!(open_report("idx/rs/structure/a.md", "idx/rs/functions/a", &vec![], 256), "structure: idx/rs/structure/a.md (no fns)");
    let es = vec![entry(10, 300, 0, "big"), entry(50, 4, 0, "small")];
    assert_eq!(
        open_report("S", "B", &es, 256),
        "structure: S\nbodies:    B\n     4 loc  small\n   300 loc  big ⚠"
    );
}

#[test]
fn source_keys() {
    assert_eq!(source_key("src/a.rs", Some("/w")), "src/a.rs");
    assert_eq!(source_key("/w/src/a.rs", Some("/w")), "src/a.rs");
    assert_eq!(source_key("/elsewhere/a.rs", Some("/w")), "elsewhere/a.rs");
}

#[test]
fn watcher_events() {
    let exts = vec![s("rs"), s("py")];
    assert_eq!(watch_action("src/a.rs", &exts, true, false), WatchAction::Resplit);
    assert_eq!(watch_action("src/a.rs", &exts, false, true), WatchAction::Remove);
    assert_eq!(watch_action("src/a.rs", &exts, false, false), WatchAction::Ignore);
    assert_eq!(watch_action("src/a.go", &exts, true, false), WatchAction::Ignore);
    assert_eq!(watch_action("proj/.wiki/code/x.rs", &exts, true, false), WatchAction::Ignore);
    assert_eq!(watch_action("Makefile", &exts, true, false), WatchAction::Ignore);
    assert_eq!(body_dir("src/store.rs", "/idx"), "/idx/rs/functions/src/store");
}

#[test]
fn symbols_name_functions() {
    assert_eq!(symbol_stem("src/a.rs::load "), "load");
    assert_eq!(symbol_stem("a:::b"), "b");
    assert_eq!(symbol_stem(" plain "), "plain");
    assert!(stem_matches("load", "load"));
    assert!(stem_matches("store_load", "load"));
    assert!(!stem_matches("loader", "load"));
    assert!(!stem_matches("ld", "load"));
}

#[test]
fn structure_front_matter_reads_back() {
    let source = "fn alpha() {}\nfn beta() {}\n";
    let fns = vec![
        FnMeta { name: "alpha".to_string(), signature: "fn alpha()".to_string(), raw: "fn alpha() {}".to_string(), line_start: 1, line_end: 1 },
        FnMeta { name: "b:c".to_string(), signature: String::new(), raw: "fn beta() {}".to_string(), line_start: 2, line_end: 2 },
    ];
    let md = render_structure_md(source, "src/lib.rs", "rs", &fns);
    let m = parse_frontmatter(&md).unwrap();
    assert_eq!(m.get("fns").map(|s| s.as_str()), Some("alpha,b:c"));
    assert_eq!(m.get("language").map(|s| s.as_str()), Some("rs"));
    assert_eq!(m.get("tags").map(|s| s.as_str()), Some("[code, code-structure]"));
    assert_eq!(m.get("source").map(|s| s.as_str()), Some("src/lib.rs"));
}
