use wiki::learn::infra::EntityRef;
use wiki::learn::links::{relations_body, rewrite_links, wikilink_targets};
use wiki::learn::promote::{conclusion_tags, support_purposes, InboundEdge};
use wiki::sanitize::{plan_stem, rewrite_vault_links, StemAction};
use wiki::smart::{
    gather_contradictions, ContradictionDirection,
    best_snippet, contradiction_peer, count_matches, detect_purpose_bias, extract_from_id, extract_kind, extract_to_id,
    lowercase_terms, reason_title, term_score, truncate_chars,
};
use wiki::store::{has_tag, new_alias, reason_matches, slugify, split_frontmatter, unique_candidate};
use wiki::walk::{resolve_candidate_tags, type_allowed, walk_kinds, EntityTag};

fn s(x: &str) -> String {
    x.to_string()
}

#[test]
fn slugs_and_names() {
    assert_eq!(slugify("Hello, World!"), "hello-world");
    assert_eq!(slugify("  --Already_ok--  "), "already_ok");
    assert_eq!(slugify("Ünïcode Title"), "ünïcode-title");
    assert_eq!(slugify(&"a".repeat(250)).len(), 200);
    assert_eq!(unique_candidate("note", 0), "note.md");
    assert_eq!(unique_candidate("note", 2), "note-2.md");
}

#[test]
fn frontmatter_split() {
    assert_eq!(split_frontmatter("plain body"), Ok((None, s("plain body"))));
    assert_eq!(split_frontmatter("---\nid: x\n---\n\n body \n"), Ok((Some(s("\nid: x\n")), s("body"))));
    assert_eq!(split_frontmatter("---\nid: x\n"), Err(s("Invalid frontmatter")));
}

#[test]
fn aliases_and_tags() {
    assert_eq!(new_alias("  Rusty ", "Rust", &vec![s("rustlang")]), Some(s("Rusty")));
    assert_eq!(new_alias("RUST", "Rust", &vec![]), None);
    assert_eq!(new_alias("RustLang", "Rust", &vec![s("rustlang")]), None);
    assert_eq!(new_alias("  Rusty ", "Rust", &vec![s("rustlang"), s("Rusty")]), None);
    assert!(has_tag(&vec![s("a"), s("b")], "b"));
    assert!(!has_tag(&vec![s("a")], "B"));
    assert!(reason_matches("x", "y", "x", "from"));
    assert!(!reason_matches("x", "y", "x", "to"));
    assert!(reason_matches("x", "y", "y", "both"));
}

#[test]
fn stem_plans() {
    assert!(matches!(plan_stem("clean-stem"), StemAction::Keep));
    assert!(matches!(plan_stem("!!!"), StemAction::SkipEmptySlug));
    match plan_stem("Dirty Stem") {
        StemAction::Rename(x) => assert_eq!(x, "dirty-stem"),
        _ => panic!("expected a rename"),
    }
}

#[test]
fn vault_links_follow_renames() {
    let renames = vec![(s("old note"), s("old-note")), (s("old_note"), s("old-note"))];
    let text = "See [[Old Note#Part|label]] and [x](sub/Old_Note.md#h) and [[other]].";
    assert_eq!(
        rewrite_vault_links(text, &renames),
        Some((s("See [[old-note#Part|label]] and [x](sub/old-note.md#h) and [[other]]."), 2))
    );
    assert_eq!(rewrite_vault_links("no links here", &renames), Some((s("no links here"), 0)));
    assert_eq!(rewrite_vault_links(text, &vec![]), Some((s(text), 0)));
}

#[test]
fn reason_titles() {
    let t = reason_title("a1", "Contradicts", "b2");
    assert_eq!(t, "a1 -[Contradicts]-> b2");
    assert_eq!(extract_from_id(&t), Some(s("a1")));
    assert_eq!(extract_to_id(&t), Some(s("b2")));
    assert_eq!(extract_kind(&t), Some(s("Contradicts")));
    assert_eq!(extract_kind("no kind"), None);
    assert_eq!(contradiction_peer(&t, true), Some(s("b2")));
    assert_eq!(contradiction_peer(&t, false), Some(s("a1")));
    assert_eq!(contradiction_peer("a -[Supports]-> b", true), None);
}

#[test]
fn term_counting() {
    assert_eq!(count_matches("abcabc", "abc"), 2);
    assert_eq!(count_matches("aaa", "aa"), 1);
    assert_eq!(count_matches("ab", ""), 3);
    assert_eq!(lowercase_terms("How do Rust traits work, eh?"), vec![s("how"), s("rust"), s("traits"), s("work")]);
    assert_eq!(term_score("Rust traits", "rust rust", &vec![s("rust"), s("traits")]), 3 + 2 + 3);
    assert_eq!(truncate_chars("héllo", 2), "hé");
}

#[test]
fn snippets() {
    let p1 = "This first paragraph talks about something unrelated entirely.";
    let p2 = "Caching keeps results; the cache is refreshed when the cache expires.";
    let content = format!("{}\n\n{}", p1, p2);
    assert_eq!(best_snippet(&content, &vec![s("cache")]), p2);
    assert_eq!(best_snippet("short text", &vec![s("x")]), "short text");
    let long = "x".repeat(900);
    assert_eq!(best_snippet(&long, &vec![s("y")]).chars().count(), 800);
}

#[test]
fn purpose_bias() {
    let purposes = vec![(s("ml"), s("Machine Learning")), (s("db"), s("Databases"))];
    assert_eq!(detect_purpose_bias(&purposes, "tuning databases for speed"), Some(s("db")));
    assert_eq!(detect_purpose_bias(&purposes, "nothing relevant"), None);
}

#[test]
fn walk_settings() {
    assert!(type_allowed("thoughts", None));
    assert!(type_allowed("thoughts", Some(&vec![s("thoughts")])));
    assert!(!type_allowed("entities", Some(&vec![s("thoughts")])));
    assert_eq!(walk_kinds(&None), vec![s("Answers"), s("Derives"), s("Consolidates"), s("Supports")]);
    assert_eq!(walk_kinds(&Some(vec![s("References")])), vec![s("References")]);
}

#[test]
fn candidate_tags() {
    let purposes = vec![(s("tkx"), s("TKX topic"))];
    let entities = vec![EntityTag { id: s("e1"), title: s("Tokio"), purpose: Some(s("rust")) }];
    let tags = resolve_candidate_tags("tkx tokio q-abc12", &purposes, &entities);
    assert_eq!(tags, vec![s("tkx"), s("__entity__:e1"), s("rust"), s("q-abc12")]);
    assert!(resolve_candidate_tags("", &purposes, &entities).is_empty());
}

#[test]
fn relations_sections() {
    let rs = vec![(s("thoughts/general/b"), s("Beta"), s("Supports"))];
    let body = relations_body("alpha body\n", &rs);
    assert_eq!(
        body,
        "alpha body\n\n<!-- wiki-relations-start -->\n- [[thoughts/general/b|Beta]] — Supports\n<!-- wiki-relations-end -->"
    );
    assert_eq!(relations_body(&body, &rs), body);
    assert_eq!(relations_body(&body, &vec![]), "alpha body");
}

#[test]
fn wikilinks_and_entities() {
    let targets = wikilink_targets("See [[a/b|x]] and `[[skip]]` and [[c]].");
    let names: Vec<String> = targets.iter().map(|t| t.1.clone()).collect();
    assert_eq!(names, vec![s("a/b"), s("c")]);
    let es = vec![EntityRef {
        id: s("e1"),
        title: s("Tokio"),
        aliases: vec![],
        slug: s("tokio"),
        purpose: Some(s("rust")),
    }];
    let (text, n, _) = rewrite_links("We use tokio here and Tokio there.", &es, "self");
    assert_eq!(text, "We use [[entities/rust/tokio|tokio]] here and Tokio there.");
    assert_eq!(n, 1);
    let (again, n2, _) = rewrite_links(&text, &es, "self");
    assert_eq!(again, text);
    assert_eq!(n2, 0);
}

#[test]
fn promotion_tags() {
    assert_eq!(conclusion_tags(None, "q-1"), vec![s("conclusion"), s("general"), s("q-1")]);
    let edges = vec![
        InboundEdge { from_id: s("a"), kind: s("Supports"), source_purpose: Some(s("ml")) },
        InboundEdge { from_id: s("b"), kind: s("References"), source_purpose: Some(s("db")) },
        InboundEdge { from_id: s("c"), kind: s("Supports"), source_purpose: Some(s("ml")) },
    ];
    assert!(support_purposes(&edges).contains(&s("ml")));
    assert!(!support_purposes(&edges).contains(&s("db")));
}

#[test]
fn contradictions_in_both_directions() {
    let types = vec![(s("b"), s("conclusions"))];
    let out_a = vec![(s("r1"), reason_title("a", "Contradicts", "b")), (s("r2"), reason_title("a", "Supports", "c"))];
    let refs = gather_contradictions(&out_a, &vec![], &types);
    assert_eq!(refs.len(), 1);
    assert_eq!((refs[0].reason_id.as_str(), refs[0].other_doc_id.as_str(), refs[0].other_doc_type.as_str()), ("r1", "b", "conclusions"));
    assert_eq!(refs[0].direction, ContradictionDirection::FromHit);
    let in_b = vec![(s("r1"), reason_title("a", "Contradicts", "b"))];
    let refs_b = gather_contradictions(&vec![], &in_b, &types);
    assert_eq!(refs_b.len(), 1);
    assert_eq!((refs_b[0].other_doc_id.as_str(), refs_b[0].other_doc_type.as_str()), ("a", "?"));
    assert_eq!(refs_b[0].direction, ContradictionDirection::ToHit);
}

#[test]
fn ingest_log_rotates_at_265_lines() {
    assert!(!wiki::store::ingest_log_rotates(0));
    assert!(!wiki::store::ingest_log_rotates(264));
    assert!(wiki::store::ingest_log_rotates(265));
    assert_eq!(wiki::store::rotated_log_name("20240101T000000"), "ingest.20240101T000000.jsonl");
}
