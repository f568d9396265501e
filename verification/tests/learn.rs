use wiki::config::is_template_question;
use wiki::io::fnv64;
use wiki::learn::infra::{allowed_kind, fnv_question_id};
use wiki::learn::links::{code_protected_ranges, code_ref_to_wiki_path, protected_ranges, replace_relations_block};
use wiki::learn::migrate::{
    migrate_question_lifecycle, migrate_templated_questions, LifecycleAction, QuestionFile, QuestionRecord,
};
use wiki::learn::promote::{question_support_purposes, should_invoke_cross_topic, InboundEdge};
use wiki::learn::raise::{filter_raised_candidates, RaisedQItem};
use wiki::smart::reason_title;

const RELATIONS_START: &str = "<!-- wiki-relations-start -->";

fn check_protected_ranges_skip_code() {
    let text = "hello `code` world\n\n```\nfoo bar\n```\n\ntail";
    let r = protected_ranges(text);
    assert!(r.iter().any(|(s, _)| text[*s..].starts_with('`')));
}

#[test]
fn learn_protected_ranges_skip_code() {
    check_protected_ranges_skip_code();
}

#[test]
fn links_protected_ranges_skip_code() {
    check_protected_ranges_skip_code();
}

fn check_fnv64_stable() {
    assert_eq!(fnv64("abc"), fnv64("abc"));
    assert_ne!(fnv64("abc"), fnv64("abd"));
}

#[test]
fn learn_fnv64_stable() {
    check_fnv64_stable();
}

#[test]
fn infra_fnv64_stable() {
    check_fnv64_stable();
}

fn check_fnv_question_id_stable() {
    assert_eq!(fnv_question_id("Why is the sky blue?"), fnv_question_id("Why is the sky blue?"));
    assert_eq!(fnv_question_id(" Why is the sky blue? "), fnv_question_id("Why is the sky blue?"));
    assert_ne!(fnv_question_id("Why?"), fnv_question_id("How?"));
    assert!(fnv_question_id("Q").starts_with("q-"));
}

#[test]
fn learn_fnv_question_id_stable() {
    check_fnv_question_id_stable();
}

#[test]
fn infra_fnv_question_id_stable() {
    check_fnv_question_id_stable();
}

fn check_allowed_kind_extends_answers() {
    assert_eq!(allowed_kind("answers"), "Answers");
    assert_eq!(allowed_kind("Answers"), "Answers");
    assert_eq!(allowed_kind("supports"), "Supports");
    assert_eq!(allowed_kind("contradicts"), "Contradicts");
    assert_eq!(allowed_kind("extends"), "Extends");
    assert_eq!(allowed_kind("garbage"), "References");
}

#[test]
fn learn_allowed_kind_extends_answers() {
    check_allowed_kind_extends_answers();
}

#[test]
fn infra_allowed_kind_extends_answers() {
    check_allowed_kind_extends_answers();
}

fn check_template_regex_matches_relate_form() {
    assert!(is_template_question(
        "How does 'GPU Pipeline (8-Pass)' relate to or differ from similar concepts?"
    ));
    assert!(is_template_question("What are the key characteristics of 'XPBD'?"));
    assert!(is_template_question("What are the implications of 'Visibility Buffer'?"));
    assert!(is_template_question("What is the importance of 'foo'?"));
    assert!(!is_template_question(
        "Why does the 8-Pass pipeline tile in 32x32 blocks instead of 16x16?"
    ));
}

#[test]
fn learn_template_regex_matches_relate_form() {
    check_template_regex_matches_relate_form();
}

#[test]
fn migrate_template_regex_matches_relate_form() {
    check_template_regex_matches_relate_form();
}

#[test]
fn raise_questions_skips_templates() {
    let items = vec![
        RaisedQItem {
            title: "How does 'XPBD' relate to or differ from similar concepts?".into(),
            body: "x".into(),
        },
        RaisedQItem {
            title: "Why is the substep count fixed at 8?".into(),
            body: "Body sentence one. Body sentence two.".into(),
        },
        RaisedQItem { title: "What are the implications of 'Substep'?".into(), body: "y".into() },
    ];
    let (kept, skipped) = filter_raised_candidates(items);
    assert_eq!(kept.len(), 1);
    assert_eq!(kept[0].title, "Why is the substep count fixed at 8?");
    assert_eq!(skipped.len(), 2);
}

#[test]
fn code_ranges_exclude_wikilinks() {
    let text = "see `[[a]]` and [[b]]";
    let r = code_protected_ranges(text);
    let b_pos = text.find("[[b]]").unwrap();
    assert!(!r.iter().any(|(s, e)| b_pos >= *s && b_pos < *e));
    let a_pos = text.find("[[a]]").unwrap();
    assert!(r.iter().any(|(s, e)| a_pos >= *s && a_pos < *e));
}

#[test]
fn replace_relations_block_appends_when_missing() {
    let body = "some content here";
    let block = "<!-- wiki-relations-start -->\n- [[x]]\n<!-- wiki-relations-end -->";
    let result = replace_relations_block(body, block);
    assert!(result.starts_with("some content here"));
    assert!(result.contains(RELATIONS_START));
    assert!(result.contains("[[x]]"));
}

#[test]
fn replace_relations_block_replaces_existing() {
    let body = "before\n<!-- wiki-relations-start -->\n- [[old]]\n<!-- wiki-relations-end -->\nafter";
    let block = "<!-- wiki-relations-start -->\n- [[new]]\n<!-- wiki-relations-end -->";
    let result = replace_relations_block(body, block);
    assert!(result.contains("[[new]]"));
    assert!(!result.contains("[[old]]"));
    assert!(result.contains("before"));
    assert!(result.contains("after"));
}

#[test]
fn code_ref_to_wiki_path_converts() {
    let r = code_ref_to_wiki_path("src/classifier.rs::classify");
    assert_eq!(r, Some("code/rs/functions/src/classifier/classify".to_string()));
    let r2 = code_ref_to_wiki_path("src/learn/links.rs::link_doc");
    assert_eq!(r2, Some("code/rs/functions/src/learn/links/link_doc".to_string()));
}

fn question(id: &str, title: &str, inbound_titles: Vec<String>) -> QuestionRecord {
    QuestionRecord { id: id.to_string(), title: title.to_string(), inbound_titles }
}

fn check_migration_deletes_unanswered_templates() {
    let qs = vec![
        question(
            "q0",
            "How does 'A' relate to or differ from similar concepts?",
            vec![reason_title("anchor", "Answers", "q0")],
        ),
        question("q1", "What are the key characteristics of 'B'?", vec![]),
        question("q2", "What are the implications of 'C'?", vec![reason_title("x", "Supports", "q2")]),
        question("novel", "Novel question that survives?", vec![]),
    ];
    let (report, delete) = migrate_templated_questions(&qs);
    assert_eq!(report.scanned, 4);
    assert_eq!(report.templated, 3);
    assert_eq!(report.deleted, 2);
    assert_eq!(report.kept_with_answers.len(), 1);
    assert!(!delete.contains(&"q0".to_string()));
    assert!(!delete.contains(&"novel".to_string()));
    assert!(delete.contains(&"q1".to_string()));
    assert!(delete.contains(&"q2".to_string()));
}

#[test]
fn learn_migration_deletes_unanswered_templates() {
    check_migration_deletes_unanswered_templates();
}

#[test]
fn migrate_migration_deletes_unanswered_templates() {
    check_migration_deletes_unanswered_templates();
}

fn check_migration_dry_run_deletes_nothing() {
    let qs = vec![question("x", "What are the implications of 'X'?", vec![])];
    let (r, planned) = migrate_templated_questions(&qs);
    assert_eq!(r.templated, 1);
    assert_eq!(r.deleted, 1);
    assert_eq!(planned, vec!["x".to_string()]);
    assert_eq!(qs.len(), 1);
}

#[test]
fn learn_migration_dry_run_deletes_nothing() {
    check_migration_dry_run_deletes_nothing();
}

#[test]
fn migrate_migration_dry_run_deletes_nothing() {
    check_migration_dry_run_deletes_nothing();
}

fn check_auto_trigger_on_multi_support_question() {
    let mut edges = vec![InboundEdge {
        from_id: "src-A".to_string(),
        kind: "Supports".to_string(),
        source_purpose: Some("phyons".to_string()),
    }];
    assert!(!should_invoke_cross_topic(&edges));
    edges.push(InboundEdge {
        from_id: "src-B".to_string(),
        kind: "Supports".to_string(),
        source_purpose: Some("forward-plus".to_string()),
    });
    assert!(should_invoke_cross_topic(&edges));
    let purposes = question_support_purposes(&edges);
    assert!(purposes.contains(&"phyons".to_string()));
    assert!(purposes.contains(&"forward-plus".to_string()));
}

#[test]
fn learn_auto_trigger_on_multi_support_question() {
    check_auto_trigger_on_multi_support_question();
}

#[test]
fn promote_auto_trigger_on_multi_support_question() {
    check_auto_trigger_on_multi_support_question();
}

#[test]
fn templated_question_with_only_outbound_answers_is_deleted() {
    // q answers d (q -[Answers]-> d); only a Supports reason arrives at q,
    // so the record lists that one title alone.
    let qs = vec![question(
        "q",
        "What are the implications of 'Q'?",
        vec![reason_title("x", "Supports", "q")],
    )];
    let (report, delete) = migrate_templated_questions(&qs);
    assert_eq!(report.templated, 1);
    assert_eq!(report.deleted, 1);
    assert!(report.kept_with_answers.is_empty());
    assert_eq!(delete, vec!["q".to_string()]);
}

fn qfile(id: &str, path: &str, tags: &[&str]) -> QuestionFile {
    QuestionFile {
        id: id.to_string(),
        path: path.to_string(),
        tags: tags.iter().map(|t| t.to_string()).collect(),
    }
}

#[test]
fn lifecycle_plan_names_resolved_questions() {
    let qs = vec![
        qfile("a", "answered/general/a.md", &[]),
        qfile("b", "general/b.md", &["question"]),
        qfile("c", "general/c.md", &["dropped"]),
        qfile("d", "dropped/general/d.md", &["answered"]),
        qfile("e", "general/e.md", &["answered", "dropped"]),
        qfile("f", "general/answered-not/f.md", &[]),
    ];
    let (rep, plan) = migrate_question_lifecycle(&qs);
    assert_eq!(
        plan,
        vec![
            ("a".to_string(), LifecycleAction::DeleteAnswered),
            ("c".to_string(), LifecycleAction::DeleteStrayDropped),
            ("d".to_string(), LifecycleAction::DeleteDropped),
            ("e".to_string(), LifecycleAction::DeleteStrayAnswered),
        ]
    );
    assert_eq!(rep.answered_deleted, 1);
    assert_eq!(rep.dropped_deleted, 1);
    assert_eq!(rep.stray_answered_tag_deleted, 1);
    assert_eq!(rep.stray_dropped_tag_deleted, 1);
    let kept: Vec<QuestionFile> =
        qs.iter().filter(|q| !plan.iter().any(|(id, _)| *id == q.id)).cloned().collect();
    let (again, plan2) = migrate_question_lifecycle(&kept);
    assert!(plan2.is_empty());
    assert_eq!(again.answered_deleted + again.dropped_deleted, 0);
    assert_eq!(again.stray_answered_tag_deleted + again.stray_dropped_tag_deleted, 0);
}

#[test]
fn escape_agrees_with_regex_crate() {
    for t in ["a.b*c", "plain", "", "x\\y", "(1+2)?[a-z]{3}|^$#&~", "héllo wörld", "C++ -- notes"] {
        assert_eq!(wiki::pattern::escape(t), regex::escape(t));
    }
    assert_eq!(wiki::pattern::escape("a.b"), "a\\.b");
}
