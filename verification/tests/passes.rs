use wiki::cli::{configured_exts, parse_cli, source_dirs, CliCommand};
use wiki::hooks::{
    hook_link_target, keep_prompt, merge_subqueries, normalize_question, prompt_qualifies, take_chars,
};
use wiki::learn::code_links::{add_refs, body_path_to_ref, doc_keywords, extract_tokens, parse_refs_from_result};
use wiki::learn::connect::{connect_edges, existing_outbound_targets, offered_candidates, ScoredEdge};
use wiki::learn::dedup::{dedupe_candidates, entity_by_title, fold_paragraphs, pick_entity};
use wiki::learn::feedback::{decide, feedback_plan, FeedbackEntry};
use wiki::learn::infra::{fnv_question_id, EntityRef};
use wiki::learn::links::{bury_question, edge_kind_weight, wikilink_edges, with_tag, ResolvedLink};
use wiki::store::{free_name, free_stem};
use wiki::learn::pass::{pass_start, pass_step, PassAction, PassEvent, PassFlags, PassStage};
use wiki::learn::qa::{qa_start, qa_step, QaAction, QaEvent, QaStage, QaState, qa_recent_at, cursor_file_name, cursor_key, parse_pass_cursor, pass_cursor_body, qa_is_recent, spend};
use wiki::learn::raise::{question_body, raise_slots, search_miss_body, search_miss_title};

fn s(x: &str) -> String {
    x.to_string()
}

fn args(v: &[&str]) -> Vec<String> {
    v.iter().map(|x| x.to_string()).collect()
}

fn entity(id: &str, title: &str, aliases: &[&str]) -> EntityRef {
    EntityRef {
        id: s(id),
        title: s(title),
        aliases: aliases.iter().map(|a| s(a)).collect(),
        slug: s(id),
        purpose: None,
    }
}

#[test]
fn edge_kind_weight_order() {
    assert!(edge_kind_weight("Answers") > edge_kind_weight("Supports"));
    assert!(edge_kind_weight("Supports") > edge_kind_weight("Extends"));
    assert!(edge_kind_weight("Extends") > edge_kind_weight("References"));
    assert!(edge_kind_weight("Contradicts") < 0);
}

#[test]
fn edge_kind_weights_in_tenths() {
    assert_eq!(edge_kind_weight("Answers"), 20);
    assert_eq!(edge_kind_weight("Derives"), 15);
    assert_eq!(edge_kind_weight("Extends"), 7);
    assert_eq!(edge_kind_weight("Requires"), 3);
    assert_eq!(edge_kind_weight("Contradicts"), -5);
    assert_eq!(edge_kind_weight("Other"), 0);
}

#[test]
fn existing_outbound_targets_filters_correctly() {
    let metas = vec![(s("a"), s("b")), (s("c"), s("a")), (s("a"), s("b")), (s("a"), s("d"))];
    let out = existing_outbound_targets(&metas, "a");
    assert!(out.contains(&s("b")));
    assert!(!out.contains(&s("c")));
    assert_eq!(out, vec![s("b"), s("d")]);
}

#[test]
fn connect_offers_unlinked_documents() {
    let results = vec![(s("self"), Some(s("thoughts"))), (s("b"), Some(s("thoughts"))), (s("c"), None), (s("d"), Some(s("entities")))];
    let out = offered_candidates(&results, "self", &vec![s("b")]);
    assert_eq!(out, vec![(s("d"), s("entities"))]);
}

#[test]
fn connect_creates_strong_new_edges() {
    let scored = vec![
        ScoredEdge { picked_id: s("d"), strong: true, kind: s("supports"), body: s("  "), score_text: s("0.91") },
        ScoredEdge { picked_id: s("e"), strong: false, kind: s("Extends"), body: s("weak"), score_text: s("0.20") },
        ScoredEdge { picked_id: s("b"), strong: true, kind: s("Extends"), body: s("dup"), score_text: s("0.80") },
        ScoredEdge { picked_id: s("x"), strong: true, kind: s("Extends"), body: s("unknown"), score_text: s("0.80") },
        ScoredEdge { picked_id: s("f"), strong: true, kind: s("Bogus"), body: s("why"), score_text: s("0.70") },
    ];
    let out = connect_edges(&scored, &vec![s("d"), s("e"), s("b"), s("f")], &vec![s("b")]);
    assert_eq!(
        out,
        vec![
            (s("d"), s("Supports"), s("connect: Supports (score 0.91)")),
            (s("f"), s("References"), s("why")),
        ]
    );
}

fn long_para(word: &str) -> String {
    format!("{} is a paragraph long enough to be compared with entities.", word)
}

#[test]
fn dedupe_keeps_distinct() {
    let body = format!("short\n\n{}\n\n  {}  ", long_para("Alpha"), long_para("Beta"));
    let cands = dedupe_candidates(&body);
    assert_eq!(cands.len(), 2);
    assert_eq!(cands[0].0, 1);
    assert_eq!(cands[1], (2, long_para("Beta")));
    let (kept, merges) = fold_paragraphs(&body, &vec![None, None]);
    assert_eq!(kept, body);
    assert!(merges.is_empty());
}

#[test]
fn dedupe_drops_near_duplicate() {
    let body = format!("intro\n\n{}\n\nend", long_para("Alpha"));
    let (kept, merges) = fold_paragraphs(&body, &vec![Some(s("ent-1"))]);
    assert_eq!(kept, "intro\n\nend");
    assert_eq!(merges, vec![(s("ent-1"), format!("{:x}", wiki::io::fnv64(&long_para("Alpha"))))]);
    let (same, none) = fold_paragraphs("tiny\n\nbody", &vec![Some(s("e"))]);
    assert_eq!(same, "tiny\n\nbody");
    assert!(none.is_empty());
}

#[test]
fn dedupe_picks_first_other_entity() {
    let es = vec![entity("self", "Me", &[]), entity("e1", "One", &[]), entity("e2", "Two", &[])];
    assert_eq!(pick_entity(&es, "self", &vec![true, false, true]), Some(s("e2")));
    assert_eq!(pick_entity(&es, "self", &vec![true, false]), None);
    assert_eq!(pick_entity(&es, "none", &vec![true]), Some(s("self")));
}

#[test]
fn near_duplicate_entity_by_title_or_alias() {
    let es = vec![entity("e1", "Rust Lang", &["rustlang"]), entity("e2", "Tokio", &["TOKIO runtime"])];
    assert_eq!(entity_by_title(&es, "  rust lang "), Some(0));
    assert_eq!(entity_by_title(&es, "Tokio Runtime"), Some(1));
    assert_eq!(entity_by_title(&es, "Go"), None);
}

#[test]
fn tokens_and_keywords() {
    assert_eq!(extract_tokens("The parser_state and THE Parser, also parser_state!"), vec![s("parser_state"), s("parser")]);
    assert_eq!(extract_tokens("a bb ccc"), Vec::<String>::new());
    let kws = doc_keywords("Token parser", "parser lexer grammar token");
    assert_eq!(kws, vec![s("token"), s("parser"), s("lexer"), s("grammar")]);
    let many: Vec<String> = (0..30).map(|i| format!("word{:02}", i)).collect();
    let kws = doc_keywords("", &many.join(" "));
    assert_eq!(kws.len(), 20);
    assert_eq!(kws[19], s("word19"));
}

#[test]
fn body_paths_become_code_refs() {
    assert_eq!(body_path_to_ref("/idx/rs/functions/src/store/create.md", "/idx"), Some(s("src/store.rs::create")));
    assert_eq!(body_path_to_ref("/other/rs/functions/src/x.md", "/idx"), None);
    assert_eq!(body_path_to_ref("/idx/rs/functions", "/idx"), None);
    let result = "no matches for foo\n/idx/rs/functions/src/a/f.md:12: body\n-- footer\nplain line\n";
    assert_eq!(parse_refs_from_result(result, "/idx"), vec![s("src/a.rs::f")]);
}

#[test]
fn code_refs_kept_per_source() {
    let mut refs = vec![s("src/a.rs::f")];
    let mut seen = vec![s("src/a.rs")];
    let done = add_refs(&mut refs, &mut seen, &vec![s("src/a.rs::g"), s("src/b.rs::h"), s("src/b.rs::i")]);
    assert!(!done);
    assert_eq!(refs, vec![s("src/a.rs::f"), s("src/b.rs::h")]);
    assert_eq!(seen, vec![s("src/a.rs"), s("src/b.rs")]);
    let new: Vec<String> = (0..12).map(|i| format!("src/m{}.rs::f", i)).collect();
    let done = add_refs(&mut refs, &mut seen, &new);
    assert!(done);
    assert_eq!(refs.len(), 10);
}

#[test]
fn cursor_round_trip() {
    let body = pass_cursor_body("thoughts", "abc-123", "2024-01-01T00:00:00Z");
    assert_eq!(body, "thoughts/abc-123\n2024-01-01T00:00:00Z\n");
    assert_eq!(parse_pass_cursor(&body), Some((s("thoughts"), s("abc-123"))));
    assert_eq!(parse_pass_cursor("  entities/x  \n"), Some((s("entities"), s("x"))));
    assert_eq!(parse_pass_cursor("noslash\n"), None);
    assert_eq!(parse_pass_cursor("/x"), None);
    assert_eq!(parse_pass_cursor(""), None);
    assert_eq!(cursor_key(None), "<global>");
    assert_eq!(cursor_key(Some("ml")), "ml");
    assert_eq!(cursor_file_name("<global>"), ".learn.cursor.<global>");
    assert_eq!(cursor_file_name("a b/c"), ".learn.cursor.a_b_c");
    assert_eq!(cursor_file_name("my-topic_1"), ".learn.cursor.my-topic_1");
}

#[test]
fn qa_recency_and_budget() {
    assert!(qa_is_recent(0));
    assert!(qa_is_recent(86399));
    assert!(!qa_is_recent(86400));
    assert!(!qa_is_recent(-1));
    assert_eq!(spend(5, 2), 3);
    assert_eq!(spend(1, 2), 0);
}

#[test]
fn raise_helpers() {
    assert_eq!(raise_slots(25, 20), 5);
    assert_eq!(raise_slots(25, 30), 0);
    assert_eq!(question_body("Why?", "  "), "Why?");
    assert_eq!(question_body("Why?", "Because."), "Because.");
    assert_eq!(search_miss_title("  what is x  "), Some(s("what is x")));
    assert_eq!(search_miss_title(" abc "), None);
    assert_eq!(search_miss_body("what is x"), "Raised from search miss: what is x");
    assert!(fnv_question_id("  Why? ").starts_with("q-"));
    assert_eq!(fnv_question_id("  Why? "), fnv_question_id("Why?"));
}

#[test]
fn feedback_plan_reads_entries() {
    let text = "a\n\nb\nc\n";
    let (entries, consumed) = feedback_plan(text, 2);
    assert_eq!(entries, vec![s("a"), s("b")]);
    assert_eq!(consumed, 5);
    let (entries, consumed) = feedback_plan(text, 10);
    assert_eq!(entries.len(), 3);
    assert_eq!(consumed, 7);
}

#[test]
fn feedback_decides_edges() {
    let e = FeedbackEntry {
        question: s("How?"),
        tag_filter: None,
        picked: vec![s("p1"), s("p2")],
        reasons: vec![(s("p1"), s("first")), (s("p1"), s("because")), (s("p2"), s(""))],
    };
    let d = decide(&e);
    assert_eq!(d.purpose, "general");
    assert_eq!(d.edges[0], (s("p1"), s("References"), s("because")));
    assert_eq!(d.edges[1], (s("p2"), s("References"), s("Picked as relevant to: How?")));
}

#[test]
fn burying_and_tagging() {
    let m = bury_question("general/why-x.md", &vec![]).unwrap();
    assert_eq!(m.parent, "general");
    assert_eq!(m.stem, "why-x");
    assert_eq!(m.new_dir, "graveyard/general");
    assert_eq!(m.new_stem, "why-x");
    assert_eq!(
        m.relink,
        Some((s("questions/general/why-x"), s("questions/graveyard/general/why-x")))
    );
    assert!(bury_question(&format!("{}/{}.md", m.new_dir, m.stem), &vec![]).is_none());
    let top = bury_question("why-y.md", &vec![]).unwrap();
    assert_eq!(top.new_dir, "graveyard/");
    assert_eq!(top.relink, None);
    let t = with_tag(&vec![s("question")], "graveyard").unwrap();
    assert_eq!(t, vec![s("question"), s("graveyard")]);
    assert!(with_tag(&t, "graveyard").is_none());
}

#[test]
fn prompt_hook_decisions() {
    assert!(prompt_qualifies("  how does the cache work?  "));
    assert!(!prompt_qualifies("/help me now please"));
    assert!(!prompt_qualifies("short"));
    assert_eq!(
        merge_subqueries("Cache design", &vec![s("cache DESIGN"), s("eviction"), s("Eviction")]),
        vec![s("Cache design"), s("eviction")]
    );
    assert_eq!(hook_link_target(" thoughts/abc "), (Some(s("thoughts")), s("abc")));
    assert_eq!(hook_link_target("abc"), (None, s("abc")));
    assert_eq!(take_chars("abcdef", 3), "abc…");
    assert_eq!(take_chars("abc", 3), "abc");
}

#[test]
fn stop_hook_keeps_new_questions() {
    assert_eq!(normalize_question("  How   Does\tX work? "), "how does x work?");
    assert!(keep_prompt("How does the index stay fresh?", &vec![s("Something else entirely")]));
    assert!(!keep_prompt("How does the index stay fresh?", &vec![s("how does  the INDEX stay fresh?")]));
    assert!(!keep_prompt("too short", &vec![]));
}

#[test]
fn command_line() {
    match parse_cli(&args(&["wiki", "search", "cache", "--tag", "ml", "--k", "7", "--top-n", "x"])) {
        CliCommand::Search { query, tag, k, top_n } => {
            assert_eq!(query, "cache");
            assert_eq!(tag, Some(s("ml")));
            assert_eq!(k, 7);
            assert_eq!(top_n, 5);
        },
        _ => panic!("expected search"),
    }
    assert!(matches!(parse_cli(&args(&["wiki", "search"])), CliCommand::SearchUsage));
    assert!(matches!(parse_cli(&args(&["wiki"])), CliCommand::Serve));
    assert!(matches!(parse_cli(&args(&["wiki", "hook"])), CliCommand::Hook));
    assert!(matches!(parse_cli(&args(&["wiki", "unknown"])), CliCommand::Serve));
    match parse_cli(&args(&["wiki", "learn-feedback", "--dry-run", "--limit", "3"])) {
        CliCommand::LearnFeedback { limit, dry_run } => {
            assert_eq!(limit, 3);
            assert!(dry_run);
        },
        _ => panic!("expected learn-feedback"),
    }
    assert_eq!(configured_exts(Some(" rs, ,py "), Some("go")), Some(vec![s("rs"), s("py")]));
    assert_eq!(configured_exts(None, Some("go")), Some(vec![s("go")]));
    assert_eq!(configured_exts(None, None), None);
    assert_eq!(source_dirs(Some("src ; lib"), Some("app")), vec![s("src"), s("lib"), s("app")]);
}

#[test]
fn recency_of_last_qa_stamps() {
    let now = "2024-01-02T00:00:00Z";
    assert!(qa_recent_at("2024-01-01T12:00:00+00:00", now));
    assert!(qa_recent_at("2024-01-01T00:00:00.5+00:00", now));
    assert!(!qa_recent_at("2024-01-01T00:00:00+00:00", now));
    assert!(!qa_recent_at("2000-01-01T00:00:00+00:00", now));
    assert!(!qa_recent_at("2024-01-02T00:00:01+00:00", now));
    assert!(qa_recent_at("2024-01-02T00:00:00.5+00:00", now));
    assert!(!qa_recent_at("yesterday", now));
}

fn check_last_qa_at_skips_recent() {
    let now = chrono::Utc::now().to_rfc3339();
    assert!(qa_recent_at(&now, &now));
    assert!(!qa_recent_at("2000-01-01T00:00:00+00:00", &now));
}

#[test]
fn learn_last_qa_at_skips_recent() {
    check_last_qa_at_skips_recent();
}

#[test]
fn qa_last_qa_at_skips_recent() {
    check_last_qa_at_skips_recent();
}

#[test]
fn burying_takes_first_free_stem() {
    let taken = vec![s("why-x.md"), s("why-x-1.md"), s("other.md")];
    let m = bury_question("general/why-x.md", &taken).unwrap();
    assert_eq!(m.new_stem, "why-x-2");
    assert_eq!(
        m.relink,
        Some((s("questions/general/why-x"), s("questions/graveyard/general/why-x-2")))
    );
    assert_eq!(free_stem("a", &vec![s("a-1.md")]), "a");
    assert_eq!(free_stem("a", &vec![s("a.md"), s("a-2.md")]), "a-1");
    assert_eq!(free_name("a", &vec![s("a.md"), s("a-1.md")]), (2, s("a-2.md")));
    assert_eq!(free_name("a", &vec![]), (0, s("a.md")));
}

fn resolved(doc_type: &str, id: &str, purpose: Option<&str>) -> Option<ResolvedLink> {
    Some(ResolvedLink { doc_type: s(doc_type), id: s(id), purpose: purpose.map(s) })
}

#[test]
fn mid_body_wikilink_emits_references_for_thought_target() {
    let body = "see [[t-1]] for context.";
    let r = wikilink_edges(body, "src", Some("general"), &vec![resolved("thoughts", "t-1", Some("general"))], &vec![]);
    assert_eq!(r, vec![(s("t-1"), s("References"))]);
}

#[test]
fn body_start_wikilink_to_question_emits_supports_no_automark() {
    let body = "[[q-1]] because the answer is foo.";
    let r = wikilink_edges(body, "src", Some("general"), &vec![resolved("questions", "q-1", Some("general"))], &vec![]);
    assert_eq!(r, vec![(s("q-1"), s("Supports"))]);
    assert!(!r.iter().any(|(_, k)| k == "Answers"));
}

#[test]
fn body_start_wikilink_same_purpose_emits_supports() {
    let body = "  [[t-1]] reinforces the prior claim.";
    let r = wikilink_edges(body, "src", Some("general"), &vec![resolved("thoughts", "t-1", Some("general"))], &vec![]);
    assert_eq!(r, vec![(s("t-1"), s("Supports"))]);
}

#[test]
fn body_start_wikilink_cross_purpose_emits_references() {
    let body = "[[t-1]] mentioned in cross-purpose context.";
    let r = wikilink_edges(body, "src", Some("beta"), &vec![resolved("thoughts", "t-1", Some("alpha"))], &vec![]);
    assert_eq!(r, vec![(s("t-1"), s("References"))]);
}

#[test]
fn mid_body_wikilink_emits_references_even_for_question() {
    let body = "a thought referencing [[q-1]] casually.";
    let r = wikilink_edges(body, "src", Some("general"), &vec![resolved("questions", "q-1", Some("general"))], &vec![]);
    assert_eq!(r, vec![(s("q-1"), s("References"))]);
}

#[test]
fn wikilink_idempotent() {
    let body = "ref [[t-1]] and [[t-2]], again [[t-1]], self [[src]], lost [[nowhere]]";
    let res = vec![
        resolved("thoughts", "t-1", None),
        resolved("thoughts", "t-2", None),
        resolved("thoughts", "t-1", None),
        resolved("thoughts", "src", None),
        None,
    ];
    let first = wikilink_edges(body, "src", Some("general"), &res, &vec![]);
    assert_eq!(first, vec![(s("t-1"), s("References")), (s("t-2"), s("References"))]);
    let second = wikilink_edges(body, "src", Some("general"), &res, &first);
    assert!(second.is_empty());
}

#[test]
fn wikilink_skips_inside_code_block() {
    let body = "example: `[[t-1]]`";
    let r = wikilink_edges(body, "src", Some("general"), &vec![resolved("thoughts", "t-1", None)], &vec![]);
    assert!(r.is_empty());
}

fn flags(dry_run: bool, qa: bool, force: bool) -> PassFlags {
    PassFlags { dry_run, qa, force }
}

#[test]
fn pass_steps_through_a_document() {
    let s = pass_start(flags(false, true, false), 3);
    let (s, a) = pass_step(s, PassEvent::Doc { recent_qa: true });
    assert_eq!((a, s.stage, s.tally.skipped_recent), (PassAction::Next, PassStage::Idle, 1));
    let (s, a) = pass_step(s, PassEvent::Doc { recent_qa: false });
    assert_eq!((a, s.stage), (PassAction::Link, PassStage::Linking));
    let (s, a) = pass_step(s, PassEvent::Linked(Some((true, 2, 1))));
    assert_eq!(a, PassAction::EnrichAndConnect);
    assert_eq!((s.tally.docs_modified, s.tally.links_added, s.tally.paragraphs_merged), (1, 2, 1));
    let (s, a) = pass_step(s, PassEvent::Connected(Some((1, 1))));
    assert_eq!((a, s.tally.edges_added, s.tally.llm_budget), (PassAction::RunQa, 1, 2));
    let (s, a) = pass_step(s, PassEvent::Answered { result: Some((1, 1, 0)), budget_left: 0 });
    assert_eq!((a, s.stage), (PassAction::StampQa, PassStage::Idle));
    assert_eq!((s.tally.questions_raised, s.tally.questions_answered, s.tally.llm_budget), (1, 1, 0));
    let (s, a) = pass_step(s, PassEvent::Doc { recent_qa: false });
    assert_eq!(a, PassAction::Link);
    let (s, a) = pass_step(s, PassEvent::Linked(None));
    assert_eq!((a, s.stage, s.tally.docs_modified), (PassAction::Enrich, PassStage::Idle, 1));
    let (s2, a) = pass_step(s, PassEvent::Question { due: true });
    assert_eq!((a, s2), (PassAction::Stop, s));
}

#[test]
fn pass_cross_topic_spends_two_calls() {
    let s = pass_start(flags(false, true, true), 2);
    let (s, a) = pass_step(s, PassEvent::Doc { recent_qa: true });
    assert_eq!(a, PassAction::Link);
    let (s, _) = pass_step(s, PassEvent::Linked(None));
    let (s, a) = pass_step(s, PassEvent::Connected(Some((0, 5))));
    assert_eq!((a, s.tally.llm_budget), (PassAction::Next, 0));
    let s = pass_start(flags(false, true, false), 2);
    let (s, a) = pass_step(s, PassEvent::Question { due: false });
    assert_eq!((a, s.tally.llm_budget), (PassAction::Next, 2));
    let (s, a) = pass_step(s, PassEvent::Question { due: true });
    assert_eq!((a, s.stage, s.tally.llm_budget), (PassAction::RunCrossTopic, PassStage::CrossTopic, 0));
    let (s, a) = pass_step(s, PassEvent::CrossTopicDone { promoted: true });
    assert_eq!(a, PassAction::Next);
    assert_eq!(
        (s.tally.crosstopic_invoked, s.tally.questions_answered, s.tally.conclusions_promoted),
        (1, 1, 1)
    );
}

#[test]
fn dry_run_pass_only_links() {
    let s = pass_start(flags(true, true, false), 5);
    let (s, a) = pass_step(s, PassEvent::Doc { recent_qa: false });
    assert_eq!(a, PassAction::Link);
    let (s, a) = pass_step(s, PassEvent::Linked(Some((true, 1, 0))));
    assert_eq!((a, s.stage, s.tally.llm_budget), (PassAction::Next, PassStage::Idle, 5));
    let (s2, a) = pass_step(s, PassEvent::Question { due: true });
    assert_eq!((a, s2), (PassAction::Stop, s));
    let (s3, a) = pass_step(s, PassEvent::Connected(Some((3, 3))));
    assert_eq!((a, s3), (PassAction::Next, s));
}

#[test]
fn qa_answers_and_promotes() {
    let st = qa_start(4, true);
    let (st, a) = qa_step(st, QaEvent::Begin);
    assert_eq!((a, st.budget), (QaAction::RaiseQuestions, 3));
    let (st, a) = qa_step(st, QaEvent::Raised { created: 2 });
    assert_eq!(a, QaAction::NextTarget);
    let (st, a) = qa_step(st, QaEvent::Target { more: true });
    assert_eq!((a, st.budget), (QaAction::CrossReference, 2));
    let (st, a) = qa_step(st, QaEvent::CrossReferenced(Some((vec![(s("d1"), true), (s("d2"), false)], false))));
    assert_eq!(
        a,
        QaAction::WriteEdges {
            edges: vec![(s("d1"), s("Answers")), (s("d2"), s("Supports"))],
            strong: vec![s("d1")],
        }
    );
    let (st, a) = qa_step(st, QaEvent::EdgesWritten);
    assert_eq!((a, st.answered), (QaAction::MarkAnswered, 1));
    let (st, a) = qa_step(st, QaEvent::Marked);
    assert_eq!((a, st.budget), (QaAction::Promote, 1));
    let (st, a) = qa_step(st, QaEvent::Promoted(true));
    assert_eq!((a, st.promoted), (QaAction::NextTarget, 1));
    let (st, a) = qa_step(st, QaEvent::Target { more: true });
    assert_eq!((a, st.budget), (QaAction::CrossReference, 0));
    let (st, _) = qa_step(st, QaEvent::CrossReferenced(Some((vec![(s("d3"), false)], true))));
    let (st, a) = qa_step(st, QaEvent::EdgesWritten);
    assert_eq!(a, QaAction::NextTarget);
    let (st, a) = qa_step(st, QaEvent::Target { more: true });
    assert_eq!((a, st.stage), (QaAction::Done(2, 1, 1), QaStage::Finished));
}

#[test]
fn qa_without_budget_does_nothing() {
    let (st, a) = qa_step(qa_start(0, true), QaEvent::Begin);
    assert_eq!((a, st.budget), (QaAction::Done(0, 0, 0), 0));
}

#[test]
fn qa_cross_topic_when_supported() {
    let st = qa_start(4, false);
    let (st, a) = qa_step(st, QaEvent::Begin);
    assert_eq!((a, st.budget), (QaAction::NextTarget, 3));
    let (st, a) = qa_step(st, QaEvent::Marked);
    assert_eq!((a, st.stage), (QaAction::Wait, QaStage::NextQuestion));
    let (st, _) = qa_step(st, QaEvent::Target { more: true });
    let (st, a) = qa_step(st, QaEvent::CrossReferenced(None));
    assert_eq!(a, QaAction::NextTarget);
    let (st, _) = qa_step(st, QaEvent::Target { more: true });
    assert_eq!(st.budget, 1);
    let st = QaState { budget: 3, ..st };
    let (st, a) = qa_step(st, QaEvent::CrossReferenced(Some((vec![], true))));
    assert_eq!(a, QaAction::WriteEdges { edges: vec![], strong: vec![] });
    let (st, a) = qa_step(st, QaEvent::EdgesWritten);
    assert_eq!((a, st.budget), (QaAction::CrossTopic, 1));
    let (st, a) = qa_step(st, QaEvent::CrossTopicDone(true));
    assert_eq!((a, st.answered, st.promoted), (QaAction::NextTarget, 1, 1));
    let (_, a) = qa_step(st, QaEvent::Target { more: false });
    assert_eq!(a, QaAction::Done(0, 1, 1));
}

#[test]
fn hook_linked_walk_skips_hits_and_repeats_and_stops_at_eight() {
    let f = |k: &str, id: &str| Some((s(k), s(id)));
    let found = vec![f("thoughts", "hit"), f("thoughts", "a"), None, f("entities", "a"), f("thoughts", "b")];
    let r = wiki::hooks::hook_linked(&found, &vec![s("hit")]);
    assert_eq!(r, vec![(s("thoughts"), s("a")), (s("thoughts"), s("b"))]);
    let many: Vec<Option<(String, String)>> = (0..12).map(|i| f("thoughts", &format!("d{}", i))).collect();
    let r = wiki::hooks::hook_linked(&many, &vec![]);
    assert_eq!(r.len(), 8);
    assert_eq!(r[7], (s("thoughts"), s("d7")));
}
