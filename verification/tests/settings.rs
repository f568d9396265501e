use wiki::docs::{page_files, page_name};
use wiki::io::{atomic_tmp_name, vec_dim};
use wiki::config::{
    count_setting, dotenv_value, index_dir_from, parse_usize, relations_limit_setting, replace_str, split_all,
    split_nonempty, wiki_root,
};
use wiki::settings::{settings_to_apply, TomlValue};
use wiki::chunker::Chunk;
use wiki::pool::{batch_ranges, content_hash, sidecar_fresh};
use wiki::store::purpose_from;
use wiki::tools::{
    ingest_kind, reason_ends, IngestKind, child_plans, ingest_chunks, needs_general,
    default_title, doc_type_from_base_tag, expand_layer, hit_doc_type, is_open_question, page_window, qa_keeps,
    resolved_tags, search_mode, SearchMode,
};

fn s(x: &str) -> String {
    x.to_string()
}

#[test]
fn parse_usize_accepts_plain_and_plus() {
    assert_eq!(parse_usize("25"), Some(25));
    assert_eq!(parse_usize("+7"), Some(7));
    assert_eq!(parse_usize("0"), Some(0));
    assert_eq!(parse_usize(""), None);
    assert_eq!(parse_usize("+"), None);
    assert_eq!(parse_usize("-3"), None);
    assert_eq!(parse_usize(" 3"), None);
    assert_eq!(parse_usize("12a"), None);
    assert_eq!(parse_usize("99999999999999999999999"), None);
}

#[test]
fn parse_usize_reads_back_formatted_numbers() {
    for n in [0usize, 1, 9, 10, 99, 100, 12345, usize::MAX] {
        assert_eq!(parse_usize(&format!("{}", n)), Some(n));
    }
}

#[test]
fn count_setting_falls_back_to_default() {
    assert_eq!(count_setting(Some("40"), 25), 40);
    assert_eq!(count_setting(Some("forty"), 25), 25);
    assert_eq!(count_setting(None, 25), 25);
}

#[test]
fn relations_limits_per_type() {
    assert_eq!(relations_limit_setting("thoughts"), ("WIKI_RELATIONS_LIMIT_THOUGHTS", 5));
    assert_eq!(relations_limit_setting("questions"), ("WIKI_RELATIONS_LIMIT_QUESTIONS", 3));
    assert_eq!(relations_limit_setting("conclusions"), ("WIKI_RELATIONS_LIMIT_CONCLUSIONS", 5));
    assert_eq!(relations_limit_setting("entities"), ("WIKI_RELATIONS_LIMIT_ENTITIES", 10));
    assert_eq!(relations_limit_setting("rs"), ("WIKI_RELATIONS_LIMIT_CODE", 5));
}

#[test]
fn dotenv_value_reads_first_assignment() {
    let text = "# comment\nOTHER=1\n  OPENAI_API_KEY = \"sk-abc\"  \nOPENAI_API_KEY=second\n";
    assert_eq!(dotenv_value(text, "OPENAI_API_KEY"), Some(s("second")));
    let text = "OTHER=1\nOPENAI_API_KEY=\"sk-abc\"\nOPENAI_API_KEY=second\n";
    assert_eq!(dotenv_value(text, "OPENAI_API_KEY"), Some(s("sk-abc")));
    let text = "KEY=''\nKEY='x y'\n";
    assert_eq!(dotenv_value(text, "KEY"), Some(s("x y")));
    assert_eq!(dotenv_value("", "KEY"), None);
}

#[test]
fn replace_str_replaces_every_occurrence() {
    assert_eq!(replace_str("a-b-c", "-", "+"), "a+b+c");
    assert_eq!(replace_str("aaaa", "aa", "b"), "bb");
    assert_eq!(replace_str("abc", "x", "y"), "abc");
    assert_eq!(replace_str("${HOME}/v", "${HOME}", "/h"), "/h/v");
}

#[test]
fn split_pieces() {
    assert_eq!(split_all("a,,b", ','), vec![s("a"), s(""), s("b")]);
    assert_eq!(split_nonempty("/a//b/", '/'), vec![s("a"), s("b")]);
    assert_eq!(split_all("", ','), vec![s("")]);
}

#[test]
fn wiki_root_expands_and_joins() {
    let vars = vec![(s("HOME"), s("/home/u"))];
    assert_eq!(wiki_root(Some("${HOME}/vault"), &vars, Some("/cwd")), "/home/u/vault");
    assert_eq!(wiki_root(Some("${MISSING}/vault"), &vars, Some("/cwd")), "/cwd/.wiki");
    assert_eq!(wiki_root(None, &vars, Some("/cwd")), "/cwd/.wiki");
    assert_eq!(wiki_root(Some("notes"), &vars, None), "notes");
    assert_eq!(wiki_root(Some("/abs"), &vars, Some("/cwd")), "/abs");
}

#[test]
fn index_dir_prefers_code_then_split() {
    assert_eq!(index_dir_from(Some("/x"), Some("/y"), Some("/c")), "/x");
    assert_eq!(index_dir_from(None, Some("idx"), Some("/c")), "/c/idx");
    assert_eq!(index_dir_from(None, None, Some("/c")), "/c/.wiki/code");
    assert_eq!(index_dir_from(None, None, None), ".wiki/code");
}

#[test]
fn environment_wins_over_files() {
    let global = vec![(s("openai_api_key"), TomlValue::Text(s("g-key"))), (s("split_ext"), TomlValue::Text(s("py")))];
    let local = vec![(s("split_ext"), TomlValue::Text(s("rs")))];
    let preset = vec![s("OPENAI_API_KEY")];
    let out = settings_to_apply(Some(&global), Some(&local), &preset);
    assert_eq!(out, vec![(s("SPLIT_EXT"), s("rs"))]);
}

#[test]
fn local_file_over_global_and_value_texts() {
    let global = vec![
        (s("wiki_rerank_model"), TomlValue::Text(s("g"))),
        (s("code_dirs"), TomlValue::List(vec![Some(s("src")), None, Some(s("lib"))])),
        (s("split_max_loc"), TomlValue::Other(s("256"))),
        (s("unknown_key"), TomlValue::Text(s("ignored"))),
    ];
    let local = vec![(s("wiki_rerank_model"), TomlValue::Text(s("l")))];
    let out = settings_to_apply(Some(&global), Some(&local), &vec![]);
    assert_eq!(
        out,
        vec![
            (s("WIKI_RERANK_MODEL"), s("l")),
            (s("WIKI_CODE_DIRS"), s("src,lib")),
            (s("SPLIT_MAX_LOC"), s("256")),
        ]
    );
    assert_eq!(settings_to_apply(None, None, &vec![]), vec![]);
}

#[test]
fn page_window_walks_the_list() {
    assert_eq!(page_window(60, None, None), (0, 25, Some(25)));
    assert_eq!(page_window(60, Some(25), None), (25, 50, Some(50)));
    assert_eq!(page_window(60, Some(50), None), (50, 60, None));
    assert_eq!(page_window(60, Some(99), Some(10)), (60, 60, None));
    assert_eq!(page_window(3, None, Some(0)), (0, 1, Some(1)));
    assert_eq!(page_window(0, None, None), (0, 0, None));
    assert_eq!(page_window(10, Some(2), Some(usize::MAX)), (2, 10, None));
}

#[test]
fn base_tags_name_types() {
    assert_eq!(doc_type_from_base_tag("thought"), "thoughts");
    assert_eq!(doc_type_from_base_tag("entity"), "entities");
    assert_eq!(doc_type_from_base_tag("question"), "questions");
    assert_eq!(doc_type_from_base_tag("conclusion"), "conclusions");
    assert_eq!(doc_type_from_base_tag("reason"), "reasons");
    assert_eq!(doc_type_from_base_tag("general"), "general");
    assert_eq!(hit_doc_type(&vec![s("entity"), s("general")]), "entities");
    assert_eq!(hit_doc_type(&vec![]), "thoughts");
    assert!(qa_keeps("questions") && qa_keeps("conclusions") && !qa_keeps("thoughts"));
}

#[test]
fn search_modes() {
    assert_eq!(search_mode(None), Ok(SearchMode::Smart));
    assert_eq!(search_mode(Some("qa")), Ok(SearchMode::Qa));
    assert_eq!(search_mode(Some("fts")), Ok(SearchMode::Fts));
    assert_eq!(search_mode(Some("tag")), Ok(SearchMode::Tag));
    assert_eq!(search_mode(Some("fuzzy")), Err(s("Unknown mode: fuzzy (use smart|fts|tag|qa)")));
}

#[test]
fn default_titles() {
    assert_eq!(default_title("question", "Why?"), "question");
    assert_eq!(default_title("reason", "x"), "reason");
    assert_eq!(default_title("thought", "First line\nsecond"), "First line");
    assert_eq!(default_title("thought", ""), "untitled");
    let long: String = std::iter::repeat('é').take(100).collect();
    assert_eq!(default_title("entity", &long).chars().count(), 80);
}

#[test]
fn resolving_a_question_is_idempotent() {
    let tags = vec![s("question"), s("partial_answer"), s("general"), s("unanswerable")];
    let once = resolved_tags(&tags);
    assert_eq!(once, vec![s("question"), s("general"), s("resolved")]);
    assert_eq!(resolved_tags(&once), once);
    assert!(is_open_question(&tags) == false);
    assert!(is_open_question(&vec![s("question"), s("general")]));
    assert!(!is_open_question(&once));
}

#[test]
fn edge_walk_layers_are_new() {
    let mut seen = vec![s("a")];
    let layer = expand_layer(&vec![vec![s("b"), s("a"), s("c")], vec![s("c"), s("d"), s("b")]], &mut seen);
    assert_eq!(layer, vec![s("b"), s("c"), s("d")]);
    assert_eq!(seen, vec![s("a"), s("b"), s("c"), s("d")]);
    let next = expand_layer(&vec![vec![s("a"), s("d")]], &mut seen);
    assert!(next.is_empty());
}

#[test]
fn durable_write_and_vector_checks() {
    assert_eq!(atomic_tmp_name("doc.md"), ".doc.md.tmp");
    assert_eq!(vec_dim(12, None, "v.bin"), Ok(3));
    assert_eq!(vec_dim(12, Some(3), "v.bin"), Ok(3));
    assert_eq!(vec_dim(13, None, "v.bin"), Err(s("corrupt vec file: v.bin")));
    assert_eq!(vec_dim(16, Some(3), "v.bin"), Err(s("unexpected vec dim 4 (expected 3) in v.bin")));
}

#[test]
fn documentation_pages() {
    assert_eq!(page_name("tools\\search.md"), Some(s("tools/search")));
    assert_eq!(page_name("readme.txt"), None);
    assert_eq!(page_name(".md"), Some(s("")));
    assert_eq!(
        page_files("//search"),
        vec![s("search.md"), s("tools/search.md"), s("concepts/search.md")]
    );
    assert_eq!(page_files("a\\b")[0], "a/b.md");
}

fn chunk(p: &str, c: &str) -> Chunk {
    Chunk { purpose: s(p), content: s(c) }
}

#[test]
fn ingest_chunking() {
    let one = ingest_chunks("text", Some("ml"), &vec![chunk("db", "x")]);
    assert_eq!((one.len(), one[0].purpose.as_str(), one[0].content.as_str()), (1, "ml", "text"));
    let none = ingest_chunks("text", None, &vec![]);
    assert_eq!((none.len(), none[0].purpose.as_str()), (1, "general"));
    assert!(needs_general(&none));
    let two = ingest_chunks("a\n\nb", None, &vec![chunk("ml", "a"), chunk("db", "b")]);
    assert_eq!(two.len(), 2);
    assert!(!needs_general(&two));
    let kids = child_plans("Notes", "thought", &two);
    assert_eq!(kids[0].title, "Notes [ml#1]");
    assert_eq!(kids[1].title, "Notes [db#2]");
    assert_eq!(kids[1].tags, vec![s("thought"), s("db")]);
    assert_eq!(kids[1].content, "b");
    assert_eq!(kids[0].part_of, "Chunk 1 of 'Notes' (purpose: ml)");
}

#[test]
fn purposes_from_files() {
    let p = purpose_from(None, Some(s("id1")), None, "topic-a", s("desc"), s("purposes/topic-a.md"));
    assert_eq!((p.tag.as_str(), p.id.as_str(), p.title.as_str(), p.description.as_str()), ("topic-a", "id1", "", "desc"));
    let q = purpose_from(Some(s("x")), None, Some(s("X")), "other", s(""), s("p.md"));
    assert_eq!((q.tag.as_str(), q.id.as_str(), q.title.as_str()), ("x", "", "X"));
}

#[test]
fn embedding_pool_decisions() {
    assert_eq!(content_hash("abc"), format!("{:x}", wiki::io::fnv64("abc")));
    assert_ne!(content_hash("abc"), content_hash("abd"));
    let h = content_hash("body");
    assert!(sidecar_fresh(true, Some(&format!(" {}\n", h)), &h));
    assert!(!sidecar_fresh(false, Some(&h), &h));
    assert!(!sidecar_fresh(true, None, &h));
    assert!(!sidecar_fresh(true, Some("stale"), &h));
    assert_eq!(batch_ranges(5, 2), vec![(0, 2), (2, 4), (4, 5)]);
    assert_eq!(batch_ranges(4, 2), vec![(0, 2), (2, 4)]);
    assert!(batch_ranges(0, 2).is_empty());
    assert!(batch_ranges(3, 0).is_empty());
}

#[test]
fn ingest_kinds_and_reasons() {
    assert_eq!(ingest_kind("thought"), Ok(IngestKind::Thought));
    assert_eq!(ingest_kind("conclusion"), Ok(IngestKind::Conclusion));
    assert_eq!(ingest_kind("memo"), Err(s("Unknown kind: memo (thought|entity|question|reason|conclusion)")));
    assert_eq!(reason_ends(Some(s("a")), Some(s("b")), None), Ok((s("a"), s("b"), s("References"))));
    assert_eq!(reason_ends(Some(s("a")), Some(s("b")), Some(s("Answers"))), Ok((s("a"), s("b"), s("Answers"))));
    assert_eq!(reason_ends(None, Some(s("b")), None), Err(s("reason requires from_id")));
    assert_eq!(reason_ends(Some(s("a")), None, None), Err(s("reason requires to_id")));
}
