//! Which settings the configuration files give the process: the keys of a
//! `config.toml` mapped to their environment names, the local file over
//! the global one, and a variable already set left as it is.

use vstd::prelude::*;
use crate::text::{join_with, push_joined_strings, str_eq, string_of};

verus! {

/// A value of a `config.toml` table as the settings read it: a string, an
/// array (its string items, `None` for the others), or any other value by
/// its TOML text.
#[derive(Debug, Clone)]
pub enum TomlValue {
    Text(String),
    List(Vec<Option<String>>),
    Other(String),
}

/// Keys of `config.toml` and the environment variables they set.
pub open spec fn mappings() -> Seq<(Seq<char>, Seq<char>)> {
    seq![
        ("openai_api_key"@, "OPENAI_API_KEY"@),
        ("wiki_rerank_model"@, "WIKI_RERANK_MODEL"@),
        ("wiki_similarity_threshold"@, "WIKI_SIMILARITY_THRESHOLD"@),
        ("wiki_dedupe_threshold"@, "WIKI_DEDUPE_THRESHOLD"@),
        ("wiki_template_question_regexes"@, "WIKI_TEMPLATE_QUESTION_REGEXES"@),
        ("wiki_open_questions_per_purpose_cap"@, "WIKI_OPEN_QUESTIONS_PER_PURPOSE_CAP"@),
        ("code_dirs"@, "WIKI_CODE_DIRS"@),
        ("split_ext"@, "SPLIT_EXT"@),
        ("split_exts"@, "SPLIT_EXTS"@),
        ("split_index_dir"@, "SPLIT_INDEX_DIR"@),
        ("split_max_loc"@, "SPLIT_MAX_LOC"@),
        ("relations_limit_thoughts"@, "WIKI_RELATIONS_LIMIT_THOUGHTS"@),
        ("relations_limit_questions"@, "WIKI_RELATIONS_LIMIT_QUESTIONS"@),
        ("relations_limit_conclusions"@, "WIKI_RELATIONS_LIMIT_CONCLUSIONS"@),
        ("relations_limit_entities"@, "WIKI_RELATIONS_LIMIT_ENTITIES"@),
        ("relations_limit_code"@, "WIKI_RELATIONS_LIMIT_CODE"@),
    ]
}

/// The keys of `config.toml` and the environment variables they set (see
/// `mappings`).
pub fn config_mappings() -> (r: Vec<(&'static str, &'static str)>)
    ensures
        r@.map_values(|p: (&'static str, &'static str)| (p.0@, p.1@)) == mappings(),
{
    let v = vec![
        ("openai_api_key", "OPENAI_API_KEY"),
        ("wiki_rerank_model", "WIKI_RERANK_MODEL"),
        ("wiki_similarity_threshold", "WIKI_SIMILARITY_THRESHOLD"),
        ("wiki_dedupe_threshold", "WIKI_DEDUPE_THRESHOLD"),
        ("wiki_template_question_regexes", "WIKI_TEMPLATE_QUESTION_REGEXES"),
        ("wiki_open_questions_per_purpose_cap", "WIKI_OPEN_QUESTIONS_PER_PURPOSE_CAP"),
        ("code_dirs", "WIKI_CODE_DIRS"),
        ("split_ext", "SPLIT_EXT"),
        ("split_exts", "SPLIT_EXTS"),
        ("split_index_dir", "SPLIT_INDEX_DIR"),
        ("split_max_loc", "SPLIT_MAX_LOC"),
        ("relations_limit_thoughts", "WIKI_RELATIONS_LIMIT_THOUGHTS"),
        ("relations_limit_questions", "WIKI_RELATIONS_LIMIT_QUESTIONS"),
        ("relations_limit_conclusions", "WIKI_RELATIONS_LIMIT_CONCLUSIONS"),
        ("relations_limit_entities", "WIKI_RELATIONS_LIMIT_ENTITIES"),
        ("relations_limit_code", "WIKI_RELATIONS_LIMIT_CODE"),
    ];
    assert(v@.map_values(|p: (&'static str, &'static str)| (p.0@, p.1@)) =~= mappings());
    v
}

/// The string items of an array, in order.
pub open spec fn string_items(items: Seq<Option<String>>) -> Seq<Seq<char>>
    decreases items.len(),
{
    if items.len() == 0 {
        seq![]
    } else {
        let prev = string_items(items.drop_last());
        match items.last() {
            Some(s) => prev.push(s@),
            None => prev,
        }
    }
}

/// The text a value sets: a string as it is, an array's string items
/// joined by `,`, any other value by its TOML text.
pub open spec fn value_text(v: TomlValue) -> Seq<char> {
    match v {
        TomlValue::Text(s) => s@,
        TomlValue::List(items) => join_with(string_items(items@), seq![',']),
        TomlValue::Other(s) => s@,
    }
}

/// The value of `key` in a table: its first entry under that key.
pub open spec fn table_lookup(table: Seq<(String, TomlValue)>, key: Seq<char>) -> Option<TomlValue>
    decreases table.len(),
{
    if table.len() == 0 {
        None
    } else if table[0].0@ == key {
        Some(table[0].1)
    } else {
        table_lookup(table.drop_first(), key)
    }
}

/// What a table gives the variable of mapping `i`.
pub open spec fn table_setting(table: Option<Seq<(String, TomlValue)>>, i: int) -> Option<Seq<char>> {
    match table {
        Some(t) => match table_lookup(t, mappings()[i].0) {
            Some(v) => Some(value_text(v)),
            None => None,
        },
        None => None,
    }
}

/// What the two files give the variable of mapping `i`: the local file's
/// value over the global one's.
pub open spec fn merged_setting(
    global: Option<Seq<(String, TomlValue)>>,
    local: Option<Seq<(String, TomlValue)>>,
    i: int,
) -> Option<Seq<char>> {
    match table_setting(local, i) {
        Some(v) => Some(v),
        None => table_setting(global, i),
    }
}

/// The variables to set from mappings `..n`, in their order: each that the
/// files give a value and that was not set before.
pub open spec fn settings_upto(
    global: Option<Seq<(String, TomlValue)>>,
    local: Option<Seq<(String, TomlValue)>>,
    preset: Seq<Seq<char>>,
    n: int,
) -> Seq<(Seq<char>, Seq<char>)>
    decreases n,
{
    if n <= 0 {
        seq![]
    } else {
        let prev = settings_upto(global, local, preset, n - 1);
        let env = mappings()[n - 1].1;
        match merged_setting(global, local, n - 1) {
            Some(v) => if preset.contains(env) {
                prev
            } else {
                prev.push((env, v))
            },
            None => prev,
        }
    }
}

pub open spec fn settings_spec(
    global: Option<Seq<(String, TomlValue)>>,
    local: Option<Seq<(String, TomlValue)>>,
    preset: Seq<Seq<char>>,
) -> Seq<(Seq<char>, Seq<char>)> {
    settings_upto(global, local, preset, mappings().len() as int)
}

fn join_list(items: &Vec<Option<String>>) -> (r: String)
    ensures
        r@ == join_with(string_items(items@), seq![',']),
{
    let mut kept: Vec<String> = Vec::new();
    let mut i: usize = 0;
    while i < items.len()
        invariant
            i <= items@.len(),
            kept@.map_values(|s: String| s@) == string_items(items@.subrange(0, i as int)),
        decreases items@.len() - i,
    {
        assert(items@.subrange(0, i + 1).drop_last() =~= items@.subrange(0, i as int));
        match &items[i] {
            Some(s) => {
                let ghost before = kept@.map_values(|s: String| s@);
                kept.push(s.clone());
                assert(kept@.map_values(|s: String| s@) =~= before.push(s@));
            },
            None => {},
        }
        i = i + 1;
    }
    assert(items@.subrange(0, items@.len() as int) =~= items@);
    let mut out: Vec<char> = Vec::new();
    push_joined_strings(&mut out, &kept, 0, kept.len(), ",");
    proof {
        reveal_strlit(",");
        assert(","@ =~= seq![',']);
        assert(kept@.map_values(|s: String| s@).subrange(0, kept@.len() as int) =~= kept@.map_values(
            |s: String| s@,
        ));
    }
    string_of(out.as_slice())
}

fn text_of(v: &TomlValue) -> (r: String)
    ensures
        r@ == value_text(*v),
{
    match v {
        TomlValue::Text(s) => s.clone(),
        TomlValue::List(items) => join_list(items),
        TomlValue::Other(s) => s.clone(),
    }
}

fn lookup(table: &Vec<(String, TomlValue)>, key: &str) -> (r: Option<String>)
    ensures
        r matches Some(s) ==> table_lookup(table@, key@) matches Some(v) && s@ == value_text(v),
        r is None ==> table_lookup(table@, key@) is None,
{
    let mut i: usize = 0;
    assert(table@.subrange(0, table@.len() as int) =~= table@);
    while i < table.len()
        invariant
            i <= table@.len(),
            table_lookup(table@, key@) == table_lookup(table@.subrange(i as int, table@.len() as int), key@),
        decreases table@.len() - i,
    {
        let ghost rest = table@.subrange(i as int, table@.len() as int);
        assert(rest[0] == table@[i as int]);
        assert(rest.drop_first() =~= table@.subrange(i + 1, table@.len() as int));
        if str_eq(table[i].0.as_str(), key) {
            return Some(text_of(&table[i].1));
        }
        i = i + 1;
    }
    None
}

fn setting_of(table: Option<&Vec<(String, TomlValue)>>, key: &str, i: Ghost<int>) -> (r: Option<String>)
    requires
        0 <= i@ < mappings().len(),
        key@ == mappings()[i@].0,
    ensures
        r matches Some(s) ==> table_setting(
            match table {
                Some(t) => Some(t@),
                None => None,
            },
            i@,
        ) == Some(s@),
        r is None ==> table_setting(
            match table {
                Some(t) => Some(t@),
                None => None,
            },
            i@,
        ) is None,
{
    match table {
        Some(t) => lookup(t, key),
        None => None,
    }
}

fn contains_str(v: &Vec<String>, x: &str) -> (r: bool)
    ensures
        r == v@.map_values(|s: String| s@).contains(x@),
{
    let ghost w = v@.map_values(|s: String| s@);
    let mut i: usize = 0;
    while i < v.len()
        invariant
            i <= v@.len(),
            w == v@.map_values(|s: String| s@),
            forall|k: int| 0 <= k < i ==> (#[trigger] w[k]) != x@,
        decreases v@.len() - i,
    {
        if str_eq(v[i].as_str(), x) {
            assert(w[i as int] == x@);
            return true;
        }
        i = i + 1;
    }
    false
}

pub open spec fn pairs_view(v: Seq<(String, String)>) -> Seq<(Seq<char>, Seq<char>)> {
    v.map_values(|p: (String, String)| (p.0@, p.1@))
}

/// The variables the configuration files set (see `settings_spec`): the
/// tables of the global and of the local `config.toml`, where they were
/// read, and the variables already set in the environment.
pub fn settings_to_apply(
    global: Option<&Vec<(String, TomlValue)>>,
    local: Option<&Vec<(String, TomlValue)>>,
    preset: &Vec<String>,
) -> (r: Vec<(String, String)>)
    ensures
        pairs_view(r@) == settings_spec(
            match global {
                Some(t) => Some(t@),
                None => None,
            },
            match local {
                Some(t) => Some(t@),
                None => None,
            },
            preset@.map_values(|s: String| s@),
        ),
{
    let ghost g = match global {
        Some(t) => Some(t@),
        None => None,
    };
    let ghost l = match local {
        Some(t) => Some(t@),
        None => None,
    };
    let ghost pv = preset@.map_values(|s: String| s@);
    let ms = config_mappings();
    let ghost mv = ms@.map_values(|p: (&'static str, &'static str)| (p.0@, p.1@));
    let mut out: Vec<(String, String)> = Vec::new();
    let mut i: usize = 0;
    while i < ms.len()
        invariant
            i <= ms@.len(),
            mv == ms@.map_values(|p: (&'static str, &'static str)| (p.0@, p.1@)),
            mv == mappings(),
            pv == preset@.map_values(|s: String| s@),
            g == match global {
                Some(t) => Some(t@),
                None => None::<Seq<(String, TomlValue)>>,
            },
            l == match local {
                Some(t) => Some(t@),
                None => None::<Seq<(String, TomlValue)>>,
            },
            pairs_view(out@) == settings_upto(g, l, pv, i as int),
        decreases ms@.len() - i,
    {
        assert(mv[i as int] == (ms@[i as int].0@, ms@[i as int].1@));
        let (key, env) = ms[i];
        let v = match setting_of(local, key, Ghost(i as int)) {
            Some(x) => Some(x),
            None => setting_of(global, key, Ghost(i as int)),
        };
        match v {
            Some(x) => {
                if !contains_str(preset, env) {
                    let ghost before = pairs_view(out@);
                    out.push((env.to_owned(), x));
                    assert(pairs_view(out@) =~= before.push((env@, x@)));
                }
            },
            None => {},
        }
        i = i + 1;
    }
    out
}

/// A variable set before the files are read keeps its value: none of the
/// variables the files set was set already.
pub proof fn law_environment_wins(
    global: Option<Seq<(String, TomlValue)>>,
    local: Option<Seq<(String, TomlValue)>>,
    preset: Seq<Seq<char>>,
    k: int,
)
    requires
        0 <= k < settings_spec(global, local, preset).len(),
    ensures
        !preset.contains(settings_spec(global, local, preset)[k].0),
{
    lemma_settings_upto(global, local, preset, mappings().len() as int);
}

proof fn lemma_settings_upto(
    global: Option<Seq<(String, TomlValue)>>,
    local: Option<Seq<(String, TomlValue)>>,
    preset: Seq<Seq<char>>,
    n: int,
)
    requires
        n <= mappings().len(),
    ensures
        forall|k: int|
            0 <= k < settings_upto(global, local, preset, n).len() ==> !preset.contains(
                #[trigger] settings_upto(global, local, preset, n)[k].0,
            ),
        forall|k: int|
            0 <= k < settings_upto(global, local, preset, n).len() ==> exists|j: int|
                0 <= j < n && (#[trigger] settings_upto(global, local, preset, n)[k]).0 == mappings()[j].1
                    && merged_setting(global, local, j) == Some(settings_upto(global, local, preset, n)[k].1),
    decreases n,
{
    if n > 0 {
        lemma_settings_upto(global, local, preset, n - 1);
        let prev = settings_upto(global, local, preset, n - 1);
        let cur = settings_upto(global, local, preset, n);
        assert forall|k: int| 0 <= k < cur.len() implies exists|j: int|
            0 <= j < n && (#[trigger] cur[k]).0 == mappings()[j].1 && merged_setting(global, local, j) == Some(
                cur[k].1,
            ) by {
            if k < prev.len() {
                assert(cur[k] == prev[k]);
                let j = choose|j: int|
                    0 <= j < n - 1 && (#[trigger] prev[k]).0 == mappings()[j].1 && merged_setting(
                        global,
                        local,
                        j,
                    ) == Some(prev[k].1);
                assert(0 <= j < n && cur[k].0 == mappings()[j].1);
            } else {
                assert(cur[k].0 == mappings()[n - 1].1);
            }
        }
        assert forall|k: int| 0 <= k < cur.len() implies !preset.contains(#[trigger] cur[k].0) by {
            if k < prev.len() {
                assert(cur[k] == prev[k]);
            }
        }
    }
}

/// The local file's value wins over the global one's: a variable not set
/// before, that the local file gives a value, is set to that value.
pub proof fn law_local_over_global(
    global: Option<Seq<(String, TomlValue)>>,
    local: Option<Seq<(String, TomlValue)>>,
    preset: Seq<Seq<char>>,
    i: int,
    v: Seq<char>,
)
    requires
        0 <= i < mappings().len(),
        table_setting(local, i) == Some(v),
        !preset.contains(mappings()[i].1),
    ensures
        settings_spec(global, local, preset).contains((mappings()[i].1, v)),
{
    lemma_setting_kept(global, local, preset, i, mappings().len() as int);
}

proof fn lemma_setting_kept(
    global: Option<Seq<(String, TomlValue)>>,
    local: Option<Seq<(String, TomlValue)>>,
    preset: Seq<Seq<char>>,
    i: int,
    n: int,
)
    requires
        0 <= i < n <= mappings().len(),
        merged_setting(global, local, i) is Some,
        !preset.contains(mappings()[i].1),
    ensures
        settings_upto(global, local, preset, n).contains((mappings()[i].1, merged_setting(global, local, i)->0)),
    decreases n,
{
    let prev = settings_upto(global, local, preset, n - 1);
    let cur = settings_upto(global, local, preset, n);
    if i == n - 1 {
        assert(cur == prev.push((mappings()[i].1, merged_setting(global, local, i)->0)));
        assert(cur[prev.len() as int] == (mappings()[i].1, merged_setting(global, local, i)->0));
    } else {
        lemma_setting_kept(global, local, preset, i, n - 1);
        let x = (mappings()[i].1, merged_setting(global, local, i)->0);
        let k = choose|k: int| 0 <= k < prev.len() && prev[k] == x;
        assert(cur.len() >= prev.len() && cur[k] == prev[k]);
    }
}

} // verus!
