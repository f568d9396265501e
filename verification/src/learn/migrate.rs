//! One-shot clean-ups of the question store: templated questions without
//! answers are deleted, and the legacy answered / dropped question states
//! are collapsed (those questions are deleted).

use vstd::prelude::*;
use crate::config::{default_patterns, default_template_question_regexes, is_template_question_with, is_template_spec};
use crate::text::{chars_of, find_chars, find_sub, str_eq};

verus! {

/// A question file: id, path (`/`-separated) and tags.
#[derive(Debug, Clone)]
pub struct QuestionFile {
    pub id: String,
    pub path: String,
    pub tags: Vec<String>,
}

/// What the lifecycle migration does with one question.
#[derive(Debug, Clone, Copy, PartialEq, Eq, Structural)]
pub enum LifecycleAction {
    Keep,
    /// Under an `answered` directory.
    DeleteAnswered,
    /// Under a `dropped` directory.
    DeleteDropped,
    /// Tagged `answered` in the open tree.
    DeleteStrayAnswered,
    /// Tagged `dropped` in the open tree.
    DeleteStrayDropped,
}

/// Outcome of the lifecycle migration.
#[derive(Debug, Clone, Default)]
pub struct LifecycleMigrationReport {
    pub answered_deleted: usize,
    pub dropped_deleted: usize,
    pub stray_answered_tag_deleted: usize,
    pub stray_dropped_tag_deleted: usize,
}

/// Whether the `/`-separated component of `path` starting at `i` is `name`.
pub open spec fn component_at(path: Seq<char>, name: Seq<char>, i: int) -> bool {
    0 <= i && i + name.len() <= path.len() && path.subrange(i, i + name.len()) == name && (i == 0
        || path[i - 1] == '/') && (i + name.len() == path.len() || path[i + name.len()] == '/')
}

/// Whether some `/`-separated component of `path` is `name`.
pub open spec fn has_component(path: Seq<char>, name: Seq<char>) -> bool {
    exists|i: int| #[trigger] component_at(path, name, i)
}

pub open spec fn has_tag(tags: Seq<Seq<char>>, t: Seq<char>) -> bool {
    exists|i: int| 0 <= i < tags.len() && tags[i] == t
}

/// A question under `answered/` or `dropped/`, or tagged so, is deleted;
/// the directory decides the category first.
pub open spec fn lifecycle_action_spec(path: Seq<char>, tags: Seq<Seq<char>>) -> LifecycleAction {
    if has_component(path, "answered"@) {
        LifecycleAction::DeleteAnswered
    } else if has_component(path, "dropped"@) {
        LifecycleAction::DeleteDropped
    } else if has_tag(tags, "answered"@) {
        LifecycleAction::DeleteStrayAnswered
    } else if has_tag(tags, "dropped"@) {
        LifecycleAction::DeleteStrayDropped
    } else {
        LifecycleAction::Keep
    }
}

fn component_matches(path: &[char], name: &[char], i: usize) -> (r: bool)
    ensures
        r == component_at(path@, name@, i as int),
{
    let n = path.len();
    if name.len() > n || i > n - name.len() {
        return false;
    }
    let mut k: usize = 0;
    while k < name.len()
        invariant
            n == path@.len(),
            i + name@.len() <= n,
            k <= name@.len(),
            forall|m: int| 0 <= m < k ==> path@[i + m] == name@[m],
        decreases name@.len() - k,
    {
        if path[i + k] != name[k] {
            assert(path@.subrange(i as int, i + name@.len())[k as int] != name@[k as int]);
            return false;
        }
        k = k + 1;
    }
    assert(path@.subrange(i as int, i + name@.len()) =~= name@);
    let before_ok = i == 0 || path[i - 1] == '/';
    let after_ok = i + name.len() == n || path[i + name.len()] == '/';
    before_ok && after_ok
}

pub(crate) fn path_has_component(path: &str, name: &str) -> (r: bool)
    ensures
        r == has_component(path@, name@),
{
    let p = chars_of(path);
    let nm = chars_of(name);
    let mut i: usize = 0;
    while i < p.len()
        invariant
            p@ == path@,
            nm@ == name@,
            i <= p@.len(),
            forall|j: int| 0 <= j < i ==> !#[trigger] component_at(path@, name@, j),
        decreases p@.len() - i,
    {
        if component_matches(p.as_slice(), nm.as_slice(), i) {
            return true;
        }
        i = i + 1;
    }
    let last = component_matches(p.as_slice(), nm.as_slice(), i);
    proof {
        if !last {
            assert forall|j: int| !#[trigger] component_at(path@, name@, j) by {
                if component_at(path@, name@, j) && j > i {
                    assert(j + name@.len() <= path@.len());
                }
            }
        }
    }
    last
}

fn tags_contain(tags: &Vec<String>, t: &str) -> (r: bool)
    ensures
        r == has_tag(tags@.map_values(|s: String| s@), t@),
{
    let ghost tv = tags@.map_values(|s: String| s@);
    let mut i: usize = 0;
    while i < tags.len()
        invariant
            i <= tags@.len(),
            tv == tags@.map_values(|s: String| s@),
            forall|j: int| 0 <= j < i ==> tv[j] != t@,
        decreases tags@.len() - i,
    {
        assert(tv[i as int] == tags@[i as int]@);
        if str_eq(tags[i].as_str(), t) {
            return true;
        }
        i = i + 1;
    }
    false
}

/// Decides what the lifecycle migration does with a question.
pub fn lifecycle_action(q: &QuestionFile) -> (r: LifecycleAction)
    ensures
        r == lifecycle_action_spec(q.path@, q.tags@.map_values(|s: String| s@)),
{
    if path_has_component(q.path.as_str(), "answered") {
        LifecycleAction::DeleteAnswered
    } else if path_has_component(q.path.as_str(), "dropped") {
        LifecycleAction::DeleteDropped
    } else if tags_contain(&q.tags, "answered") {
        LifecycleAction::DeleteStrayAnswered
    } else if tags_contain(&q.tags, "dropped") {
        LifecycleAction::DeleteStrayDropped
    } else {
        LifecycleAction::Keep
    }
}

impl LifecycleMigrationReport {
    /// Counts one deleted question under its category.
    pub fn record(&mut self, action: LifecycleAction)
        requires
            old(self).answered_deleted < usize::MAX,
            old(self).dropped_deleted < usize::MAX,
            old(self).stray_answered_tag_deleted < usize::MAX,
            old(self).stray_dropped_tag_deleted < usize::MAX,
        ensures
            final(self).answered_deleted == old(self).answered_deleted + if action
                == LifecycleAction::DeleteAnswered {
                1int
            } else {
                0int
            },
            final(self).dropped_deleted == old(self).dropped_deleted + if action
                == LifecycleAction::DeleteDropped {
                1int
            } else {
                0int
            },
            final(self).stray_answered_tag_deleted == old(self).stray_answered_tag_deleted + if action
                == LifecycleAction::DeleteStrayAnswered {
                1int
            } else {
                0int
            },
            final(self).stray_dropped_tag_deleted == old(self).stray_dropped_tag_deleted + if action
                == LifecycleAction::DeleteStrayDropped {
                1int
            } else {
                0int
            },
    {
        match action {
            LifecycleAction::DeleteAnswered => self.answered_deleted = self.answered_deleted + 1,
            LifecycleAction::DeleteDropped => self.dropped_deleted = self.dropped_deleted + 1,
            LifecycleAction::DeleteStrayAnswered => self.stray_answered_tag_deleted =
                self.stray_answered_tag_deleted + 1,
            LifecycleAction::DeleteStrayDropped => self.stray_dropped_tag_deleted =
                self.stray_dropped_tag_deleted + 1,
            LifecycleAction::Keep => {},
        }
    }
}

/// Number of questions whose action is `a`.
pub open spec fn count_action(qs: Seq<QuestionFile>, a: LifecycleAction) -> nat
    decreases qs.len(),
{
    if qs.len() == 0 {
        0
    } else {
        count_action(qs.drop_last(), a) + if lifecycle_action_spec(
            qs.last().path@,
            qs.last().tags@.map_values(|s: String| s@),
        ) == a {
            1nat
        } else {
            0nat
        }
    }
}

proof fn lemma_count_action_le(qs: Seq<QuestionFile>, a: LifecycleAction)
    ensures
        count_action(qs, a) <= qs.len(),
    decreases qs.len(),
{
    if qs.len() > 0 {
        lemma_count_action_le(qs.drop_last(), a);
    }
}

/// The questions of `qs` to delete, in order, each with its category: those
/// whose action is not `Keep`.
pub open spec fn lifecycle_plan(qs: Seq<QuestionFile>) -> Seq<(Seq<char>, LifecycleAction)>
    decreases qs.len(),
{
    if qs.len() == 0 {
        seq![]
    } else {
        let prev = lifecycle_plan(qs.drop_last());
        let q = qs.last();
        let a = lifecycle_action_spec(q.path@, q.tags@.map_values(|t: String| t@));
        if a == LifecycleAction::Keep {
            prev
        } else {
            prev.push((q.id@, a))
        }
    }
}

pub open spec fn plan_view(v: Seq<(String, LifecycleAction)>) -> Seq<(Seq<char>, LifecycleAction)> {
    v.map_values(|p: (String, LifecycleAction)| (p.0@, p.1))
}

/// Plans the lifecycle migration: the questions to delete with their
/// category, and the report the migration gives when every deletion
/// succeeds (what a dry run reports).
pub fn migrate_question_lifecycle(questions: &Vec<QuestionFile>) -> (r: (
    LifecycleMigrationReport,
    Vec<(String, LifecycleAction)>,
))
    ensures
        r.0.answered_deleted == count_action(questions@, LifecycleAction::DeleteAnswered),
        r.0.dropped_deleted == count_action(questions@, LifecycleAction::DeleteDropped),
        r.0.stray_answered_tag_deleted == count_action(questions@, LifecycleAction::DeleteStrayAnswered),
        r.0.stray_dropped_tag_deleted == count_action(questions@, LifecycleAction::DeleteStrayDropped),
        forall|k: int| 0 <= k < r.1@.len() ==> (#[trigger] r.1@[k]).1 != LifecycleAction::Keep,
        r.1@.len() == questions@.len() - count_action(questions@, LifecycleAction::Keep),
        plan_view(r.1@) == lifecycle_plan(questions@),
{
    let mut rep = LifecycleMigrationReport {
        answered_deleted: 0,
        dropped_deleted: 0,
        stray_answered_tag_deleted: 0,
        stray_dropped_tag_deleted: 0,
    };
    let mut plan: Vec<(String, LifecycleAction)> = Vec::new();
    let mut i: usize = 0;
    while i < questions.len()
        invariant
            i <= questions@.len(),
            rep.answered_deleted == count_action(questions@.subrange(0, i as int), LifecycleAction::DeleteAnswered),
            rep.dropped_deleted == count_action(questions@.subrange(0, i as int), LifecycleAction::DeleteDropped),
            rep.stray_answered_tag_deleted == count_action(
                questions@.subrange(0, i as int),
                LifecycleAction::DeleteStrayAnswered,
            ),
            rep.stray_dropped_tag_deleted == count_action(
                questions@.subrange(0, i as int),
                LifecycleAction::DeleteStrayDropped,
            ),
            forall|k: int| 0 <= k < plan@.len() ==> (#[trigger] plan@[k]).1 != LifecycleAction::Keep,
            plan@.len() == i - count_action(questions@.subrange(0, i as int), LifecycleAction::Keep),
            plan_view(plan@) == lifecycle_plan(questions@.subrange(0, i as int)),
        decreases questions@.len() - i,
    {
        let ghost s = questions@.subrange(0, i + 1);
        proof {
            assert(s.drop_last() =~= questions@.subrange(0, i as int));
            assert(s.last() == questions@[i as int]);
            lemma_count_action_le(questions@.subrange(0, i as int), LifecycleAction::DeleteAnswered);
            lemma_count_action_le(questions@.subrange(0, i as int), LifecycleAction::DeleteDropped);
            lemma_count_action_le(questions@.subrange(0, i as int), LifecycleAction::DeleteStrayAnswered);
            lemma_count_action_le(questions@.subrange(0, i as int), LifecycleAction::DeleteStrayDropped);
        }
        let a = lifecycle_action(&questions[i]);
        if a != LifecycleAction::Keep {
            rep.record(a);
            let ghost before = plan_view(plan@);
            plan.push((questions[i].id.clone(), a));
            assert(plan_view(plan@) =~= before.push((questions@[i as int].id@, a)));
        }
        i = i + 1;
    }
    assert(questions@.subrange(0, questions@.len() as int) =~= questions@);
    (rep, plan)
}

/// The questions that remain once the plan is carried out: those whose
/// action is `Keep`, in order.
pub open spec fn lifecycle_kept(qs: Seq<QuestionFile>) -> Seq<QuestionFile>
    decreases qs.len(),
{
    if qs.len() == 0 {
        seq![]
    } else {
        let prev = lifecycle_kept(qs.drop_last());
        let q = qs.last();
        if lifecycle_action_spec(q.path@, q.tags@.map_values(|t: String| t@)) == LifecycleAction::Keep {
            prev.push(q)
        } else {
            prev
        }
    }
}

proof fn lemma_kept_all_keep(qs: Seq<QuestionFile>)
    ensures
        forall|k: int|
            0 <= k < lifecycle_kept(qs).len() ==> lifecycle_action_spec(
                (#[trigger] lifecycle_kept(qs)[k]).path@,
                lifecycle_kept(qs)[k].tags@.map_values(|t: String| t@),
            ) == LifecycleAction::Keep,
    decreases qs.len(),
{
    if qs.len() > 0 {
        lemma_kept_all_keep(qs.drop_last());
    }
}

proof fn lemma_all_keep_nothing(qs: Seq<QuestionFile>, a: LifecycleAction)
    requires
        a != LifecycleAction::Keep,
        forall|k: int|
            0 <= k < qs.len() ==> lifecycle_action_spec(
                (#[trigger] qs[k]).path@,
                qs[k].tags@.map_values(|t: String| t@),
            ) == LifecycleAction::Keep,
    ensures
        lifecycle_plan(qs).len() == 0,
        count_action(qs, a) == 0,
    decreases qs.len(),
{
    if qs.len() > 0 {
        assert(qs.last() == qs[qs.len() - 1]);
        lemma_all_keep_nothing(qs.drop_last(), a);
    }
}

/// Running the lifecycle migration again after its plan was carried out
/// finds nothing: over the questions left (`lifecycle_kept`),
/// `migrate_question_lifecycle` returns an empty plan (its plan is
/// `lifecycle_plan`) and counts none in any category (its counts are
/// `count_action`).
pub proof fn law_lifecycle_rerun(qs: Seq<QuestionFile>)
    ensures
        lifecycle_plan(lifecycle_kept(qs)).len() == 0,
        count_action(lifecycle_kept(qs), LifecycleAction::DeleteAnswered) == 0,
        count_action(lifecycle_kept(qs), LifecycleAction::DeleteDropped) == 0,
        count_action(lifecycle_kept(qs), LifecycleAction::DeleteStrayAnswered) == 0,
        count_action(lifecycle_kept(qs), LifecycleAction::DeleteStrayDropped) == 0,
{
    lemma_kept_all_keep(qs);
    lemma_all_keep_nothing(lifecycle_kept(qs), LifecycleAction::DeleteAnswered);
    lemma_all_keep_nothing(lifecycle_kept(qs), LifecycleAction::DeleteDropped);
    lemma_all_keep_nothing(lifecycle_kept(qs), LifecycleAction::DeleteStrayAnswered);
    lemma_all_keep_nothing(lifecycle_kept(qs), LifecycleAction::DeleteStrayDropped);
}

/// A question with the titles of the reasons arriving at it (those whose
/// target is the question); reasons leaving it are not listed.
#[derive(Debug, Clone)]
pub struct QuestionRecord {
    pub id: String,
    pub title: String,
    pub inbound_titles: Vec<String>,
}

/// Outcome of the templated-question clean-up.
#[derive(Debug, Clone, Default)]
pub struct TemplateMigrationReport {
    pub scanned: usize,
    pub templated: usize,
    pub deleted: usize,
    /// Templated questions spared because an `Answers` reason arrives at
    /// them.
    pub kept_with_answers: Vec<String>,
}

/// Whether one of the titles of the arriving reasons names an `Answers`
/// edge.
pub open spec fn has_answers_edge(titles: Seq<Seq<char>>) -> bool {
    exists|i: int| 0 <= i < titles.len() && find_sub(#[trigger] titles[i], "-[Answers]->"@) >= 0
}

/// Ids of the templated questions of `qs`, split into those with an
/// inbound `Answers` edge (kept) and the others (deleted).
pub open spec fn template_split(qs: Seq<QuestionRecord>, patterns: Seq<Seq<char>>) -> (
    Seq<Seq<char>>,
    Seq<Seq<char>>,
)
    decreases qs.len(),
{
    if qs.len() == 0 {
        (seq![], seq![])
    } else {
        let prev = template_split(qs.drop_last(), patterns);
        let q = qs.last();
        if !is_template_spec(q.title@, patterns) {
            prev
        } else if has_answers_edge(q.inbound_titles@.map_values(|s: String| s@)) {
            (prev.0.push(q.id@), prev.1)
        } else {
            (prev.0, prev.1.push(q.id@))
        }
    }
}

fn answers_edge(titles: &Vec<String>) -> (r: bool)
    ensures
        r == has_answers_edge(titles@.map_values(|s: String| s@)),
{
    let ghost tv = titles@.map_values(|s: String| s@);
    let marker = chars_of("-[Answers]->");
    let mut i: usize = 0;
    while i < titles.len()
        invariant
            i <= titles@.len(),
            tv == titles@.map_values(|s: String| s@),
            marker@ == "-[Answers]->"@,
            forall|j: int| 0 <= j < i ==> find_sub(#[trigger] tv[j], "-[Answers]->"@) < 0,
        decreases titles@.len() - i,
    {
        assert(tv[i as int] == titles@[i as int]@);
        let cs = chars_of(titles[i].as_str());
        if find_chars(cs.as_slice(), marker.as_slice()).is_some() {
            return true;
        }
        i = i + 1;
    }
    false
}

/// Plans the templated-question clean-up against `patterns`: the report
/// (with `deleted` counting every planned deletion, as a dry run reports
/// it) and the ids to delete.
pub fn migrate_templated_questions_with(questions: &Vec<QuestionRecord>, patterns: &Vec<&str>) -> (r: (
    TemplateMigrationReport,
    Vec<String>,
))
    ensures
        ({
            let s = template_split(questions@, patterns@.map_values(|p: &str| p@));
            &&& r.0.scanned == questions@.len()
            &&& r.0.kept_with_answers@.map_values(|t: String| t@) == s.0
            &&& r.1@.map_values(|t: String| t@) == s.1
            &&& r.0.templated == s.0.len() + s.1.len()
            &&& r.0.deleted == s.1.len()
        }),
{
    let ghost pv = patterns@.map_values(|p: &str| p@);
    let mut kept: Vec<String> = Vec::new();
    let mut delete: Vec<String> = Vec::new();
    let mut i: usize = 0;
    while i < questions.len()
        invariant
            i <= questions@.len(),
            pv == patterns@.map_values(|p: &str| p@),
            kept@.map_values(|t: String| t@) == template_split(questions@.subrange(0, i as int), pv).0,
            delete@.map_values(|t: String| t@) == template_split(questions@.subrange(0, i as int), pv).1,
            kept@.len() + delete@.len() <= i,
        decreases questions@.len() - i,
    {
        let ghost s = questions@.subrange(0, i + 1);
        proof {
            assert(s.drop_last() =~= questions@.subrange(0, i as int));
            assert(s.last() == questions@[i as int]);
        }
        let q = &questions[i];
        if is_template_question_with(q.title.as_str(), patterns) {
            if answers_edge(&q.inbound_titles) {
                let ghost before = kept@.map_values(|t: String| t@);
                kept.push(q.id.clone());
                assert(kept@.map_values(|t: String| t@) =~= before.push(q.id@));
            } else {
                let ghost before = delete@.map_values(|t: String| t@);
                delete.push(q.id.clone());
                assert(delete@.map_values(|t: String| t@) =~= before.push(q.id@));
            }
        }
        i = i + 1;
    }
    assert(questions@.subrange(0, questions@.len() as int) =~= questions@);
    let templated = kept.len() + delete.len();
    let deleted = delete.len();
    let rep = TemplateMigrationReport {
        scanned: questions.len(),
        templated,
        deleted,
        kept_with_answers: kept,
    };
    (rep, delete)
}

/// Plans the templated-question clean-up against the default patterns.
pub fn migrate_templated_questions(questions: &Vec<QuestionRecord>) -> (r: (
    TemplateMigrationReport,
    Vec<String>,
))
    ensures
        ({
            let s = template_split(questions@, default_patterns());
            &&& r.0.scanned == questions@.len()
            &&& r.0.kept_with_answers@.map_values(|t: String| t@) == s.0
            &&& r.1@.map_values(|t: String| t@) == s.1
            &&& r.0.templated == s.0.len() + s.1.len()
            &&& r.0.deleted == s.1.len()
        }),
{
    let pats = default_template_question_regexes();
    assert(pats@.map_values(|p: &str| p@) =~= default_patterns());
    migrate_templated_questions_with(questions, &pats)
}

} // verus!
