//! The decisions of a learn pass, one step at a time: given where the pass
//! stands and what the last piece of outside work reported, the next state
//! and the next piece of work (link a document, connect it, run its Q&A,
//! run a cross-topic pass on a question, or move on).

use vstd::prelude::*;
use crate::learn::qa::spend;

verus! {

/// How a pass was asked to run.
#[derive(Debug, Clone, Copy, PartialEq, Eq, Structural)]
pub struct PassFlags {
    pub dry_run: bool,
    pub qa: bool,
    pub force: bool,
}

/// The counters of a pass and the model calls it may still make.
#[derive(Debug, Clone, Copy, PartialEq, Eq, Structural)]
pub struct PassTally {
    pub docs_modified: u64,
    pub links_added: u64,
    pub paragraphs_merged: u64,
    pub edges_added: u64,
    pub questions_raised: u64,
    pub questions_answered: u64,
    pub conclusions_promoted: u64,
    pub skipped_recent: u64,
    pub crosstopic_invoked: u64,
    pub llm_budget: usize,
}

/// What the pass waits for.
#[derive(Debug, Clone, Copy, PartialEq, Eq, Structural)]
pub enum PassStage {
    /// The next sampled document, or (once they are done) the next open
    /// question for a cross-topic pass.
    Idle,
    Linking,
    Connecting,
    Answering,
    CrossTopic,
}

#[derive(Debug, Clone, Copy, PartialEq, Eq, Structural)]
pub struct PassState {
    pub flags: PassFlags,
    pub stage: PassStage,
    pub tally: PassTally,
}

/// What the outside work reported.
#[derive(Debug, Clone, Copy)]
pub enum PassEvent {
    /// The next sampled document; whether its last Q&A is recent.
    Doc { recent_qa: bool },
    /// Linking the document ended: `Some((modified, links added,
    /// paragraphs merged))`, or `None` when it failed.
    Linked(Option<(bool, u64, u64)>),
    /// The connect step ended: `Some((edges added, model calls used))`, or
    /// `None` when it failed or the document could not be read.
    Connected(Option<(u64, usize)>),
    /// The document's Q&A ended with `budget_left` model calls left:
    /// `Some((raised, answered, promoted))`, or `None` when it failed.
    Answered { result: Option<(u64, u64, u64)>, budget_left: usize },
    /// The next open question; whether a cross-topic pass is due for it.
    Question { due: bool },
    /// The cross-topic pass on the question ended; whether it promoted.
    CrossTopicDone { promoted: bool },
}

/// The next piece of outside work.
#[derive(Debug, Clone, Copy, PartialEq, Eq, Structural)]
pub enum PassAction {
    /// Link the current document.
    Link,
    /// Add code references to the current document, then connect it.
    EnrichAndConnect,
    /// Add code references to the current document, then go on.
    Enrich,
    /// Run the Q&A of the current document.
    RunQa,
    /// Stamp the current document's Q&A time, then go on.
    StampQa,
    /// Run a cross-topic pass on the current question.
    RunCrossTopic,
    /// Go on with the next document or question.
    Next,
    /// The budget is spent: stop offering questions.
    Stop,
}

pub open spec fn with_stage(s: PassState, stage: PassStage, tally: PassTally) -> PassState {
    PassState { flags: s.flags, stage, tally }
}

/// Where a finished document leaves the pass: the Q&A runs when asked for
/// and model calls are left.
pub open spec fn after_connect(s: PassState, t: PassTally) -> (PassState, PassAction) {
    if !s.flags.qa || t.llm_budget == 0 {
        (with_stage(s, PassStage::Idle, t), PassAction::Next)
    } else {
        (with_stage(s, PassStage::Answering, t), PassAction::RunQa)
    }
}

/// One step of a pass. A document whose Q&A is recent is skipped (unless
/// forced, and only when Q&A is asked for); every other document is
/// linked; in a dry run nothing more happens to it; otherwise it gets its
/// code references and, while model calls are left, is connected and then
/// (when Q&A is asked for and calls are still left) answered. An open
/// question gets a cross-topic pass when it is due and two calls are left;
/// with fewer, or in a dry run or without Q&A, the questions stop. An event the stage does not wait for
/// changes nothing.
pub open spec fn pass_step_spec(s: PassState, e: PassEvent) -> (PassState, PassAction) {
    let t = s.tally;
    match (s.stage, e) {
        (PassStage::Idle, PassEvent::Doc { recent_qa }) => if !s.flags.force && s.flags.qa && recent_qa {
            (with_stage(s, PassStage::Idle, PassTally { skipped_recent: (t.skipped_recent + 1) as u64, ..t }), PassAction::Next)
        } else {
            (with_stage(s, PassStage::Linking, t), PassAction::Link)
        },
        (PassStage::Linking, PassEvent::Linked(r)) => {
            let t2 = match r {
                Some((modified, links, merges)) => PassTally {
                    docs_modified: (t.docs_modified + if modified { 1int } else { 0int }) as u64,
                    links_added: (t.links_added + links) as u64,
                    paragraphs_merged: (t.paragraphs_merged + merges) as u64,
                    ..t
                },
                None => t,
            };
            if s.flags.dry_run {
                (with_stage(s, PassStage::Idle, t2), PassAction::Next)
            } else if t2.llm_budget > 0 {
                (with_stage(s, PassStage::Connecting, t2), PassAction::EnrichAndConnect)
            } else {
                (with_stage(s, PassStage::Idle, t2), PassAction::Enrich)
            }
        },
        (PassStage::Connecting, PassEvent::Connected(r)) => {
            let t2 = match r {
                Some((added, used)) => PassTally {
                    edges_added: (t.edges_added + added) as u64,
                    llm_budget: if t.llm_budget >= used {
                        (t.llm_budget - used) as usize
                    } else {
                        0
                    },
                    ..t
                },
                None => t,
            };
            after_connect(s, t2)
        },
        (PassStage::Answering, PassEvent::Answered { result, budget_left }) => {
            let t1 = PassTally { llm_budget: budget_left, ..t };
            match result {
                Some((raised, answered, promoted)) => (
                    with_stage(
                        s,
                        PassStage::Idle,
                        PassTally {
                            questions_raised: (t.questions_raised + raised) as u64,
                            questions_answered: (t.questions_answered + answered) as u64,
                            conclusions_promoted: (t.conclusions_promoted + promoted) as u64,
                            ..t1
                        },
                    ),
                    PassAction::StampQa,
                ),
                None => (with_stage(s, PassStage::Idle, t1), PassAction::Next),
            }
        },
        (PassStage::Idle, PassEvent::Question { due }) => if s.flags.dry_run || !s.flags.qa || t.llm_budget < 2 {
            (s, PassAction::Stop)
        } else if !due {
            (s, PassAction::Next)
        } else {
            (
                with_stage(s, PassStage::CrossTopic, PassTally { llm_budget: (t.llm_budget - 2) as usize, ..t }),
                PassAction::RunCrossTopic,
            )
        },
        (PassStage::CrossTopic, PassEvent::CrossTopicDone { promoted }) => if promoted {
            (
                with_stage(
                    s,
                    PassStage::Idle,
                    PassTally {
                        crosstopic_invoked: (t.crosstopic_invoked + 1) as u64,
                        questions_answered: (t.questions_answered + 1) as u64,
                        conclusions_promoted: (t.conclusions_promoted + 1) as u64,
                        ..t
                    },
                ),
                PassAction::Next,
            )
        } else {
            (with_stage(s, PassStage::Idle, t), PassAction::Next)
        },
        _ => (s, PassAction::Next),
    }
}

/// The counters stay within `u64` through the step (the pass counts with
/// plain additions), and a Q&A never reports more calls left than it had.
pub open spec fn step_fits(s: PassState, e: PassEvent) -> bool {
    let t = s.tally;
    let m = u64::MAX as int;
    &&& t.skipped_recent + 1 <= m
    &&& t.docs_modified + 1 <= m
    &&& t.crosstopic_invoked + 1 <= m
    &&& t.questions_answered + 1 <= m
    &&& t.conclusions_promoted + 1 <= m
    &&& match e {
        PassEvent::Linked(Some((_, links, merges))) => t.links_added + links <= m && t.paragraphs_merged + merges
            <= m,
        PassEvent::Connected(Some((added, _))) => t.edges_added + added <= m,
        PassEvent::Answered { result, budget_left } => budget_left <= t.llm_budget && match result {
            Some((raised, answered, promoted)) => t.questions_raised + raised <= m && t.questions_answered
                + answered <= m && t.conclusions_promoted + promoted <= m,
            None => true,
        },
        _ => true,
    }
}

/// One step of a pass (see `pass_step_spec`). The flags never change and
/// the budget of model calls never grows.
pub fn pass_step(s: PassState, e: PassEvent) -> (r: (PassState, PassAction))
    requires
        step_fits(s, e),
    ensures
        r == pass_step_spec(s, e),
        r.0.flags == s.flags,
        r.0.tally.llm_budget <= s.tally.llm_budget,
{
    let t = s.tally;
    match (s.stage, e) {
        (PassStage::Idle, PassEvent::Doc { recent_qa }) => {
            if !s.flags.force && s.flags.qa && recent_qa {
                let t2 = PassTally { skipped_recent: t.skipped_recent + 1, ..t };
                (PassState { flags: s.flags, stage: PassStage::Idle, tally: t2 }, PassAction::Next)
            } else {
                (PassState { flags: s.flags, stage: PassStage::Linking, tally: t }, PassAction::Link)
            }
        },
        (PassStage::Linking, PassEvent::Linked(r)) => {
            let t2 = match r {
                Some((modified, links, merges)) => PassTally {
                    docs_modified: t.docs_modified + if modified {
                        1
                    } else {
                        0
                    },
                    links_added: t.links_added + links,
                    paragraphs_merged: t.paragraphs_merged + merges,
                    ..t
                },
                None => t,
            };
            if s.flags.dry_run {
                (PassState { flags: s.flags, stage: PassStage::Idle, tally: t2 }, PassAction::Next)
            } else if t2.llm_budget > 0 {
                (PassState { flags: s.flags, stage: PassStage::Connecting, tally: t2 }, PassAction::EnrichAndConnect)
            } else {
                (PassState { flags: s.flags, stage: PassStage::Idle, tally: t2 }, PassAction::Enrich)
            }
        },
        (PassStage::Connecting, PassEvent::Connected(r)) => {
            let t2 = match r {
                Some((added, used)) => PassTally {
                    edges_added: t.edges_added + added,
                    llm_budget: spend(t.llm_budget, used),
                    ..t
                },
                None => t,
            };
            if !s.flags.qa || t2.llm_budget == 0 {
                (PassState { flags: s.flags, stage: PassStage::Idle, tally: t2 }, PassAction::Next)
            } else {
                (PassState { flags: s.flags, stage: PassStage::Answering, tally: t2 }, PassAction::RunQa)
            }
        },
        (PassStage::Answering, PassEvent::Answered { result, budget_left }) => {
            let t1 = PassTally { llm_budget: budget_left, ..t };
            match result {
                Some((raised, answered, promoted)) => {
                    let t2 = PassTally {
                        questions_raised: t.questions_raised + raised,
                        questions_answered: t.questions_answered + answered,
                        conclusions_promoted: t.conclusions_promoted + promoted,
                        ..t1
                    };
                    (PassState { flags: s.flags, stage: PassStage::Idle, tally: t2 }, PassAction::StampQa)
                },
                None => (PassState { flags: s.flags, stage: PassStage::Idle, tally: t1 }, PassAction::Next),
            }
        },
        (PassStage::Idle, PassEvent::Question { due }) => {
            if s.flags.dry_run || !s.flags.qa || t.llm_budget < 2 {
                (s, PassAction::Stop)
            } else if !due {
                (s, PassAction::Next)
            } else {
                let t2 = PassTally { llm_budget: t.llm_budget - 2, ..t };
                (PassState { flags: s.flags, stage: PassStage::CrossTopic, tally: t2 }, PassAction::RunCrossTopic)
            }
        },
        (PassStage::CrossTopic, PassEvent::CrossTopicDone { promoted }) => {
            if promoted {
                let t2 = PassTally {
                    crosstopic_invoked: t.crosstopic_invoked + 1,
                    questions_answered: t.questions_answered + 1,
                    conclusions_promoted: t.conclusions_promoted + 1,
                    ..t
                };
                (PassState { flags: s.flags, stage: PassStage::Idle, tally: t2 }, PassAction::Next)
            } else {
                (PassState { flags: s.flags, stage: PassStage::Idle, tally: t }, PassAction::Next)
            }
        },
        _ => (s, PassAction::Next),
    }
}

/// The state a pass starts in: nothing counted, `budget` model calls.
pub fn pass_start(flags: PassFlags, budget: usize) -> (r: PassState)
    ensures
        r.flags == flags,
        r.stage == PassStage::Idle,
        r.tally == (PassTally {
            docs_modified: 0,
            links_added: 0,
            paragraphs_merged: 0,
            edges_added: 0,
            questions_raised: 0,
            questions_answered: 0,
            conclusions_promoted: 0,
            skipped_recent: 0,
            crosstopic_invoked: 0,
            llm_budget: budget,
        }),
{
    PassState {
        flags,
        stage: PassStage::Idle,
        tally: PassTally {
            docs_modified: 0,
            links_added: 0,
            paragraphs_merged: 0,
            edges_added: 0,
            questions_raised: 0,
            questions_answered: 0,
            conclusions_promoted: 0,
            skipped_recent: 0,
            crosstopic_invoked: 0,
            llm_budget: budget,
        },
    }
}

/// A dry run only links: from a document or a question on, it asks for
/// nothing but links, never spends a model call, and stays idle or
/// linking.
pub proof fn law_dry_run_only_links(s: PassState, e: PassEvent)
    requires
        s.flags.dry_run,
        s.stage == PassStage::Idle || s.stage == PassStage::Linking,
    ensures
        ({
            let (s2, a) = pass_step_spec(s, e);
            &&& a == PassAction::Link || a == PassAction::Next || a == PassAction::Stop
            &&& s2.tally.llm_budget == s.tally.llm_budget
            &&& s2.stage == PassStage::Idle || s2.stage == PassStage::Linking
        }),
{
}

} // verus!
