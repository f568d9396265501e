//! The command line of the program: which command its arguments name and
//! the options they give, and the source directories and extensions the
//! code watcher is configured with.

use vstd::prelude::*;
use crate::config::{nonempty_trimmed, parse_usize, parse_usize_spec, split_all, split_on};
use crate::text::{chars_of, str_eq, string_of, trim, trim_str};

verus! {

/// A command given on the command line.
pub enum CliCommand {
    /// `search <query>` with `--tag`, `--k` (default 20) and `--top-n`
    /// (default 5).
    Search { query: String, tag: Option<String>, k: usize, top_n: usize },
    /// `search` without a query: print the usage and exit with status 2.
    SearchUsage,
    Hook,
    CodeReadHook,
    StopHook,
    MigrateLayout,
    /// `learn-feedback` with `--limit` (default 25) and `--dry-run`.
    LearnFeedback { limit: usize, dry_run: bool },
    /// No command: serve.
    Serve,
}

pub open spec fn strs(v: Seq<String>) -> Seq<Seq<char>> {
    v.map_values(|s: String| s@)
}

pub open spec fn opt_s(o: Option<String>) -> Option<Seq<char>> {
    match o {
        Some(s) => Some(s@),
        None => None,
    }
}

/// The number that argument `j` gives, or `d` when it is missing or not a
/// number.
pub open spec fn num_arg(a: Seq<Seq<char>>, j: int, d: nat) -> nat {
    if 0 <= j < a.len() {
        match parse_usize_spec(a[j]) {
            Some(v) => v,
            None => d,
        }
    } else {
        d
    }
}

/// The options of `search` read from argument `i` on: `(tag, k, top_n)`.
pub open spec fn search_flags(a: Seq<Seq<char>>, i: int, tag: Option<Seq<char>>, k: nat, top: nat) -> (
    Option<Seq<char>>,
    nat,
    nat,
)
    decreases a.len() + 1 - i,
{
    if i < 0 || i >= a.len() {
        (tag, k, top)
    } else if a[i] == "--tag"@ {
        search_flags(a, i + 2, if i + 1 < a.len() {
            Some(a[i + 1])
        } else {
            None
        }, k, top)
    } else if a[i] == "--k"@ {
        search_flags(a, i + 2, tag, num_arg(a, i + 1, 20), top)
    } else if a[i] == "--top-n"@ {
        search_flags(a, i + 2, tag, k, num_arg(a, i + 1, 5))
    } else {
        search_flags(a, i + 1, tag, k, top)
    }
}

/// The options of `learn-feedback` read from argument `i` on:
/// `(limit, dry_run)`.
pub open spec fn feedback_flags(a: Seq<Seq<char>>, i: int, limit: nat, dry: bool) -> (nat, bool)
    decreases a.len() + 1 - i,
{
    if i < 0 || i >= a.len() {
        (limit, dry)
    } else if a[i] == "--limit"@ {
        feedback_flags(a, i + 2, num_arg(a, i + 1, 25), dry)
    } else if a[i] == "--dry-run"@ {
        feedback_flags(a, i + 1, limit, true)
    } else {
        feedback_flags(a, i + 1, limit, dry)
    }
}

/// A command as a value of the model: its name and its options.
pub open spec fn command_view(c: CliCommand) -> (Seq<char>, Seq<Seq<char>>, Option<Seq<char>>, nat, nat, bool) {
    match c {
        CliCommand::Search { query, tag, k, top_n } => ("search"@, seq![query@], match tag {
            Some(t) => Some(t@),
            None => None,
        }, k as nat, top_n as nat, false),
        CliCommand::SearchUsage => ("search-usage"@, seq![], None, 0, 0, false),
        CliCommand::Hook => ("hook"@, seq![], None, 0, 0, false),
        CliCommand::CodeReadHook => ("code-read-hook"@, seq![], None, 0, 0, false),
        CliCommand::StopHook => ("stop-hook"@, seq![], None, 0, 0, false),
        CliCommand::MigrateLayout => ("migrate-layout"@, seq![], None, 0, 0, false),
        CliCommand::LearnFeedback { limit, dry_run } => ("learn-feedback"@, seq![], None, limit as nat, 0, dry_run),
        CliCommand::Serve => ("serve"@, seq![], None, 0, 0, false),
    }
}

/// The command that the arguments (the program's name first) name.
pub open spec fn cli_spec(a: Seq<Seq<char>>) -> (Seq<char>, Seq<Seq<char>>, Option<Seq<char>>, nat, nat, bool) {
    if a.len() < 2 {
        ("serve"@, seq![], None, 0, 0, false)
    } else if a[1] == "search"@ {
        if a.len() < 3 {
            ("search-usage"@, seq![], None, 0, 0, false)
        } else {
            let f = search_flags(a, 3, None, 20, 5);
            ("search"@, seq![a[2]], f.0, f.1, f.2, false)
        }
    } else if a[1] == "hook"@ {
        ("hook"@, seq![], None, 0, 0, false)
    } else if a[1] == "code-read-hook"@ {
        ("code-read-hook"@, seq![], None, 0, 0, false)
    } else if a[1] == "stop-hook"@ {
        ("stop-hook"@, seq![], None, 0, 0, false)
    } else if a[1] == "migrate-layout"@ {
        ("migrate-layout"@, seq![], None, 0, 0, false)
    } else if a[1] == "learn-feedback"@ {
        let f = feedback_flags(a, 2, 25, false);
        ("learn-feedback"@, seq![], None, f.0, 0, f.1)
    } else {
        ("serve"@, seq![], None, 0, 0, false)
    }
}

fn num_at(args: &Vec<String>, j: usize, d: usize) -> (r: usize)
    ensures
        r as nat == num_arg(strs(args@), j as int, d as nat),
{
    if j < args.len() {
        match parse_usize(args[j].as_str()) {
            Some(v) => v,
            None => d,
        }
    } else {
        d
    }
}

/// The command that the arguments name (see `cli_spec`).
pub fn parse_cli(args: &Vec<String>) -> (r: CliCommand)
    ensures
        command_view(r) == cli_spec(strs(args@)),
{
    let ghost a = strs(args@);
    if args.len() < 2 {
        return CliCommand::Serve;
    }
    assert(a[1] == args@[1]@);
    let cmd = args[1].as_str();
    if str_eq(cmd, "search") {
        if args.len() < 3 {
            return CliCommand::SearchUsage;
        }
        let mut tag: Option<String> = None;
        let mut k: usize = 20;
        let mut top_n: usize = 5;
        let mut i: usize = 3;
        while i < args.len()
            invariant
                3 <= i <= args@.len(),
                a == strs(args@),
                search_flags(a, 3, None, 20, 5) == search_flags(a, i as int, opt_s(tag), k as nat, top_n as nat),
            decreases args@.len() - i,
        {
            assert(a[i as int] == args@[i as int]@);
            let ghost oi = i as int;
            let ghost before = search_flags(a, oi, opt_s(tag), k as nat, top_n as nat);
            let f = args[i].as_str();
            if str_eq(f, "--tag") {
                tag = if i + 1 < args.len() {
                    assert(a[i + 1] == args@[i + 1]@);
                    Some(args[i + 1].clone())
                } else {
                    None
                };
                i = if i + 1 < args.len() {
                    i + 2
                } else {
                    args.len()
                };
            } else if str_eq(f, "--k") {
                k = num_at(args, i + 1, 20);
                i = if i + 1 < args.len() {
                    i + 2
                } else {
                    args.len()
                };
            } else if str_eq(f, "--top-n") {
                top_n = num_at(args, i + 1, 5);
                i = if i + 1 < args.len() {
                    i + 2
                } else {
                    args.len()
                };
            } else {
                i = i + 1;
            }
            proof {
                let st = (opt_s(tag), k as nat, top_n as nat);
                if i as int == a.len() {
                    assert(search_flags(a, oi + 2, st.0, st.1, st.2) == st);
                    assert(search_flags(a, i as int, st.0, st.1, st.2) == st);
                }
                assert(before == search_flags(a, i as int, st.0, st.1, st.2));
            }
        }
        assert(a[2] == args@[2]@);
        return CliCommand::Search { query: args[2].clone(), tag, k, top_n };
    }
    if str_eq(cmd, "hook") {
        return CliCommand::Hook;
    }
    if str_eq(cmd, "code-read-hook") {
        return CliCommand::CodeReadHook;
    }
    if str_eq(cmd, "stop-hook") {
        return CliCommand::StopHook;
    }
    if str_eq(cmd, "migrate-layout") {
        return CliCommand::MigrateLayout;
    }
    if str_eq(cmd, "learn-feedback") {
        let mut limit: usize = 25;
        let mut dry_run = false;
        let mut i: usize = 2;
        while i < args.len()
            invariant
                2 <= i <= args@.len(),
                a == strs(args@),
                feedback_flags(a, 2, 25, false) == feedback_flags(a, i as int, limit as nat, dry_run),
            decreases args@.len() - i,
        {
            assert(a[i as int] == args@[i as int]@);
            let ghost oi = i as int;
            let ghost before = feedback_flags(a, oi, limit as nat, dry_run);
            let f = args[i].as_str();
            if str_eq(f, "--limit") {
                limit = num_at(args, i + 1, 25);
                i = if i + 1 < args.len() {
                    i + 2
                } else {
                    args.len()
                };
            } else if str_eq(f, "--dry-run") {
                dry_run = true;
                i = i + 1;
            } else {
                i = i + 1;
            }
            proof {
                if i as int == a.len() {
                    assert(feedback_flags(a, oi + 2, limit as nat, dry_run) == (limit as nat, dry_run));
                    assert(feedback_flags(a, i as int, limit as nat, dry_run) == (limit as nat, dry_run));
                }
                assert(before == feedback_flags(a, i as int, limit as nat, dry_run));
            }
        }
        return CliCommand::LearnFeedback { limit, dry_run };
    }
    CliCommand::Serve
}

/// The extensions the code watcher indexes when configured: the trimmed
/// non-empty entries of the comma-separated list, else the single
/// extension; `None` when neither is set.
pub open spec fn configured_exts_spec(exts: Option<Seq<char>>, ext: Option<Seq<char>>) -> Option<Seq<Seq<char>>> {
    match exts {
        Some(s) => Some(nonempty_trimmed(split_on(s, ','))),
        None => match ext {
            Some(e) => Some(seq![e]),
            None => None,
        },
    }
}

/// The extensions the code watcher indexes when configured (see
/// `configured_exts_spec`).
pub fn configured_exts(exts: Option<&str>, ext: Option<&str>) -> (r: Option<Vec<String>>)
    ensures
        match r {
            Some(v) => configured_exts_spec(
                match exts {
                    Some(s) => Some(s@),
                    None => None,
                },
                match ext {
                    Some(e) => Some(e@),
                    None => None,
                },
            ) == Some(strs(v@)),
            None => configured_exts_spec(
                match exts {
                    Some(s) => Some(s@),
                    None => None,
                },
                match ext {
                    Some(e) => Some(e@),
                    None => None,
                },
            ) is None,
        },
{
    match exts {
        Some(s) => {
            let ps = split_all(s, ',');
            let ghost pv = strs(ps@);
            let mut out: Vec<String> = Vec::new();
            let mut i: usize = 0;
            while i < ps.len()
                invariant
                    i <= ps@.len(),
                    pv == strs(ps@),
                    strs(out@) == nonempty_trimmed(pv.subrange(0, i as int)),
                decreases ps@.len() - i,
            {
                let ghost t = pv.subrange(0, i + 1);
                assert(t.drop_last() =~= pv.subrange(0, i as int));
                assert(t.last() == ps@[i as int]@);
                let tr = trim_str(ps[i].as_str());
                let ghost before = strs(out@);
                if chars_of(tr.as_str()).len() > 0 {
                    out.push(tr);
                    assert(strs(out@) =~= before + seq![trim(ps@[i as int]@)]);
                } else {
                    assert(strs(out@) =~= before + Seq::<Seq<char>>::empty());
                }
                i = i + 1;
            }
            assert(pv.subrange(0, ps@.len() as int) =~= pv);
            Some(out)
        },
        None => match ext {
            Some(e) => {
                let mut out: Vec<String> = Vec::new();
                out.push(string_of(chars_of(e).as_slice()));
                assert(strs(out@) =~= seq![e@]);
                Some(out)
            },
            None => None,
        },
    }
}

/// The source directories the code watcher may watch, before those that
/// do not exist are dropped: the trimmed entries of the `;`-separated
/// list, then the single directory.
pub open spec fn source_dirs_spec(dirs: Option<Seq<char>>, dir: Option<Seq<char>>) -> Seq<Seq<char>> {
    (match dirs {
        Some(s) => split_on(s, ';').map_values(|p: Seq<char>| trim(p)),
        None => seq![],
    }) + match dir {
        Some(d) => seq![d],
        None => seq![],
    }
}

/// The source directories the code watcher may watch (see
/// `source_dirs_spec`).
pub fn source_dirs(dirs: Option<&str>, dir: Option<&str>) -> (r: Vec<String>)
    ensures
        strs(r@) == source_dirs_spec(
            match dirs {
                Some(s) => Some(s@),
                None => None,
            },
            match dir {
                Some(d) => Some(d@),
                None => None,
            },
        ),
{
    let mut out: Vec<String> = Vec::new();
    match dirs {
        Some(s) => {
            let ps = split_all(s, ';');
            let ghost pv = strs(ps@);
            let mut i: usize = 0;
            while i < ps.len()
                invariant
                    i <= ps@.len(),
                    pv == strs(ps@),
                    strs(out@) == pv.subrange(0, i as int).map_values(|p: Seq<char>| trim(p)),
                decreases ps@.len() - i,
            {
                let ghost before = strs(out@);
                out.push(trim_str(ps[i].as_str()));
                assert(pv[i as int] == ps@[i as int]@);
                assert(strs(out@) =~= before.push(trim(pv[i as int])));
                assert(pv.subrange(0, i + 1).map_values(|p: Seq<char>| trim(p)) =~= pv.subrange(0, i as int).map_values(
                    |p: Seq<char>| trim(p),
                ).push(trim(pv[i as int])));
                i = i + 1;
            }
            assert(pv.subrange(0, ps@.len() as int) =~= pv);
        },
        None => {},
    }
    let ghost mid = strs(out@);
    match dir {
        Some(d) => {
            out.push(string_of(chars_of(d).as_slice()));
            assert(strs(out@) =~= mid + seq![d@]);
        },
        None => {
            assert(strs(out@) =~= mid + Seq::<Seq<char>>::empty());
        },
    }
    out
}

} // verus!
