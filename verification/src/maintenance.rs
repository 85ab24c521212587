//! When git's maintenance runs, and how it is called.
use crate::text::{self, texts};
use crate::types::MaintenanceConfig;
use vstd::prelude::*;

verus! {

broadcast use vstd::string::group_string_axioms;

/// What a run of maintenance did.
#[derive(Debug, Clone)]
pub struct MaintenanceReport {
    pub tasks_run: Vec<String>,
    pub success: bool,
    pub duration_ms: u64,
    pub fallback_used: bool,
}

/// How git is called for maintenance.
#[derive(Debug, Clone)]
pub struct MaintenanceCall {
    pub args: Vec<String>,
    pub tasks_run: Vec<String>,
    pub fallback_used: bool,
}

pub open spec fn task_args(tasks: Seq<Seq<char>>) -> Seq<Seq<char>> {
    Seq::new(tasks.len(), |i: int| "--task="@ + tasks[i])
}

/// How git is called: `git maintenance run` with the tasks, or with what it
/// finds to do; `git gc --auto` where git has no maintenance.
pub fn plan_run(has_maintenance: bool, tasks: &Option<Vec<String>>) -> (r: MaintenanceCall)
    ensures
        r.fallback_used == !has_maintenance,
        texts(r.args@) == if !has_maintenance {
            seq!["gc"@, "--auto"@]
        } else {
            match *tasks {
                Some(l) => seq!["maintenance"@, "run"@] + task_args(texts(l@)),
                None => seq!["maintenance"@, "run"@, "--auto"@],
            }
        },
        texts(r.tasks_run@) == if !has_maintenance {
            seq!["gc-auto"@]
        } else {
            match *tasks {
                Some(l) => texts(l@),
                None => seq!["auto"@],
            }
        },
{
    let mut args: Vec<String> = Vec::new();
    let mut tasks_run: Vec<String> = Vec::new();
    if !has_maintenance {
        args.push(text::copy("gc"));
        args.push(text::copy("--auto"));
        tasks_run.push(text::copy("gc-auto"));
        proof {
            assert(texts(args@) =~= seq!["gc"@, "--auto"@]);
            assert(texts(tasks_run@) =~= seq!["gc-auto"@]);
        }
        return MaintenanceCall { args, tasks_run, fallback_used: true };
    }
    args.push(text::copy("maintenance"));
    args.push(text::copy("run"));
    let ghost head = seq!["maintenance"@, "run"@];
    proof {
        assert(texts(args@) =~= head);
    }
    match tasks {
        None => {
            args.push(text::copy("--auto"));
            tasks_run.push(text::copy("auto"));
            proof {
                assert(texts(args@) =~= seq!["maintenance"@, "run"@, "--auto"@]);
                assert(texts(tasks_run@) =~= seq!["auto"@]);
            }
        },
        Some(l) => {
            let ghost lv = texts(l@);
            let ghost tv = task_args(lv);
            let mut i: usize = 0;
            proof {
                assert(texts(args@) =~= head + tv.take(0));
                assert(texts(tasks_run@) =~= lv.take(0));
            }
            while i < l.len()
                invariant
                    i <= l@.len(),
                    lv == texts(l@),
                    tv == task_args(lv),
                    texts(args@) == head + tv.take(i as int),
                    texts(tasks_run@) == lv.take(i as int),
                decreases l@.len() - i,
            {
                let a = text::cat("--task=", l[i].as_str());
                let t = text::copy(l[i].as_str());
                proof {
                    text::lemma_texts_push(args@, a);
                    text::lemma_texts_push(tasks_run@, t);
                    assert(head + tv.take(i + 1) =~= (head + tv.take(i as int)).push(tv[i as int]));
                    assert(lv.take(i + 1) =~= lv.take(i as int).push(lv[i as int]));
                }
                args.push(a);
                tasks_run.push(t);
                i = i + 1;
            }
            proof {
                assert(tv.take(i as int) =~= tv);
                assert(lv.take(i as int) =~= lv);
            }
        },
    }
    MaintenanceCall { args, tasks_run, fallback_used: false }
}

/// Decides after a commit, the `count`-th of the session, whether maintenance
/// runs now. The count then starts again.
pub fn check_write_threshold(config: &MaintenanceConfig, count: u32) -> (r: bool)
    ensures
        r == (config.auto_enabled && config.write_threshold != 0 && count
            >= config.write_threshold),
{
    if !config.auto_enabled || config.write_threshold == 0 {
        return false;
    }
    count >= config.write_threshold
}

/// Decides whether maintenance runs by itself.
pub fn maybe_auto_run(config: &MaintenanceConfig) -> (r: bool)
    ensures
        r == config.auto_enabled,
{
    config.auto_enabled
}

} // verus!
