//! Filesystem change events and the watcher's publication policy.
//!
//! The watching facility reports debounced raw notifications; the application
//! converts them to [`FsEvent`] plain values. This module decides what the
//! watcher publishes for each of them and which paths are fed through the
//! precompiler first. Publication never depends on the precompiler's outcome:
//! a failed tool run is logged and the invalidation still goes out.

use vstd::prelude::*;
use crate::path::{split_path, views, DOT};

verus! {

/// An invalidation, as every consumer of the fan-out chain observes it.
/// `Created` and `Modified` are treated identically downstream: a filesystem
/// may report either for a write.
#[derive(Clone, Debug)]
pub enum InvalidationEvent {
    Created(Vec<u8>),
    Modified(Vec<u8>),
    Removed(Vec<u8>),
    Renamed(Vec<u8>, Vec<u8>),
}

/// A raw debounced filesystem notification, already reduced to plain values.
#[derive(Clone, Debug)]
pub enum FsEvent {
    Create(Vec<u8>),
    Write(Vec<u8>),
    Remove(Vec<u8>),
    Rename(Vec<u8>, Vec<u8>),
    Other,
}

/// What the watcher does for one raw notification: test each path in
/// `precompile` for precompilation and run the tool on the eligible ones,
/// then publish `publish`, if any. Publication does not wait on the tool:
/// a failed run is logged and the event goes out regardless.
pub struct WatchPlan {
    pub precompile: Vec<Vec<u8>>,
    pub publish: Option<InvalidationEvent>,
}

/// The watcher's policy for one raw notification: a write-like event
/// precompiles and invalidates its path, a rename precompiles its new path
/// and invalidates both ends atomically, a removal only invalidates.
pub fn plan_fs_event(ev: FsEvent) -> (plan: WatchPlan)
    ensures
        match ev {
            FsEvent::Create(p) => views(plan.precompile@) == seq![p@] && plan.publish
                == Some(InvalidationEvent::Created(p)),
            FsEvent::Write(p) => views(plan.precompile@) == seq![p@] && plan.publish
                == Some(InvalidationEvent::Modified(p)),
            FsEvent::Remove(p) => views(plan.precompile@) == Seq::<Seq<u8>>::empty()
                && plan.publish == Some(InvalidationEvent::Removed(p)),
            FsEvent::Rename(o, n) => views(plan.precompile@) == seq![n@] && plan.publish
                == Some(InvalidationEvent::Renamed(o, n)),
            FsEvent::Other => views(plan.precompile@) == Seq::<Seq<u8>>::empty() && plan.publish
                is None,
        },
{
    match ev {
        FsEvent::Create(p) => {
            let mut pre: Vec<Vec<u8>> = Vec::new();
            pre.push(p.clone());
            proof {
                assert(views(pre@) =~= seq![p@]);
            }
            WatchPlan { precompile: pre, publish: Some(InvalidationEvent::Created(p)) }
        },
        FsEvent::Write(p) => {
            let mut pre: Vec<Vec<u8>> = Vec::new();
            pre.push(p.clone());
            proof {
                assert(views(pre@) =~= seq![p@]);
            }
            WatchPlan { precompile: pre, publish: Some(InvalidationEvent::Modified(p)) }
        },
        FsEvent::Remove(p) => {
            let pre: Vec<Vec<u8>> = Vec::new();
            proof {
                assert(views(pre@) =~= Seq::<Seq<u8>>::empty());
            }
            WatchPlan { precompile: pre, publish: Some(InvalidationEvent::Removed(p)) }
        },
        FsEvent::Rename(o, n) => {
            let mut pre: Vec<Vec<u8>> = Vec::new();
            pre.push(n.clone());
            proof {
                assert(views(pre@) =~= seq![n@]);
            }
            WatchPlan { precompile: pre, publish: Some(InvalidationEvent::Renamed(o, n)) }
        },
        FsEvent::Other => {
            let pre: Vec<Vec<u8>> = Vec::new();
            proof {
                assert(views(pre@) =~= Seq::<Seq<u8>>::empty());
            }
            WatchPlan { precompile: pre, publish: None }
        },
    }
}

/// Index of the last `.` in a component, `-1` when there is none.
pub open spec fn last_dot(c: Seq<u8>) -> int
    decreases c.len(),
{
    if c.len() == 0 {
        -1
    } else if c.last() == DOT {
        c.len() - 1
    } else {
        last_dot(c.drop_last())
    }
}

/// The bytes of `coffee`, the source extension the precompiler handles.
pub open spec fn coffee_ext() -> Seq<u8> {
    seq![99u8, 111u8, 102u8, 102u8, 101u8, 101u8]
}

/// Whether a path names a precompiler source file: the extension of its last
/// component (the part after a last `.` that does not begin the component) is
/// `coffee`.
pub open spec fn spec_needs_precompile(path: Seq<u8>) -> bool {
    let c = split_path(path).last();
    let d = last_dot(c);
    d > 0 && c.skip(d + 1) == coffee_ext()
}

proof fn lemma_last_dot_at(c: Seq<u8>, m: int)
    requires
        0 <= m < c.len(),
        c[m] == DOT,
        forall|k: int| m < k < c.len() ==> c[k] != DOT,
    ensures
        last_dot(c) == m,
    decreases c.len(),
{
    if m == c.len() - 1 {
    } else {
        assert(c.last() != DOT);
        assert(forall|k: int| m < k < c.drop_last().len() ==> c.drop_last()[k] == c[k]);
        lemma_last_dot_at(c.drop_last(), m);
    }
}

proof fn lemma_last_dot_none(c: Seq<u8>)
    requires
        forall|k: int| 0 <= k < c.len() ==> c[k] != DOT,
    ensures
        last_dot(c) == -1,
    decreases c.len(),
{
    if c.len() == 0 {
    } else {
        assert(forall|k: int|
            0 <= k < c.drop_last().len() ==> c.drop_last()[k] == c[k]);
        lemma_last_dot_none(c.drop_last());
    }
}

/// Decide whether a path is fed through the precompiler before its
/// invalidation is published.
pub fn needs_precompile(path: &Vec<u8>) -> (r: bool)
    ensures
        r == spec_needs_precompile(path@),
{
    let comps = crate::path::split_components(path);
    let n = comps.len();
    proof {
        assert(views(comps@).len() >= 1);
        assert(views(comps@).last() == comps@.last()@);
    }
    let c = &comps[n - 1];
    // find the last dot in the component
    let mut j: usize = c.len();
    let mut found = false;
    while j > 0 && !found
        invariant
            j <= c.len(),
            found ==> j >= 1 && c@[j as int - 1] == DOT,
            forall|k: int| j <= k < c@.len() ==> c@[k] != DOT,
        decreases (if found { 0int } else { j as int + 1 }),
    {
        if c[j - 1] == DOT {
            found = true;
        } else {
            j = j - 1;
        }
    }
    proof {
        if found {
            lemma_last_dot_at(c@, j as int - 1);
        } else {
            lemma_last_dot_none(c@);
        }
    }
    if !found || j == 1 {
        // no dot at all, or the only dot begins the component
        return false;
    }
    let d = j - 1;
    proof {
        assert(last_dot(c@) == d as int);
    }
    // compare the extension with `coffee`
    if c.len() - d - 1 != 6 {
        proof {
            assert(c@.skip(d as int + 1).len() != coffee_ext().len());
        }
        return false;
    }
    let r = c[d + 1] == 99 && c[d + 2] == 111 && c[d + 3] == 102 && c[d + 4] == 102 && c[d + 5]
        == 101 && c[d + 6] == 101;
    proof {
        if r {
            assert(c@.skip(d as int + 1) =~= coffee_ext());
        } else {
            assert(c@.skip(d as int + 1) != coffee_ext());
        }
    }
    r
}

/// The program the precompiler runs and the arguments it is given.
pub struct PrecompileCommand {
    pub program: Vec<u8>,
    pub args: Vec<Vec<u8>>,
}

/// The bytes of `coffee`, the tool's name.
pub open spec fn coffee_tool() -> Seq<u8> {
    seq![99u8, 111u8, 102u8, 102u8, 101u8, 101u8]
}

/// The bytes of `-c`, the tool's compile flag.
pub open spec fn compile_flag() -> Seq<u8> {
    seq![45u8, 99u8]
}

/// The invocation for one source file: `coffee -c <path>`.
pub fn precompile_command(path: &Vec<u8>) -> (cmd: PrecompileCommand)
    ensures
        cmd.program@ == coffee_tool(),
        views(cmd.args@) == seq![compile_flag(), path@],
{
    let mut program: Vec<u8> = Vec::new();
    program.push(99);
    program.push(111);
    program.push(102);
    program.push(102);
    program.push(101);
    program.push(101);
    let mut flag: Vec<u8> = Vec::new();
    flag.push(45);
    flag.push(99);
    proof {
        assert(program@ =~= coffee_tool());
        assert(flag@ =~= compile_flag());
    }
    let mut args: Vec<Vec<u8>> = Vec::new();
    args.push(flag);
    args.push(path.clone());
    proof {
        assert(views(args@) =~= seq![compile_flag(), path@]);
    }
    PrecompileCommand { program, args }
}

/// How the external tool ended, reduced to plain values.
#[derive(Clone, Copy, Debug)]
pub enum ToolExit {
    Exited(u32),
    Signaled(u8),
    Undetermined,
}

/// Whether a tool run succeeded: only a clean exit with status zero counts.
/// Any other outcome is logged by the caller and the invalidation is
/// published regardless.
pub fn precompile_succeeded(exit: ToolExit) -> (r: bool)
    ensures
        r == (exit matches ToolExit::Exited(0u32)),
{
    match exit {
        ToolExit::Exited(code) => code == 0,
        _ => false,
    }
}

} // verus!
