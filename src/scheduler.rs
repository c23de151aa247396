//! The rename scheduler: carries out recommendations in passes, deferring a rename whose
//! destination is still taken, until all are done or a pass makes no progress.
//!
//! The directory is modelled as the set of paths that exist in it. The scheduler owns the
//! directory while it runs, so each decision it takes on that model is the one it would
//! take on the directory itself.

use vstd::prelude::*;
use crate::reconcile::RenamingRecommendation;
use crate::utils::{chars_of, string_from_chars};

verus! {

/// What the scheduler does with one recommendation in one pass.
#[derive(PartialEq, Eq, Structural, Clone, Copy, Debug)]
pub enum RenameAction {
    /// The destination is free: the file is moved there (or, in a dry run, would be).
    Rename,
    /// The destination is the source itself: nothing to do.
    AlreadyNamed,
    /// The destination is taken by another file: tried again in the next pass.
    Deferred,
    /// The destination is free but the source is gone: reported and dropped.
    SourceMissing,
}

/// One decision: the index of the recommendation and what was done with it.
#[derive(PartialEq, Eq, Structural, Clone, Copy, Debug)]
pub struct RenameStep {
    pub item: usize,
    pub action: RenameAction,
}

/// What a run of the scheduler did.
pub struct RenameReport {
    /// Every decision, in the order taken.
    pub steps: Vec<RenameStep>,
    /// Whether a pass made no progress while recommendations remained.
    pub deadlocked: bool,
    /// The recommendations left when it deadlocked.
    pub stuck: Vec<usize>,
    /// Number of passes made.
    pub passes: usize,
    /// The paths that exist in the end.
    pub occupied: Vec<String>,
}

/// `name` inside directory `dir`.
pub open spec fn join_path(dir: Seq<char>, name: Seq<char>) -> Seq<char> {
    if dir.len() == 0 {
        name
    } else if dir.last() == '/' {
        dir + name
    } else {
        dir + seq!['/'] + name
    }
}

/// The set of paths named by the strings.
pub open spec fn path_set(v: Seq<String>) -> Set<Seq<char>> {
    Set::new(|p: Seq<char>| exists|i: int| 0 <= i < v.len() && #[trigger] v[i]@ == p)
}

/// Source and destination path of each recommendation.
pub open spec fn moves_of(recs: Seq<RenamingRecommendation>, dir: Seq<char>) -> Seq<(Seq<char>, Seq<char>)> {
    recs.map_values(|r: RenamingRecommendation| (r.source_file@, join_path(dir, r.target_name@)))
}

/// The decision for moving `src` to `dst` when the paths in `occ` exist.
pub open spec fn decide(occ: Set<Seq<char>>, src: Seq<char>, dst: Seq<char>) -> RenameAction {
    if occ.contains(dst) {
        if dst == src {
            RenameAction::AlreadyNamed
        } else {
            RenameAction::Deferred
        }
    } else if occ.contains(src) {
        RenameAction::Rename
    } else {
        RenameAction::SourceMissing
    }
}

/// The paths that exist after the decision; a dry run changes nothing.
pub open spec fn apply_decision(
    occ: Set<Seq<char>>,
    src: Seq<char>,
    dst: Seq<char>,
    action: RenameAction,
    dry_run: bool,
) -> Set<Seq<char>> {
    if action == RenameAction::Rename && !dry_run {
        occ.remove(src).insert(dst)
    } else {
        occ
    }
}

/// Whether the decision counts as progress.
pub open spec fn is_progress(action: RenameAction) -> bool {
    action == RenameAction::Rename || action == RenameAction::SourceMissing
}

pub struct PassOutcome {
    pub occupied: Set<Seq<char>>,
    pub steps: Seq<RenameStep>,
    pub push_back: Seq<usize>,
    pub progress: nat,
}

/// One pass over the recommendations `to_do`, in order.
pub open spec fn run_pass(
    occ: Set<Seq<char>>,
    moves: Seq<(Seq<char>, Seq<char>)>,
    to_do: Seq<usize>,
    dry_run: bool,
) -> PassOutcome
    decreases to_do.len(),
{
    if to_do.len() == 0 {
        PassOutcome { occupied: occ, steps: Seq::empty(), push_back: Seq::empty(), progress: 0 }
    } else {
        let p = run_pass(occ, moves, to_do.drop_last(), dry_run);
        let item = to_do.last();
        let src = moves[item as int].0;
        let dst = moves[item as int].1;
        let action = decide(p.occupied, src, dst);
        PassOutcome {
            occupied: apply_decision(p.occupied, src, dst, action, dry_run),
            steps: p.steps.push(RenameStep { item, action }),
            push_back: if action == RenameAction::Deferred {
                p.push_back.push(item)
            } else {
                p.push_back
            },
            progress: if is_progress(action) {
                p.progress + 1
            } else {
                p.progress
            },
        }
    }
}

/// A pass defers or makes progress on each item at most once.
pub proof fn lemma_pass_shrinks(
    occ: Set<Seq<char>>,
    moves: Seq<(Seq<char>, Seq<char>)>,
    to_do: Seq<usize>,
    dry_run: bool,
)
    ensures
        run_pass(occ, moves, to_do, dry_run).push_back.len() + run_pass(
            occ,
            moves,
            to_do,
            dry_run,
        ).progress <= to_do.len(),
    decreases to_do.len(),
{
    if to_do.len() > 0 {
        lemma_pass_shrinks(occ, moves, to_do.drop_last(), dry_run);
    }
}

pub struct ScheduleOutcome {
    pub occupied: Set<Seq<char>>,
    pub steps: Seq<RenameStep>,
    pub deadlocked: bool,
    pub stuck: Seq<usize>,
    pub passes: nat,
}

#[via_fn]
proof fn run_schedule_decreases(
    occ: Set<Seq<char>>,
    moves: Seq<(Seq<char>, Seq<char>)>,
    to_do: Seq<usize>,
    dry_run: bool,
) {
    if to_do.len() > 0 {
        lemma_pass_shrinks(occ, moves, to_do, dry_run);
    }
}

/// Passes until nothing is left to do, or until a pass makes no progress while some
/// recommendations remain (a deadlock). Each pass takes the deferred items of the
/// previous one in reverse order.
pub open spec fn run_schedule(
    occ: Set<Seq<char>>,
    moves: Seq<(Seq<char>, Seq<char>)>,
    to_do: Seq<usize>,
    dry_run: bool,
) -> ScheduleOutcome
    decreases to_do.len(),
    via run_schedule_decreases
{
    if to_do.len() == 0 {
        ScheduleOutcome {
            occupied: occ,
            steps: Seq::empty(),
            deadlocked: false,
            stuck: Seq::empty(),
            passes: 0,
        }
    } else {
        let p = run_pass(occ, moves, to_do, dry_run);
        let next = p.push_back.reverse();
        if next.len() == 0 || p.progress == 0 {
            ScheduleOutcome {
                occupied: p.occupied,
                steps: p.steps,
                deadlocked: next.len() > 0,
                stuck: next,
                passes: 1,
            }
        } else {
            let rest = run_schedule(p.occupied, moves, next, dry_run);
            ScheduleOutcome {
                occupied: rest.occupied,
                steps: p.steps + rest.steps,
                deadlocked: rest.deadlocked,
                stuck: rest.stuck,
                passes: rest.passes + 1,
            }
        }
    }
}

/// The indices `0..n`.
pub open spec fn all_items(n: nat) -> Seq<usize> {
    Seq::new(n, |i: int| i as usize)
}

/// The path of `name` inside directory `dir`.
pub fn destination_path(dir: &String, name: &String) -> (r: String)
    ensures
        r@ == join_path(dir@, name@),
{
    let d = chars_of(dir.as_str());
    let nm = chars_of(name.as_str());
    let mut out: Vec<char> = Vec::new();
    let mut i: usize = 0;
    while i < d.len()
        invariant
            i <= d@.len(),
            out@ == d@.subrange(0, i as int),
        decreases d@.len() - i,
    {
        out.push(d[i]);
        i = i + 1;
        assert(out@ =~= d@.subrange(0, i as int));
    }
    assert(d@.subrange(0, d@.len() as int) =~= d@);
    if d.len() > 0 && d[d.len() - 1] != '/' {
        out.push('/');
    }
    let ghost base = out@;
    let mut j: usize = 0;
    while j < nm.len()
        invariant
            j <= nm@.len(),
            out@ == base + nm@.subrange(0, j as int),
        decreases nm@.len() - j,
    {
        out.push(nm[j]);
        j = j + 1;
        assert(out@ =~= base + nm@.subrange(0, j as int));
    }
    assert(nm@.subrange(0, nm@.len() as int) =~= nm@);
    proof {
        if d@.len() == 0 {
            assert(out@ =~= nm@);
        } else if d@.last() == '/' {
            assert(out@ =~= d@ + nm@);
        } else {
            assert(out@ =~= d@ + seq!['/'] + nm@);
        }
    }
    string_from_chars(out.as_slice())
}

fn path_set_contains(occ: &Vec<String>, p: &String) -> (r: bool)
    ensures
        r == path_set(occ@).contains(p@),
{
    let mut i: usize = 0;
    while i < occ.len()
        invariant
            i <= occ@.len(),
            forall|k: int| 0 <= k < i ==> #[trigger] occ@[k]@ != p@,
        decreases occ@.len() - i,
    {
        if occ[i] == *p {
            return true;
        }
        i = i + 1;
    }
    false
}

/// The strings without those naming `p`.
fn path_set_remove(occ: &Vec<String>, p: &String) -> (r: Vec<String>)
    ensures
        path_set(r@) == path_set(occ@).remove(p@),
{
    let mut out: Vec<String> = Vec::new();
    let mut i: usize = 0;
    while i < occ.len()
        invariant
            i <= occ@.len(),
            forall|k: int| 0 <= k < out@.len() ==> #[trigger] out@[k]@ != p@,
            forall|k: int|
                0 <= k < out@.len() ==> exists|j: int| 0 <= j < i && #[trigger] occ@[j]@ == (
                #[trigger] out@[k])@,
            forall|j: int|
                0 <= j < i && #[trigger] occ@[j]@ != p@ ==> exists|k: int|
                    0 <= k < out@.len() && #[trigger] out@[k]@ == occ@[j]@,
        decreases occ@.len() - i,
    {
        let ghost out0 = out@;
        if !(occ[i] == *p) {
            let c = occ[i].clone();
            out.push(c);
            assert(out@[out@.len() - 1]@ == occ@[i as int]@);
        }
        assert forall|j: int| 0 <= j < i + 1 && #[trigger] occ@[j]@ != p@ implies exists|k: int|
            0 <= k < out@.len() && #[trigger] out@[k]@ == occ@[j]@ by {
            if j < i {
                let k = choose|k: int| 0 <= k < out0.len() && #[trigger] out0[k]@ == occ@[j]@;
                assert(out@[k]@ == occ@[j]@);
            } else {
                assert(out@[out@.len() - 1]@ == occ@[j]@);
            }
        }
        i = i + 1;
    }
    assert(path_set(out@) =~= path_set(occ@).remove(p@)) by {
        assert forall|q: Seq<char>| path_set(out@).contains(q) implies path_set(occ@).remove(
            p@,
        ).contains(q) by {
            let k = choose|k: int| 0 <= k < out@.len() && #[trigger] out@[k]@ == q;
            let j = choose|j: int| 0 <= j < occ@.len() && #[trigger] occ@[j]@ == out@[k]@;
            assert(occ@[j]@ == q);
        }
        assert forall|q: Seq<char>| path_set(occ@).remove(p@).contains(q) implies path_set(
            out@,
        ).contains(q) by {
            let j = choose|j: int| 0 <= j < occ@.len() && #[trigger] occ@[j]@ == q;
            let k = choose|k: int| 0 <= k < out@.len() && #[trigger] out@[k]@ == occ@[j]@;
            assert(out@[k]@ == q);
        }
    }
    out
}

/// A copy of the strings.
fn copy_strings(v: &Vec<String>) -> (r: Vec<String>)
    ensures
        r@ == v@,
{
    let mut out: Vec<String> = Vec::new();
    let mut i: usize = 0;
    while i < v.len()
        invariant
            i <= v@.len(),
            out@ == v@.subrange(0, i as int),
        decreases v@.len() - i,
    {
        out.push(v[i].clone());
        i = i + 1;
        assert(out@ =~= v@.subrange(0, i as int));
    }
    assert(v@.subrange(0, v@.len() as int) =~= v@);
    out
}

fn reversed(v: &Vec<usize>) -> (r: Vec<usize>)
    ensures
        r@ == v@.reverse(),
{
    let mut out: Vec<usize> = Vec::new();
    let mut i: usize = v.len();
    while i > 0
        invariant
            i <= v@.len(),
            out@.len() == v@.len() - i,
            forall|k: int| 0 <= k < out@.len() ==> out@[k] == v@[v@.len() - 1 - k],
        decreases i,
    {
        i = i - 1;
        out.push(v[i]);
    }
    assert(out@ =~= v@.reverse());
    out
}

proof fn lemma_path_set_push(v: Seq<String>, x: String)
    ensures
        path_set(v.push(x)) == path_set(v).insert(x@),
{
    let w = v.push(x);
    assert forall|q: Seq<char>| path_set(w).contains(q) implies path_set(v).insert(x@).contains(
        q,
    ) by {
        let k = choose|k: int| 0 <= k < w.len() && #[trigger] w[k]@ == q;
        if k < v.len() {
            assert(v[k]@ == q);
        }
    }
    assert forall|q: Seq<char>| path_set(v).insert(x@).contains(q) implies path_set(w).contains(
        q,
    ) by {
        if q == x@ {
            assert(w[v.len() as int]@ == q);
        } else {
            let k = choose|k: int| 0 <= k < v.len() && #[trigger] v[k]@ == q;
            assert(w[k]@ == q);
        }
    }
    assert(path_set(w) =~= path_set(v).insert(x@));
}

/// Runs the scheduler on the recommendations, with destinations in `destination_dir`, from
/// a directory in which the paths `occupied` exist. The report holds every decision in
/// order, whether it deadlocked and on which recommendations, the number of passes, and
/// the paths that exist at the end (unchanged by a dry run).
pub fn schedule_renames(
    recommendations: &Vec<RenamingRecommendation>,
    destination_dir: &String,
    occupied: &Vec<String>,
    dry_run: bool,
) -> (r: RenameReport)
    ensures
        ({
            let o = run_schedule(
                path_set(occupied@),
                moves_of(recommendations@, destination_dir@),
                all_items(recommendations@.len()),
                dry_run,
            );
            &&& r.steps@ == o.steps
            &&& r.deadlocked == o.deadlocked
            &&& r.stuck@ == o.stuck
            &&& r.passes == o.passes
            &&& path_set(r.occupied@) == o.occupied
        }),
{
    let n: usize = recommendations.len();
    let ghost moves = moves_of(recommendations@, destination_dir@);
    let mut dsts: Vec<String> = Vec::new();
    let mut i: usize = 0;
    while i < n
        invariant
            n == recommendations@.len(),
            i <= n,
            dsts@.len() == i,
            forall|k: int|
                0 <= k < i ==> #[trigger] dsts@[k]@ == join_path(
                    destination_dir@,
                    recommendations@[k].target_name@,
                ),
        decreases n - i,
    {
        dsts.push(destination_path(destination_dir, &recommendations[i].target_name));
        i = i + 1;
    }
    let mut to_do: Vec<usize> = Vec::new();
    let mut i: usize = 0;
    while i < n
        invariant
            i <= n,
            to_do@ == all_items(i as nat),
        decreases n - i,
    {
        to_do.push(i);
        i = i + 1;
        assert(to_do@ =~= all_items(i as nat));
    }
    let mut occ = copy_strings(occupied);
    let ghost total = run_schedule(path_set(occupied@), moves, all_items(n as nat), dry_run);
    let mut steps: Vec<RenameStep> = Vec::new();
    let mut passes: usize = 0;
    let mut deadlocked = false;
    let mut stuck: Vec<usize> = Vec::new();
    let mut finished = false;
    assert(steps@ + total.steps =~= total.steps);
    while !finished
        invariant
            n == recommendations@.len(),
            n == dsts@.len(),
            moves == moves_of(recommendations@, destination_dir@),
            forall|k: int|
                0 <= k < n ==> #[trigger] dsts@[k]@ == join_path(
                    destination_dir@,
                    recommendations@[k].target_name@,
                ),
            forall|k: int| 0 <= k < to_do@.len() ==> #[trigger] to_do@[k] < n,
            !finished ==> ({
                let o = run_schedule(path_set(occ@), moves, to_do@, dry_run);
                &&& total.steps == steps@ + o.steps
                &&& total.deadlocked == o.deadlocked
                &&& total.stuck == o.stuck
                &&& total.passes == passes + o.passes
                &&& total.occupied == o.occupied
            }),
            !finished ==> passes + to_do@.len() <= n,
            !finished ==> !deadlocked && stuck@ == Seq::<usize>::empty(),
            finished ==> {
                &&& total.steps == steps@
                &&& total.deadlocked == deadlocked
                &&& total.stuck == stuck@
                &&& total.passes == passes
                &&& total.occupied == path_set(occ@)
            },
        decreases if finished {
            0
        } else {
            to_do@.len() + 1
        },
    {
        if to_do.len() == 0 {
            assert(steps@ + Seq::<RenameStep>::empty() =~= steps@);
            assert(stuck@ =~= Seq::<usize>::empty());
            finished = true;
        } else {
            let ghost occ_start = path_set(occ@);
            let ghost steps0 = steps@;
            let mut push_back: Vec<usize> = Vec::new();
            let mut progress: usize = 0;
            let mut k: usize = 0;
            assert(to_do@.subrange(0, 0) =~= Seq::<usize>::empty());
            assert(steps0 + Seq::<RenameStep>::empty() =~= steps0);
            while k < to_do.len()
                invariant
                    n == recommendations@.len(),
                    n == dsts@.len(),
                    moves == moves_of(recommendations@, destination_dir@),
                    forall|j: int|
                        0 <= j < n ==> #[trigger] dsts@[j]@ == join_path(
                            destination_dir@,
                            recommendations@[j].target_name@,
                        ),
                    forall|j: int| 0 <= j < to_do@.len() ==> #[trigger] to_do@[j] < n,
                    k <= to_do@.len(),
                    ({
                        let p = run_pass(occ_start, moves, to_do@.subrange(0, k as int), dry_run);
                        &&& path_set(occ@) == p.occupied
                        &&& steps@ == steps0 + p.steps
                        &&& push_back@ == p.push_back
                        &&& progress == p.progress
                    }),
                    progress <= k,
                decreases to_do@.len() - k,
            {
                let item = to_do[k];
                let src = &recommendations[item].source_file;
                let dst = &dsts[item];
                let ghost pre = to_do@.subrange(0, k as int + 1);
                assert(pre.drop_last() =~= to_do@.subrange(0, k as int));
                assert(pre.last() == item);
                assert(moves[item as int] == (src@, dst@));
                let action = if path_set_contains(&occ, dst) {
                    if *dst == *src {
                        RenameAction::AlreadyNamed
                    } else {
                        RenameAction::Deferred
                    }
                } else if path_set_contains(&occ, src) {
                    RenameAction::Rename
                } else {
                    RenameAction::SourceMissing
                };
                if action == RenameAction::Rename && !dry_run {
                    let mut moved = path_set_remove(&occ, src);
                    let d = dst.clone();
                    proof {
                        lemma_path_set_push(moved@, d);
                    }
                    moved.push(d);
                    occ = moved;
                }
                steps.push(RenameStep { item, action });
                assert(steps@ =~= steps0 + run_pass(occ_start, moves, pre, dry_run).steps);
                if action == RenameAction::Deferred {
                    push_back.push(item);
                }
                if action == RenameAction::Rename || action == RenameAction::SourceMissing {
                    progress = progress + 1;
                }
                k = k + 1;
            }
            proof {
                assert(to_do@.subrange(0, to_do@.len() as int) =~= to_do@);
                lemma_pass_shrinks(occ_start, moves, to_do@, dry_run);
            }
            passes = passes + 1;
            let next = reversed(&push_back);
            assert forall|j: int| 0 <= j < next@.len() implies #[trigger] next@[j] < n by {
                lemma_push_back_from(occ_start, moves, to_do@, dry_run);
                assert(next@[j] == push_back@[push_back@.len() - 1 - j]);
            }
            if next.len() == 0 || progress == 0 {
                deadlocked = next.len() > 0;
                stuck = next;
                finished = true;
            } else {
                let ghost p = run_pass(occ_start, moves, to_do@, dry_run);
                let ghost rest = run_schedule(path_set(occ@), moves, next@, dry_run);
                assert(steps0 + (p.steps + rest.steps) =~= steps@ + rest.steps);
                to_do = next;
            }
        }
    }
    RenameReport { steps, deadlocked, stuck, passes, occupied: occ }
}

/// Every deferred item of a pass is one of the items it was given.
proof fn lemma_push_back_from(
    occ: Set<Seq<char>>,
    moves: Seq<(Seq<char>, Seq<char>)>,
    to_do: Seq<usize>,
    dry_run: bool,
)
    ensures
        forall|j: int|
            0 <= j < run_pass(occ, moves, to_do, dry_run).push_back.len() ==> exists|k: int|
                0 <= k < to_do.len() && to_do[k] == #[trigger] run_pass(
                    occ,
                    moves,
                    to_do,
                    dry_run,
                ).push_back[j],
    decreases to_do.len(),
{
    if to_do.len() > 0 {
        let prev = to_do.drop_last();
        lemma_push_back_from(occ, moves, prev, dry_run);
        let pp = run_pass(occ, moves, prev, dry_run);
        let p = run_pass(occ, moves, to_do, dry_run);
        assert forall|j: int| 0 <= j < p.push_back.len() implies exists|k: int|
            0 <= k < to_do.len() && to_do[k] == #[trigger] p.push_back[j] by {
            if j < pp.push_back.len() {
                assert(p.push_back[j] == pp.push_back[j]);
                let k = choose|k: int| 0 <= k < prev.len() && prev[k] == #[trigger] pp.push_back[j];
                assert(to_do[k] == prev[k]);
            } else {
                assert(to_do[to_do.len() - 1] == p.push_back[j]);
            }
        }
    }
}

proof fn lemma_dry_pass_keeps_paths(
    occ: Set<Seq<char>>,
    moves: Seq<(Seq<char>, Seq<char>)>,
    to_do: Seq<usize>,
)
    ensures
        run_pass(occ, moves, to_do, true).occupied == occ,
    decreases to_do.len(),
{
    if to_do.len() > 0 {
        lemma_dry_pass_keeps_paths(occ, moves, to_do.drop_last());
    }
}

/// A dry run moves nothing: the paths that exist at the end are those that existed at the
/// start, so every source is still where it was.
pub proof fn lemma_dry_run_keeps_paths(
    occ: Set<Seq<char>>,
    moves: Seq<(Seq<char>, Seq<char>)>,
    to_do: Seq<usize>,
)
    ensures
        run_schedule(occ, moves, to_do, true).occupied == occ,
        forall|i: int|
            0 <= i < moves.len() && occ.contains(#[trigger] moves[i].0) ==> run_schedule(
                occ,
                moves,
                to_do,
                true,
            ).occupied.contains(moves[i].0),
    decreases to_do.len(),
{
    if to_do.len() > 0 {
        lemma_dry_pass_keeps_paths(occ, moves, to_do);
        lemma_pass_shrinks(occ, moves, to_do, true);
        let p = run_pass(occ, moves, to_do, true);
        let next = p.push_back.reverse();
        if next.len() > 0 && p.progress > 0 {
            lemma_dry_run_keeps_paths(occ, moves, next);
        }
    }
}

/// Two files that each want the other's current name: the first pass defers both, makes no
/// progress, and the scheduler reports a deadlock without renaming anything.
pub proof fn lemma_swap_deadlocks(
    occ: Set<Seq<char>>,
    a: Seq<char>,
    b: Seq<char>,
    dry_run: bool,
)
    requires
        a != b,
        occ.contains(a),
        occ.contains(b),
    ensures
        ({
            let o = run_schedule(occ, seq![(a, b), (b, a)], all_items(2), dry_run);
            &&& o.deadlocked
            &&& o.occupied == occ
            &&& o.passes == 1
            &&& o.steps == seq![
                RenameStep { item: 0, action: RenameAction::Deferred },
                RenameStep { item: 1, action: RenameAction::Deferred },
            ]
            &&& forall|i: int| 0 <= i < o.steps.len() ==> #[trigger] o.steps[i].action
                != RenameAction::Rename
        }),
{
    let moves = seq![(a, b), (b, a)];
    let to_do = all_items(2);
    assert(to_do.drop_last() =~= seq![0usize]);
    assert(to_do.drop_last().drop_last() =~= Seq::<usize>::empty());
    let before_any = run_pass(occ, moves, to_do.drop_last().drop_last(), dry_run);
    let after_first = run_pass(occ, moves, to_do.drop_last(), dry_run);
    let after_both = run_pass(occ, moves, to_do, dry_run);
    assert(before_any.occupied == occ && before_any.progress == 0);
    assert(moves[0] == (a, b));
    assert(moves[1] == (b, a));
    assert(after_first.occupied == occ && after_first.progress == 0);
    assert(after_first.push_back =~= seq![0usize]);
    assert(after_both.push_back =~= seq![0usize, 1usize]);
    assert(after_both.progress == 0);
    assert(after_both.steps =~= seq![
        RenameStep { item: 0, action: RenameAction::Deferred },
        RenameStep { item: 1, action: RenameAction::Deferred },
    ]);
    assert(after_both.push_back.reverse().len() == 2);
}

} // verus!
