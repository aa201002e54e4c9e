//! Search bookkeeping of the expectimax engine: node and time budget, killer moves and
//! the history table of quiet cutoffs.

use std::time::{Duration, Instant};
use vstd::prelude::*;

use crate::env::board::DarkChessEnv;
use crate::env::config::MAX_POSITIONS;
use crate::env::types::{player_idx, Move};

pub mod negamax;

verus! {

/// Search feature: move ordering (MVV-LVA, killers, history).
pub const FEAT_ORDERING: u32 = 1;
/// Search feature: transposition table at decision nodes.
pub const FEAT_TT: u32 = 2;
/// Search feature: late move reductions.
pub const FEAT_LMR: u32 = 4;
/// Search feature: repetition detection along the search path.
pub const FEAT_REP: u32 = 8;

#[verifier::external_type_specification]
#[verifier::external_body]
pub struct ExInstant(Instant);

/// The current instant of the monotonic clock. Trusted: nothing is claimed of it.
pub assume_specification[ Instant::now ]() -> Instant;

/// Time passed since an instant. Trusted: nothing is claimed of it.
pub assume_specification[ Instant::elapsed ](this: &Instant) -> Duration;

/// Whole milliseconds of a duration. Trusted: nothing is claimed of it.
pub assume_specification[ Duration::as_millis ](this: &Duration) -> u128;

/// Search context: node count against the node budget, start time against the time
/// limit, killer moves per remaining depth, history scores of quiet cutoffs per
/// `(from, to)`, the ancestors' position keys on the search path, and the side to move
/// at the root.
pub struct Ctx {
    nodes: u64,
    budget: u64,
    start: Instant,
    time_limit_ms: u64,
    killers: Vec<[usize; 2]>,
    history: Vec<i32>,
    path: Vec<u64>,
    root: usize,
}

/// The mathematical content of a search context.
pub struct CtxView {
    pub nodes: u64,
    pub budget: u64,
    pub start: Instant,
    pub time_limit_ms: u64,
    pub killers: Seq<[usize; 2]>,
    pub history: Seq<i32>,
    pub path: Seq<u64>,
    pub root: usize,
}

impl View for Ctx {
    type V = CtxView;

    closed spec fn view(&self) -> CtxView {
        CtxView {
            nodes: self.nodes,
            budget: self.budget,
            start: self.start,
            time_limit_ms: self.time_limit_ms,
            killers: self.killers@,
            history: self.history@,
            path: self.path@,
            root: self.root,
        }
    }
}

/// A node count at which the clock is read: every 1024th node, when a time limit is set.
pub open spec fn clock_checked_at(v: CtxView) -> bool {
    v.time_limit_ms > 0 && v.nodes % 1024 == 0
}

/// The killer-move table after a quiet cutoff of `action` at depth index `d`: the move
/// becomes the first killer and the old first killer the second, unless it already is
/// the first.
pub open spec fn killers_after(killers: Seq<[usize; 2]>, d: int, action: usize) -> Seq<[usize; 2]> {
    if 0 <= d < killers.len() && killers[d][0] != action {
        killers.update(d, [action, killers[d][0]])
    } else {
        killers
    }
}

/// The history table after a quiet cutoff with key `key` at depth `depth`: the entry
/// gains `depth * depth`.
pub open spec fn history_after(history: Seq<i32>, key: int, depth: i32) -> Seq<i32> {
    if 0 <= key < history.len() {
        history.update(key, (history[key] + depth * depth) as i32)
    } else {
        history
    }
}

/// Whether a search may go on: it must stop once `nodes` exceeds `budget`, or when a
/// time limit is set and the elapsed milliseconds, if the clock was read, reach it.
pub open spec fn spec_budget_verdict(nodes: u64, budget: u64, time_limit_ms: u64, elapsed_ms: Option<u64>) -> Result<(), ()> {
    if nodes > budget || (elapsed_ms matches Some(ms) && time_limit_ms > 0 && ms >= time_limit_ms) {
        Err(())
    } else {
        Ok(())
    }
}

/// The verdict of a node count against the node budget and, if the clock was read,
/// of the elapsed milliseconds against the time limit (0: no limit).
pub fn budget_verdict(nodes: u64, budget: u64, time_limit_ms: u64, elapsed_ms: Option<u64>) -> (r: Result<(), ()>)
    ensures
        r == spec_budget_verdict(nodes, budget, time_limit_ms, elapsed_ms),
        r is Err <==> nodes > budget || (elapsed_ms matches Some(ms) && time_limit_ms > 0 && ms
            >= time_limit_ms),
{
    if nodes > budget {
        return Err(());
    }
    match elapsed_ms {
        Some(ms) => {
            if time_limit_ms > 0 && ms >= time_limit_ms {
                return Err(());
            }
        },
        None => {},
    }
    Ok(())
}

/// A quiet cutoff by `action` at depth index `d` makes `action` the first killer
/// there and demotes the old first killer to second, unless `action` already is the
/// first killer; the other depths keep their killers. The history entry of the move's
/// `(from, to)` key gains `depth * depth`; the other entries stay.
pub proof fn law_cutoff_bookkeeping(killers: Seq<[usize; 2]>, d: int, action: usize, history: Seq<i32>, key: int, depth: i32)
    requires
        0 <= key < history.len() ==> i32::MIN <= history[key] + depth * depth <= i32::MAX,
    ensures
        killers_after(killers, d, action).len() == killers.len(),
        0 <= d < killers.len() && killers[d][0] != action ==> killers_after(killers, d, action)[d][0]
            == action && killers_after(killers, d, action)[d][1] == killers[d][0],
        forall|i: int|
            0 <= i < killers.len() && (i != d || killers[i][0] == action) ==> #[trigger] killers_after(
                killers,
                d,
                action,
            )[i] == killers[i],
        history_after(history, key, depth).len() == history.len(),
        0 <= key < history.len() ==> history_after(history, key, depth)[key] == history[key] + depth * depth,
        forall|i: int|
            0 <= i < history.len() && i != key ==> #[trigger] history_after(history, key, depth)[i]
                == history[i],
{
}

impl Ctx {
    /// A fresh context for a search of at most `max_depth` plies, `node_budget` nodes
    /// (at least one) and `time_limit_ms` milliseconds (0: no limit) from `env`.
    pub fn new(max_depth: i32, node_budget: u64, time_limit_ms: u64, env: &DarkChessEnv) -> (r: Self)
        requires
            env.config.total_positions <= MAX_POSITIONS,
            max_depth <= i32::MAX - 2,
        ensures
            r@.nodes == 0,
            r@.budget == (if node_budget == 0 { 1 } else { node_budget }),
            r@.time_limit_ms == time_limit_ms,
            r@.killers == Seq::new(
                (if max_depth < 1 { 1 } else { max_depth } + 2) as nat,
                |i: int| [0usize, 0usize],
            ),
            r@.history == Seq::new((env.n() * env.n()) as nat, |i: int| 0i32),
            r@.path == Seq::<u64>::empty(),
            r@.root == player_idx(env.current_player),
    {
        let total = env.config.total_positions;
        let depth: i32 = if max_depth < 1 { 1 } else { max_depth };
        let kd = (depth + 2) as usize;
        let budget: u64 = if node_budget == 0 { 1 } else { node_budget };
        let killers = vec![[0usize; 2]; kd];
        assert(total * total <= 1024) by (nonlinear_arith)
            requires
                total <= 32,
        ;
        let history = vec![0i32; total * total];
        let r = Ctx {
            nodes: 0,
            budget,
            start: Instant::now(),
            time_limit_ms,
            killers,
            history,
            path: Vec::with_capacity(64),
            root: env.get_current_player().idx(),
        };
        proof {
            assert(r@.killers.len() == depth + 2);
            assert forall|i: int| 0 <= i < depth + 2 implies r@.killers[i] =~= [0usize, 0usize] by {}
            assert(r@.killers =~= Seq::new((depth + 2) as nat, |i: int| [0usize, 0usize]));
            assert(r@.history =~= Seq::new((env.n() * env.n()) as nat, |i: int| 0i32));
        }
        r
    }

    /// Counts a node. Fails once the node budget is spent; every 1024th node, when a
    /// time limit is set, it also reads the milliseconds since `start` and fails once
    /// the limit has passed (see `budget_verdict`).
    pub fn tick(&mut self) -> (r: Result<(), ()>)
        requires
            old(self)@.nodes < u64::MAX,
        ensures
            final(self)@ == (CtxView { nodes: (old(self)@.nodes + 1) as u64, ..old(self)@ }),
            !(final(self)@.nodes <= final(self)@.budget && final(self)@.time_limit_ms > 0
                && final(self)@.nodes % 1024 == 0) ==> r
                == spec_budget_verdict(
                final(self)@.nodes,
                final(self)@.budget,
                final(self)@.time_limit_ms,
                None,
            ),
            final(self)@.nodes <= final(self)@.budget && final(self)@.time_limit_ms > 0
                && final(self)@.nodes % 1024 == 0 ==> exists|ms: u64|
                r == #[trigger] spec_budget_verdict(
                    final(self)@.nodes,
                    final(self)@.budget,
                    final(self)@.time_limit_ms,
                    Some(ms),
                ),
    {
        self.nodes += 1;
        let nodes = self.nodes;
        assert(nodes & 1023 == nodes % 1024) by (bit_vector);
        let elapsed_ms = if self.nodes <= self.budget && self.time_limit_ms > 0 && (self.nodes & 1023) == 0 {
            let elapsed = self.start.elapsed();
            Some(elapsed.as_millis() as u64)
        } else {
            None
        };
        budget_verdict(self.nodes, self.budget, self.time_limit_ms, elapsed_ms)
    }

    /// Records a quiet cutoff by `m` at `depth`: `m` becomes the first killer at that
    /// depth and its history score gains `depth * depth`.
    pub fn record_cutoff(&mut self, m: &Move, depth: i32, total: usize)
        requires
            m.from * total + m.to <= usize::MAX,
            m.from * total + m.to < old(self)@.history.len() ==> {
                &&& depth * depth <= i32::MAX
                &&& i32::MIN <= old(self)@.history[m.from * total + m.to] + depth * depth <= i32::MAX
            },
        ensures
            final(self)@ == (CtxView {
                killers: killers_after(old(self)@.killers, (depth as usize) as int, m.action),
                history: history_after(old(self)@.history, m.from * total + m.to, depth),
                ..old(self)@
            }),
            final(self)@.killers.len() == old(self)@.killers.len(),
            ({
                let d = (depth as usize) as int;
                &&& 0 <= d < old(self)@.killers.len() && old(self)@.killers[d][0] != m.action
                    ==> final(self)@.killers[d] == [m.action, old(self)@.killers[d][0]]
                &&& forall|i: int|
                    0 <= i < old(self)@.killers.len() && (i != d || old(self)@.killers[i][0]
                        == m.action) ==> #[trigger] final(self)@.killers[i] == old(self)@.killers[i]
            }),
            ({
                let key = m.from * total + m.to;
                &&& final(self)@.history.len() == old(self)@.history.len()
                &&& key < old(self)@.history.len() ==> final(self)@.history[key] == old(self)@.history[key]
                    + depth * depth
                &&& forall|i: int|
                    0 <= i < old(self)@.history.len() && i != key ==> #[trigger] final(self)@.history[i]
                        == old(self)@.history[i]
            }),
    {
        let d = depth as usize;
        if d < self.killers.len() && self.killers[d][0] != m.action {
            let mut k = self.killers[d];
            k[1] = k[0];
            k[0] = m.action;
            self.killers[d] = k;
            proof {
                assert(k =~= [m.action, old(self).killers@[d as int][0]]);
            }
        }
        let key = m.from * total + m.to;
        if key < self.history.len() {
            assert(depth * depth >= 0) by (nonlinear_arith);
            self.history[key] = self.history[key] + depth * depth;
        }
        proof {
            assert(self@.killers =~= killers_after(old(self)@.killers, d as int, m.action));
            assert(self@.history =~= history_after(old(self)@.history, key as int, depth));
        }
    }
}

} // verus!
