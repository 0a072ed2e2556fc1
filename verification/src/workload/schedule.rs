//! The round-robin schedule of the pipeline, counted: which turns do
//! something depends only on how many messages wait on each channel, how
//! many regions wait to come back or are free, the next batch and how many
//! batches are done. Both the kernel pipeline and the baseline follow it
//! turn by turn, so their scheduler statistics are the same.
use vstd::prelude::*;

use crate::workload::pipeline::PipelineConfig;

verus! {

/// Everything the schedule depends on.
pub struct FlowCounts {
    /// `lens[k]` messages wait on channel `k` (`k` feeds transformer `k`,
    /// the last one the sink).
    pub lens: Seq<int>,
    /// Regions on their way back to the producer.
    pub ret: int,
    /// Regions free at the producer.
    pub free: int,
    pub next: int,
    pub done: int,
}

/// The length of each queue.
pub open spec fn lens_of<M>(q: Seq<Seq<M>>) -> Seq<int> {
    q.map_values(|x: Seq<M>| x.len() as int)
}

/// The counts before the first turn: every channel empty, every region
/// free.
pub open spec fn initial_counts(cfg: PipelineConfig) -> FlowCounts {
    FlowCounts {
        lens: Seq::new((cfg.stages + 1) as nat, |k: int| 0int),
        ret: 0,
        free: cfg.pool as int,
        next: 0,
        done: 0,
    }
}

/// One turn of the stage at position `t` (supervisor, sink, transformers
/// downstream first, producer), with `n` transformers and `b` batches: the
/// counts after it, and whether it did anything.
pub open spec fn flow_turn(c: FlowCounts, t: int, n: int, b: int) -> (FlowCounts, bool) {
    if t == 0 {
        (c, false)
    } else if t == 1 {
        if c.lens[n] > 0 {
            (FlowCounts { lens: c.lens.update(n, c.lens[n] - 1), ret: c.ret + 1, done: c.done + 1, ..c }, true)
        } else {
            (c, false)
        }
    } else if t <= n + 1 {
        let i = n + 1 - t;
        if c.lens[i] > 0 {
            (FlowCounts { lens: c.lens.update(i, c.lens[i] - 1).update(i + 1, c.lens[i + 1] + 1), ..c }, true)
        } else {
            (c, false)
        }
    } else {
        let f = c.free + c.ret;
        if c.next < b && f > 0 {
            (
                FlowCounts { lens: c.lens.update(0, c.lens[0] + 1), ret: 0, free: f - 1, next: c.next + 1, ..c },
                true,
            )
        } else if c.ret > 0 {
            (FlowCounts { ret: 0, free: f, ..c }, true)
        } else {
            (c, false)
        }
    }
}

/// The turns, and the idle ones among them, from position `t` with
/// `streak` idle turns in a row behind, until every batch is done or more
/// turns than there are stages in a row do nothing (at most `fuel`).
pub open spec fn schedule(c: FlowCounts, t: int, streak: int, n: int, b: int, fuel: nat) -> (int, int)
    decreases fuel,
{
    if fuel == 0 || c.done >= b {
        (0, 0)
    } else {
        let (c2, progressed) = flow_turn(c, t, n, b);
        let t2 = if t + 1 == n + 3 {
            0
        } else {
            t + 1
        };
        if progressed {
            let r = schedule(c2, t2, 0, n, b, (fuel - 1) as nat);
            (r.0 + 1, r.1)
        } else if streak + 1 > n + 3 {
            (1, 1)
        } else {
            let r = schedule(c, t2, streak + 1, n, b, (fuel - 1) as nat);
            (r.0 + 1, r.1 + 1)
        }
    }
}

/// More turns than any run of `cfg` takes.
pub open spec fn turn_budget(cfg: PipelineConfig) -> nat {
    ((2 * cfg.batches * (cfg.stages + 2) + 1) * (cfg.stages + 4)) as nat
}

/// The scheduler turns, and the idle ones among them, of a run of `cfg`.
pub open spec fn schedule_stats(cfg: PipelineConfig) -> (int, int) {
    schedule(initial_counts(cfg), 0, 0, cfg.stages as int, cfg.batches as int, turn_budget(cfg))
}

} // verus!
