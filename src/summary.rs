//! Coarse per-function summaries, and a driver that analyses functions one
//! after another, reusing the summaries of those already analysed.
use vstd::prelude::*;
use crate::catalog::{Catalog, Effect};
use crate::cfg::{Cfg, block_out, block_wf, lemma_block_monotone, run_block};
use crate::context::{Context, Solution, least_solution, lemma_least_unique, shaped, visit_bound};
use crate::diagnosis::{Finding, diagnose, findings};
use crate::domain::Ownership;
use crate::visitor::run_to_fixpoint;

verus! {

/// Some value is still duplicated when the function leaves through block `h`
/// (a reached block without successors: a return, or the end of unwinding).
pub open spec fn escapes_at(cfg: Cfg, cat: Seq<(Seq<char>, Effect)>, sol: Solution, h: int, v: int) -> bool {
    &&& 0 <= h < cfg.blocks@.len()
    &&& 0 <= v < cfg.num_values
    &&& sol[h] is Some
    &&& cfg.blocks@[h].terminator.edges@.len() == 0
    &&& block_out(cat, cfg.blocks@[h], sol[h]->0)[v] == Ownership::Duplicated
}

/// What a call of the function does, seen from its callers: it hands out a
/// duplicate when one escapes through an exit, and nothing otherwise.
pub open spec fn summary_effect(cfg: Cfg, cat: Seq<(Seq<char>, Effect)>, sol: Solution) -> Effect {
    if exists|h: int, v: int| escapes_at(cfg, cat, sol, h, v) {
        Effect::DuplicatesOperand
    } else {
        Effect::NoEffect
    }
}

/// The summary of a function from its converged context.
pub fn summarize(cfg: &Cfg, cat: &Catalog, ctx: &Context) -> (r: Effect)
    requires
        cfg.wf(),
        ctx.solution().len() == cfg.blocks@.len(),
        shaped(ctx.solution(), cfg.num_values as nat),
    ensures
        r == summary_effect(*cfg, cat@, ctx.solution()),
{
    let ghost sol = ctx.solution();
    let nb = cfg.blocks.len();
    let nv = cfg.num_values;
    let mut h: usize = 0;
    while h < nb
        invariant
            cfg.wf(),
            nb == cfg.blocks@.len(),
            nv == cfg.num_values,
            sol == ctx.solution(),
            sol.len() == nb,
            shaped(sol, nv as nat),
            h <= nb,
            forall|g: int, v: int| 0 <= g < h ==> !#[trigger] escapes_at(*cfg, cat@, sol, g, v),
        decreases nb - h,
    {
        let blk = &cfg.blocks[h];
        let is_exit = match &ctx.states[h] {
            Some(_) => blk.terminator.edges.len() == 0,
            None => false,
        };
        if is_exit {
            let mut out = ctx.state_at(h);
            let ghost sh = out@;
            assert(block_wf(*blk, nb as nat, nv as nat));
            run_block(cat, blk, &mut out);
            proof {
                lemma_block_monotone(cat@, *blk, sh, sh);
            }
            let mut v: usize = 0;
            while v < nv
                invariant
                    nb == cfg.blocks@.len(),
                    nv == cfg.num_values,
                    sol == ctx.solution(),
                    h < nb,
                    *blk == cfg.blocks@[h as int],
                    sol[h as int] is Some,
                    blk.terminator.edges@.len() == 0,
                    out@ == block_out(cat@, *blk, sol[h as int]->0),
                    out@.len() == nv,
                    v <= nv,
                    forall|w: int| 0 <= w < v ==> !#[trigger] escapes_at(*cfg, cat@, sol, h as int, w),
                decreases nv - v,
            {
                if out[v] == Ownership::Duplicated {
                    assert(escapes_at(*cfg, cat@, sol, h as int, v as int));
                    return Effect::DuplicatesOperand;
                }
                v += 1;
            }
        }
        h += 1;
    }
    Effect::NoEffect
}

/// Configuration and summary cache for a run over many functions. The
/// catalog holds the known operations, followed by the summaries of the
/// functions analysed so far.
pub struct Analyzer {
    pub catalog: Catalog,
    pub enable_summaries: bool,
    pub max_iterations: usize,
}

impl Analyzer {
    pub fn new(catalog: Catalog, enable_summaries: bool, max_iterations: usize) -> (r: Analyzer)
        ensures
            r.catalog@ == catalog@,
            r.enable_summaries == enable_summaries,
            r.max_iterations == max_iterations,
    {
        Analyzer { catalog, enable_summaries, max_iterations }
    }

    /// Analyses the function `name`. With summaries enabled and a fixed point
    /// reached, its summary is recorded, so later calls of `name` take it as
    /// their effect.
    pub fn analyze(&mut self, name: &str, cfg: &Cfg) -> (r: Vec<Finding>)
        ensures
            final(self).enable_summaries == old(self).enable_summaries,
            final(self).max_iterations == old(self).max_iterations,
            !cfg.wf() ==> r@ == Seq::<Finding>::empty() && final(self).catalog@ == old(self).catalog@,
            cfg.wf() && old(self).max_iterations >= visit_bound(*cfg) ==> r@ == findings(
                *cfg,
                old(self).catalog@,
                least_solution(*cfg, old(self).catalog@),
            ),
            r@ == Seq::<Finding>::empty() || r@ == findings(*cfg, old(self).catalog@, least_solution(*cfg, old(self).catalog@)),
            final(self).catalog@ == old(self).catalog@ || (old(self).enable_summaries && cfg.wf()
                && final(self).catalog@ == old(self).catalog@.push(
                (name@, summary_effect(*cfg, old(self).catalog@, least_solution(*cfg, old(self).catalog@))),
            )),
            old(self).enable_summaries && cfg.wf() && old(self).max_iterations >= visit_bound(*cfg)
                ==> final(self).catalog@ == old(self).catalog@.push(
                (name@, summary_effect(*cfg, old(self).catalog@, least_solution(*cfg, old(self).catalog@))),
            ),
    {
        match run_to_fixpoint(cfg, &self.catalog, self.max_iterations) {
            Ok(ctx) => {
                proof {
                    lemma_least_unique(*cfg, self.catalog@, ctx.solution());
                }
                let r = diagnose(cfg, &self.catalog, &ctx);
                if self.enable_summaries {
                    let effect = summarize(cfg, &self.catalog, &ctx);
                    self.catalog.add(name, effect);
                }
                r
            },
            Err(_) => Vec::new(),
        }
    }
}

} // verus!
