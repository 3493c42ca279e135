//! The worklist fixed-point iteration over a function's blocks.
use vstd::prelude::*;
use crate::catalog::{Catalog, Effect};
use crate::cfg::{Cfg, EdgeKind, block_out, block_wf, is_shielded, lemma_block_monotone, propagates, run_block, shielded};
use crate::context::{
    Context, Solution, block_settled, edge_holds, is_least_solution, is_solution, join_opt, le_all,
    le_opt, lemma_join_opt, lemma_le_opt_trans, lemma_rank_opt, lemma_total_rank_bound,
    lemma_total_rank_update, shaped, total_rank, visit_bound,
};
use crate::diagnosis::{Point, dup_at, dup_justified, dup_op_at, is_dup_point, lemma_block_dup, lemma_dup_point_kept};
use crate::domain::{Ownership, le_state, lemma_join_is_lub};

verus! {

/// Why a function yields no fixed point.
#[derive(Clone, Copy, Debug, PartialEq, Eq, Structural)]
pub enum AnalysisError {
    /// No entry block, or the graph names a block or value it lacks.
    UnanalyzableFunction,
    /// The visit cap was reached before the worklist emptied.
    IterationLimitExceeded,
}

/// What holds between block visits.
pub open spec fn outer_inv(cfg: Cfg, cat: Seq<(Seq<char>, Effect)>, sol: Solution, wl: Seq<usize>, visits: int) -> bool {
    let nb = cfg.blocks@.len();
    &&& cfg.wf()
    &&& sol.len() == nb
    &&& shaped(sol, cfg.num_values as nat)
    &&& forall|i: int| 0 <= i < wl.len() ==> #[trigger] wl[i] < nb && sol[wl[i] as int] is Some
    &&& le_opt(Some(cfg.init_state()), sol[0])
    &&& forall|c: int| 0 <= c < nb && sol[c] is Some && !wl.contains(c as usize) ==> #[trigger] block_settled(cfg, cat, sol, c)
    &&& forall|y: Solution| #[trigger] is_solution(cfg, cat, y) ==> le_all(sol, y)
    &&& dup_justified(cfg, cat, sol)
    &&& 0 <= visits
    &&& visits + wl.len() <= total_rank(sol)
}

/// What holds while the exit state `out` of block `b`, entered at `sb`, is
/// handed to its first `j` edges.
pub open spec fn inner_inv(
    cfg: Cfg,
    cat: Seq<(Seq<char>, Effect)>,
    sol: Solution,
    wl: Seq<usize>,
    visits: int,
    b: int,
    sb: Seq<Ownership>,
    out: Seq<Ownership>,
    j: int,
) -> bool {
    let nb = cfg.blocks@.len();
    let blk = cfg.blocks@[b];
    &&& cfg.wf()
    &&& 0 <= b < nb
    &&& 0 <= j <= blk.terminator.edges@.len()
    &&& sol.len() == nb
    &&& shaped(sol, cfg.num_values as nat)
    &&& sb.len() == cfg.num_values
    &&& out == block_out(cat, blk, sb)
    &&& out.len() == cfg.num_values
    &&& forall|i: int| 0 <= i < wl.len() ==> #[trigger] wl[i] < nb && sol[wl[i] as int] is Some
    &&& le_opt(Some(cfg.init_state()), sol[0])
    &&& forall|c: int| 0 <= c < nb && c != b && sol[c] is Some && !wl.contains(c as usize) ==> #[trigger] block_settled(cfg, cat, sol, c)
    &&& (sol[b] == Some(sb) || wl.contains(b as usize))
    &&& forall|k: int| 0 <= k < j && propagates(cat, blk, #[trigger] blk.terminator.edges@[k]) ==> le_opt(Some(out), sol[blk.terminator.edges@[k].target as int])
    &&& forall|y: Solution| #[trigger] is_solution(cfg, cat, y) ==> le_all(sol, y)
    &&& forall|y: Solution| #[trigger] is_solution(cfg, cat, y) ==> le_opt(Some(sb), y[b])
    &&& dup_justified(cfg, cat, sol)
    &&& sol[b] is Some
    &&& forall|v: int| 0 <= v < sb.len() && sb[v] == Ownership::Duplicated ==> exists|p: Point| is_dup_point(cfg, cat, sol, v, p)
    &&& 0 <= visits
    &&& visits + wl.len() <= total_rank(sol)
}

proof fn lemma_raise_settled(cfg: Cfg, cat: Seq<(Seq<char>, Effect)>, sol: Solution, t: int, v: Seq<Ownership>, c: int)
    requires
        cfg.wf(),
        sol.len() == cfg.blocks@.len(),
        0 <= t < sol.len(),
        0 <= c < sol.len(),
        c != t,
        le_opt(sol[t], Some(v)),
        block_settled(cfg, cat, sol, c),
    ensures
        block_settled(cfg, cat, sol.update(t, Some(v)), c),
{
    let ns = sol.update(t, Some(v));
    let blk = cfg.blocks@[c];
    assert(block_wf(blk, cfg.blocks@.len(), cfg.num_values as nat));
    assert forall|k: int| 0 <= k < blk.terminator.edges@.len() implies #[trigger] edge_holds(cfg, cat, ns, c, k) by {
        assert(edge_holds(cfg, cat, sol, c, k));
        let e = blk.terminator.edges@[k];
        assert(e.target < cfg.blocks@.len());
        if sol[c] is Some && propagates(cat, blk, e) && e.target as int == t {
            lemma_le_opt_trans(Some(block_out(cat, blk, sol[c]->0)), sol[t], Some(v));
        }
    }
}

proof fn lemma_merge_step(
    cfg: Cfg,
    cat: Seq<(Seq<char>, Effect)>,
    sol: Solution,
    wl: Seq<usize>,
    visits: int,
    b: int,
    sb: Seq<Ownership>,
    out: Seq<Ownership>,
    j: int,
)
    requires
        inner_inv(cfg, cat, sol, wl, visits, b, sb, out, j),
        j < cfg.blocks@[b].terminator.edges@.len(),
    ensures
        ({
            let blk = cfg.blocks@[b];
            let t = blk.terminator.edges@[j].target as int;
            let nv = Some(join_opt(sol[t], out));
            let changed = sol[t] != nv;
            let ns = sol.update(t, nv);
            let nw = if changed { wl.push(t as usize) } else { wl };
            &&& 0 <= t < sol.len()
            &&& (sol[t] is Some ==> sol[t]->0.len() == out.len())
            &&& propagates(cat, blk, blk.terminator.edges@[j]) ==> inner_inv(cfg, cat, ns, nw, visits, b, sb, out, j + 1)
            &&& !propagates(cat, blk, blk.terminator.edges@[j]) ==> inner_inv(cfg, cat, sol, wl, visits, b, sb, out, j + 1)
        }),
{
    let nb = cfg.blocks@.len();
    let blk = cfg.blocks@[b];
    assert(block_wf(blk, nb, cfg.num_values as nat));
    let e = blk.terminator.edges@[j];
    let t = e.target as int;
    assert(0 <= t < nb);
    let old_t = sol[t];
    assert(old_t is Some ==> old_t->0.len() == out.len());
    let nv = Some(join_opt(old_t, out));
    let changed = old_t != nv;
    let ns = sol.update(t, nv);
    let nw = if changed { wl.push(t as usize) } else { wl };
    lemma_join_opt(old_t, out, old_t);
    if !propagates(cat, blk, e) {
        return;
    }
    if !changed {
        assert(ns =~= sol);
        assert(le_opt(Some(out), nv));
        return;
    }
    // the entry state of t rises strictly
    assert forall|i: int| 0 <= i < sol.len() && #[trigger] sol[i] is Some implies ns[i] is Some by {}
    assert forall|c: int, v: int| 0 <= c < ns.len() && #[trigger] dup_at(ns, c, v) implies exists|p: Point| is_dup_point(cfg, cat, ns, v, p) by {
        if c != t || (old_t is Some && old_t->0[v] == Ownership::Duplicated) {
            assert(dup_at(sol, c, v));
            lemma_dup_point_kept(cfg, cat, sol, ns, v);
        } else {
            if old_t is Some {
                lemma_join_is_lub(old_t->0[v], out[v], out[v]);
            }
            assert(out[v] == Ownership::Duplicated);
            lemma_block_dup(cat, blk, sb, v);
            if sb[v] == Ownership::Duplicated {
                lemma_dup_point_kept(cfg, cat, sol, ns, v);
            } else {
                let i = choose|i: int| 0 <= i <= blk.ops@.len() && #[trigger] dup_op_at(cat, blk, i, v);
                let p = Point { block: b as usize, index: i as usize };
                assert(is_dup_point(cfg, cat, ns, v, p));
            }
        }
    }
    assert forall|v: int| 0 <= v < sb.len() && sb[v] == Ownership::Duplicated implies exists|p: Point| is_dup_point(cfg, cat, ns, v, p) by {
        lemma_dup_point_kept(cfg, cat, sol, ns, v);
    }
    lemma_rank_opt(old_t, nv);
    lemma_total_rank_update(sol, t, nv);
    assert(shaped(ns, cfg.num_values as nat)) by {
        assert forall|c: int| 0 <= c < ns.len() && #[trigger] ns[c] is Some implies ns[c]->0.len() == cfg.num_values by {
            if c != t {
                assert(sol[c] is Some);
            }
        }
    }
    assert forall|i: int| 0 <= i < nw.len() implies #[trigger] nw[i] < nb && ns[nw[i] as int] is Some by {
        if i < wl.len() {
            assert(wl[i] < nb && sol[wl[i] as int] is Some);
        }
    }
    if t == 0 {
        lemma_le_opt_trans(Some(cfg.init_state()), old_t, nv);
    }
    assert forall|c: int| 0 <= c < nb && c != b && ns[c] is Some && !nw.contains(c as usize) implies #[trigger] block_settled(cfg, cat, ns, c) by {
        if c == t {
            assert(nw[nw.len() - 1] == t as usize);
        } else {
            if wl.contains(c as usize) {
                let w = choose|w: int| 0 <= w < wl.len() && wl[w] == c as usize;
                assert(nw[w] == c as usize);
            }
            lemma_raise_settled(cfg, cat, sol, t, nv->0, c);
        }
    }
    assert(ns[b] == Some(sb) || nw.contains(b as usize)) by {
        if t == b {
            assert(nw[nw.len() - 1] == b as usize);
        } else if wl.contains(b as usize) {
            let w = choose|w: int| 0 <= w < wl.len() && wl[w] == b as usize;
            assert(nw[w] == b as usize);
        }
    }
    assert forall|k: int| 0 <= k < j + 1 && propagates(cat, blk, #[trigger] blk.terminator.edges@[k]) implies le_opt(Some(out), ns[blk.terminator.edges@[k].target as int]) by {
        let tk = blk.terminator.edges@[k].target as int;
        if k < j && tk == t {
            lemma_le_opt_trans(Some(out), old_t, nv);
        }
    }
    assert forall|y: Solution| #[trigger] is_solution(cfg, cat, y) implies le_all(ns, y) by {
        assert(le_all(sol, y));
        assert(le_opt(Some(sb), y[b]));
        let yb = y[b]->0;
        lemma_block_monotone(cat, blk, sb, yb);
        assert(block_settled(cfg, cat, y, b));
        assert(edge_holds(cfg, cat, y, b, j));
        lemma_le_opt_trans(Some(out), Some(block_out(cat, blk, yb)), y[t]);
        assert(le_opt(old_t, y[t]));
        lemma_join_opt(old_t, out, y[t]);
        assert forall|i: int| 0 <= i < ns.len() implies #[trigger] le_opt(ns[i], y[i]) by {
            if i != t {
                assert(le_opt(sol[i], y[i]));
            }
        }
    }
}

/// Runs the worklist iteration from the seeded context until no block's
/// entry state changes, visiting at most `max_visits` blocks.
pub fn run_to_fixpoint(cfg: &Cfg, cat: &Catalog, max_visits: usize) -> (r: Result<Context, AnalysisError>)
    ensures
        !cfg.wf() <==> r == Err::<Context, AnalysisError>(AnalysisError::UnanalyzableFunction),
        r matches Ok(ctx) ==> is_least_solution(*cfg, cat@, ctx.solution()) && ctx.visits <= visit_bound(*cfg),
        r matches Ok(ctx) ==> shaped(ctx.solution(), cfg.num_values as nat),
        r matches Ok(ctx) ==> dup_justified(*cfg, cat@, ctx.solution()),
        r == Err::<Context, AnalysisError>(AnalysisError::IterationLimitExceeded) ==> max_visits < visit_bound(*cfg),
        max_visits >= visit_bound(*cfg) && cfg.wf() ==> r is Ok,
{
    if !cfg.is_wf() {
        return Err(AnalysisError::UnanalyzableFunction);
    }
    let mut ctx = Context::seed(cfg);
    let n_blocks = cfg.blocks.len();
    let ghost nb = cfg.blocks@.len();
    assert(nb == n_blocks);
    proof {
        let sol = ctx.solution();
        lemma_le_opt_trans(Some(cfg.init_state()), Some(cfg.init_state()), Some(cfg.init_state()));
        assert(sol[0] == Some(cfg.init_state()));
        assert forall|c: int| 0 <= c < nb && sol[c] is Some && !ctx.worklist@.contains(c as usize) implies #[trigger] block_settled(*cfg, cat@, sol, c) by {
            assert(ctx.worklist@[0] == 0usize);
        }
        assert forall|y: Solution| #[trigger] is_solution(*cfg, cat@, y) implies le_all(sol, y) by {
            assert forall|i: int| 0 <= i < sol.len() implies #[trigger] le_opt(sol[i], y[i]) by {}
        }
        lemma_total_rank_update(sol, 0, None);
        assert(shaped(sol, cfg.num_values as nat));
        assert forall|c: int, v: int| 0 <= c < sol.len() && #[trigger] dup_at(sol, c, v) implies exists|p: Point| is_dup_point(*cfg, cat@, sol, v, p) by {
            assert(c == 0);
        }
    }
    while ctx.worklist.len() > 0
        invariant
            outer_inv(*cfg, cat@, ctx.solution(), ctx.worklist@, ctx.visits as int),
            nb == cfg.blocks@.len(),
            nb == n_blocks,
        decreases visit_bound(*cfg) - ctx.visits,
    {
        proof {
            lemma_total_rank_bound(ctx.solution(), cfg.num_values as nat);
        }
        if ctx.visits >= max_visits {
            return Err(AnalysisError::IterationLimitExceeded);
        }
        let ghost wl0 = ctx.worklist@;
        let b = ctx.worklist.pop().unwrap();
        ctx.visits = ctx.visits + 1;
        let ghost v1 = ctx.visits;
        let ghost sol0 = ctx.solution();
        assert(wl0[wl0.len() - 1] == b);
        assert(wl0 =~= ctx.worklist@.push(b));
        let mut out = ctx.state_at(b);
        let ghost sb = out@;
        let blk = &cfg.blocks[b];
        assert(block_wf(*blk, nb, cfg.num_values as nat));
        run_block(cat, blk, &mut out);
        let shield = is_shielded(cat, blk);
        proof {
            lemma_block_monotone(cat@, *blk, sb, sb);
            let sol = sol0;
            let wl = ctx.worklist@;
            assert forall|i: int| 0 <= i < wl.len() implies #[trigger] wl[i] < nb && sol[wl[i] as int] is Some by {
                assert(wl0[i] == wl[i]);
            }
            assert forall|c: int| 0 <= c < nb && c != b && sol[c] is Some && !wl.contains(c as usize) implies #[trigger] block_settled(*cfg, cat@, sol, c) by {
                if wl0.contains(c as usize) {
                    let w = choose|w: int| 0 <= w < wl0.len() && wl0[w] == c as usize;
                    assert(w != wl.len());
                    assert(wl.push(b)[w] == wl[w]);
                    assert(wl.contains(c as usize));
                }
            }
            assert forall|y: Solution| #[trigger] is_solution(*cfg, cat@, y) implies le_opt(Some(sb), y[b as int]) by {
                assert(le_all(sol, y));
                assert(le_opt(sol[b as int], y[b as int]));
            }
            assert forall|v: int| 0 <= v < sb.len() && sb[v] == Ownership::Duplicated implies exists|p: Point| is_dup_point(*cfg, cat@, sol, v, p) by {
                assert(dup_at(sol, b as int, v));
            }
            assert(inner_inv(*cfg, cat@, sol, wl, ctx.visits as int, b as int, sb, out@, 0));
        }
        let mut j: usize = 0;
        while j < blk.terminator.edges.len()
            invariant
                inner_inv(*cfg, cat@, ctx.solution(), ctx.worklist@, ctx.visits as int, b as int, sb, out@, j as int),
                *blk == cfg.blocks@[b as int],
                shield == shielded(cat@, *blk),
                nb == cfg.blocks@.len(),
                nb == n_blocks,
                ctx.visits == v1,
            decreases blk.terminator.edges@.len() - j,
        {
            let e = blk.terminator.edges[j];
            proof {
                lemma_merge_step(*cfg, cat@, ctx.solution(), ctx.worklist@, ctx.visits as int, b as int, sb, out@, j as int);
            }
            if e.kind == EdgeKind::Normal || !shield {
                ctx.merge_into(e.target, &out);
            }
            j += 1;
        }
        proof {
            let sol = ctx.solution();
            let wl = ctx.worklist@;
            assert forall|c: int| 0 <= c < nb && sol[c] is Some && !wl.contains(c as usize) implies #[trigger] block_settled(*cfg, cat@, sol, c) by {
                if c == b {
                    assert forall|k: int| 0 <= k < blk.terminator.edges@.len() implies #[trigger] edge_holds(*cfg, cat@, sol, c, k) by {
                        if propagates(cat@, *blk, blk.terminator.edges@[k]) {
                            assert(le_opt(Some(out@), sol[blk.terminator.edges@[k].target as int]));
                        }
                    }
                }
            }
            lemma_total_rank_bound(sol, cfg.num_values as nat);
        }
    }
    proof {
        let sol = ctx.solution();
        assert forall|c: int| 0 <= c < sol.len() implies #[trigger] block_settled(*cfg, cat@, sol, c) by {
            if sol[c] is None {
                assert forall|k: int| 0 <= k < cfg.blocks@[c].terminator.edges@.len() implies #[trigger] edge_holds(*cfg, cat@, sol, c, k) by {}
            }
        }
        assert(is_solution(*cfg, cat@, sol));
        lemma_total_rank_bound(sol, cfg.num_values as nat);
    }
    Ok(ctx)
}

} // verus!
