//! Reading hazards off a converged context.
use vstd::prelude::*;
use crate::catalog::{Catalog, Effect};
use crate::cfg::{
    BasicBlock, Cfg, EdgeKind, Operation, block_ops_wf, block_out, block_wf, is_shielded,
    lemma_block_monotone, lemma_ops_monotone, op_effect, op_wf, ops_out, run_block, shielded,
};
use crate::context::{Context, Solution, is_least_solution, least_solution, lemma_least_unique, shaped, visit_bound};
use crate::domain::{Ownership, lemma_le_state_order};
use crate::visitor::{AnalysisError, run_to_fixpoint};

verus! {

/// A program point: operation `index` of a block, where the index equal to
/// the number of operations stands for the terminator's call.
#[derive(Clone, Copy, Debug, PartialEq, Eq, Structural)]
pub struct Point {
    pub block: usize,
    pub index: usize,
}

#[derive(Clone, Copy, Debug, PartialEq, Eq, Structural)]
pub enum HazardKind {
    DoubleFreeOnUnwind,
}

#[derive(Clone, Copy, Debug, PartialEq, Eq, Structural)]
pub enum Severity {
    /// A definite double-free risk, not a heuristic score.
    Definite,
}

/// A value left duplicated where a block's terminator may unwind.
#[derive(Clone, Copy, Debug, PartialEq, Eq, Structural)]
pub struct Finding {
    pub kind: HazardKind,
    pub value: usize,
    pub duplicated_at: Point,
    pub exposed_at: usize,
    pub severity: Severity,
}

pub open spec fn op_at(blk: BasicBlock, i: int) -> Option<Operation> {
    if 0 <= i < blk.ops@.len() {
        Some(blk.ops@[i])
    } else if i == blk.ops@.len() {
        blk.terminator.call
    } else {
        None
    }
}

/// Operation `i` of the block duplicates value `v`.
pub open spec fn dup_op_at(cat: Seq<(Seq<char>, Effect)>, blk: BasicBlock, i: int, v: int) -> bool {
    match op_at(blk, i) {
        Some(op) => op.operand == v && op_effect(cat, op) == Effect::DuplicatesOperand,
        None => false,
    }
}

/// A reached point whose operation duplicates value `v`.
pub open spec fn is_dup_point(cfg: Cfg, cat: Seq<(Seq<char>, Effect)>, sol: Solution, v: int, p: Point) -> bool {
    &&& p.block < cfg.blocks@.len()
    &&& sol[p.block as int] is Some
    &&& dup_op_at(cat, cfg.blocks@[p.block as int], p.index as int, v)
}

/// Value `v` is duplicated on entry to reached block `b`.
pub open spec fn dup_at(sol: Solution, b: int, v: int) -> bool {
    &&& sol[b] is Some
    &&& 0 <= v < sol[b]->0.len()
    &&& sol[b]->0[v] == Ownership::Duplicated
}

/// Every value duplicated on entry to a reached block was duplicated by
/// some reached operation.
pub open spec fn dup_justified(cfg: Cfg, cat: Seq<(Seq<char>, Effect)>, sol: Solution) -> bool {
    forall|b: int, v: int| 0 <= b < sol.len() && #[trigger] dup_at(sol, b, v) ==> exists|p: Point| is_dup_point(cfg, cat, sol, v, p)
}

/// A value that leaves a run of operations duplicated entered duplicated,
/// or one of the operations duplicated it.
pub proof fn lemma_ops_dup(cat: Seq<(Seq<char>, Effect)>, ops: Seq<Operation>, s: Seq<Ownership>, v: int)
    requires
        0 <= v < s.len(),
        forall|i: int| 0 <= i < ops.len() ==> op_wf(#[trigger] ops[i], s.len()),
        ops_out(cat, ops, s)[v] == Ownership::Duplicated,
    ensures
        s[v] == Ownership::Duplicated || exists|i: int| 0 <= i < ops.len() && (#[trigger] ops[i]).operand == v
            && op_effect(cat, ops[i]) == Effect::DuplicatesOperand,
    decreases ops.len(),
{
    if ops.len() > 0 {
        let o = ops.drop_last();
        let last = ops.last();
        assert forall|i: int| 0 <= i < o.len() implies op_wf(#[trigger] o[i], s.len()) by {
            assert(op_wf(ops[i], s.len()));
        }
        lemma_le_state_order(s, s, s);
        lemma_ops_monotone(cat, o, s, s);
        if last.operand == v && op_effect(cat, last) == Effect::DuplicatesOperand {
            assert(ops[ops.len() - 1] == last);
        } else {
            assert(op_wf(ops[ops.len() - 1], s.len()));
            lemma_ops_dup(cat, o, s, v);
            if s[v] != Ownership::Duplicated {
                let i = choose|i: int| 0 <= i < o.len() && (#[trigger] o[i]).operand == v
                    && op_effect(cat, o[i]) == Effect::DuplicatesOperand;
                assert(ops[i] == o[i]);
            }
        }
    }
}

/// A value that leaves a block duplicated entered it duplicated, or an
/// operation of the block duplicated it.
pub proof fn lemma_block_dup(cat: Seq<(Seq<char>, Effect)>, blk: BasicBlock, s: Seq<Ownership>, v: int)
    requires
        0 <= v < s.len(),
        block_ops_wf(blk, s.len()),
        block_out(cat, blk, s)[v] == Ownership::Duplicated,
    ensures
        s[v] == Ownership::Duplicated || exists|i: int| 0 <= i <= blk.ops@.len() && #[trigger] dup_op_at(cat, blk, i, v),
{
    let ops = blk.ops@;
    lemma_le_state_order(s, s, s);
    lemma_ops_monotone(cat, ops, s, s);
    let t = ops_out(cat, ops, s);
    let through_call = match blk.terminator.call {
        Some(op) => op.operand == v && op_effect(cat, op) == Effect::DuplicatesOperand,
        None => false,
    };
    if through_call {
        assert(dup_op_at(cat, blk, ops.len() as int, v));
    } else {
        assert(t[v] == Ownership::Duplicated);
        lemma_ops_dup(cat, ops, s, v);
        if s[v] != Ownership::Duplicated {
            let i = choose|i: int| 0 <= i < ops.len() && (#[trigger] ops[i]).operand == v
                && op_effect(cat, ops[i]) == Effect::DuplicatesOperand;
            assert(dup_op_at(cat, blk, i, v));
        }
    }
}

/// Dup points stay dup points as more blocks are reached.
pub proof fn lemma_dup_point_kept(cfg: Cfg, cat: Seq<(Seq<char>, Effect)>, sol: Solution, ns: Solution, v: int)
    requires
        sol.len() == ns.len(),
        forall|i: int| 0 <= i < sol.len() && #[trigger] sol[i] is Some ==> ns[i] is Some,
        exists|p: Point| is_dup_point(cfg, cat, sol, v, p),
        sol.len() == cfg.blocks@.len(),
    ensures
        exists|p: Point| is_dup_point(cfg, cat, ns, v, p),
{
    let p = choose|p: Point| is_dup_point(cfg, cat, sol, v, p);
    assert(sol[p.block as int] is Some);
    assert(is_dup_point(cfg, cat, ns, v, p));
}

/// Where some reached point duplicates `v`, an earliest one exists.
pub proof fn lemma_first_dup_exists(cfg: Cfg, cat: Seq<(Seq<char>, Effect)>, sol: Solution, v: int, p: Point)
    requires
        is_dup_point(cfg, cat, sol, v, p),
    ensures
        first_dup(cfg, cat, sol, v) is Some,
    decreases p.block, p.index,
{
    if !is_first_dup(cfg, cat, sol, v, p) {
        let q = choose|q: Point| #[trigger] is_dup_point(cfg, cat, sol, v, q) && !point_le(p, q);
        lemma_first_dup_exists(cfg, cat, sol, v, q);
    }
}

pub open spec fn point_le(p: Point, q: Point) -> bool {
    p.block < q.block || (p.block == q.block && p.index <= q.index)
}

pub open spec fn is_first_dup(cfg: Cfg, cat: Seq<(Seq<char>, Effect)>, sol: Solution, v: int, p: Point) -> bool {
    &&& is_dup_point(cfg, cat, sol, v, p)
    &&& forall|q: Point| #[trigger] is_dup_point(cfg, cat, sol, v, q) ==> point_le(p, q)
}

/// The earliest reached point, in block then operation order, that
/// duplicates `v`.
pub open spec fn first_dup(cfg: Cfg, cat: Seq<(Seq<char>, Effect)>, sol: Solution, v: int) -> Option<Point> {
    if exists|p: Point| is_first_dup(cfg, cat, sol, v, p) {
        Some(choose|p: Point| is_first_dup(cfg, cat, sol, v, p))
    } else {
        None
    }
}

pub open spec fn has_unwind_edge(blk: BasicBlock) -> bool {
    exists|k: int| 0 <= k < blk.terminator.edges@.len() && (#[trigger] blk.terminator.edges@[k]).kind == EdgeKind::Unwind
}

/// Block `h` is reached and its exit state flows along an unwind edge.
pub open spec fn exposes(cfg: Cfg, cat: Seq<(Seq<char>, Effect)>, sol: Solution, h: int) -> bool {
    let blk = cfg.blocks@[h];
    &&& sol[h] is Some
    &&& has_unwind_edge(blk)
    &&& !shielded(cat, blk)
}

/// Value `v` is still duplicated when block `h` may unwind.
pub open spec fn hazard(cfg: Cfg, cat: Seq<(Seq<char>, Effect)>, sol: Solution, h: int, v: int) -> bool {
    &&& exposes(cfg, cat, sol, h)
    &&& block_out(cat, cfg.blocks@[h], sol[h]->0)[v] == Ownership::Duplicated
}

pub open spec fn finding_for(cfg: Cfg, cat: Seq<(Seq<char>, Effect)>, sol: Solution, h: int, v: int) -> Finding {
    Finding {
        kind: HazardKind::DoubleFreeOnUnwind,
        value: v as usize,
        duplicated_at: first_dup(cfg, cat, sol, v)->0,
        exposed_at: h as usize,
        severity: Severity::Definite,
    }
}

/// The findings of block `h` for the values below `n`, in value order.
pub open spec fn block_findings(cfg: Cfg, cat: Seq<(Seq<char>, Effect)>, sol: Solution, h: int, n: nat) -> Seq<Finding>
    decreases n,
{
    if n == 0 {
        Seq::empty()
    } else {
        let prev = block_findings(cfg, cat, sol, h, (n - 1) as nat);
        if hazard(cfg, cat, sol, h, n - 1) {
            prev.push(finding_for(cfg, cat, sol, h, n - 1))
        } else {
            prev
        }
    }
}

/// The findings of the blocks below `n`, in block order.
pub open spec fn findings_upto(cfg: Cfg, cat: Seq<(Seq<char>, Effect)>, sol: Solution, n: nat) -> Seq<Finding>
    decreases n,
{
    if n == 0 {
        Seq::empty()
    } else {
        findings_upto(cfg, cat, sol, (n - 1) as nat) + block_findings(cfg, cat, sol, n - 1, cfg.num_values as nat)
    }
}

pub open spec fn findings(cfg: Cfg, cat: Seq<(Seq<char>, Effect)>, sol: Solution) -> Seq<Finding> {
    findings_upto(cfg, cat, sol, cfg.blocks@.len())
}

fn duplicates(cat: &Catalog, op: &Operation, v: usize) -> (r: bool)
    ensures
        r == (op.operand == v && op_effect(cat@, *op) == Effect::DuplicatesOperand),
{
    op.operand == v && cat.effect_of(&op.name) == Effect::DuplicatesOperand
}

proof fn lemma_found(cfg: Cfg, cat: Seq<(Seq<char>, Effect)>, sol: Solution, v: int, p: Point)
    requires
        is_first_dup(cfg, cat, sol, v, p),
    ensures
        first_dup(cfg, cat, sol, v) == Some(p),
{
    let c = choose|c: Point| is_first_dup(cfg, cat, sol, v, c);
    assert(point_le(c, p) && point_le(p, c));
}

/// Finds the earliest reached point that duplicates `v`.
pub fn find_first_dup(cfg: &Cfg, cat: &Catalog, ctx: &Context, v: usize) -> (r: Option<Point>)
    requires
        ctx.solution().len() == cfg.blocks@.len(),
    ensures
        r == first_dup(*cfg, cat@, ctx.solution(), v as int),
{
    let ghost sol = ctx.solution();
    let nb = cfg.blocks.len();
    let mut b: usize = 0;
    while b < nb
        invariant
            nb == cfg.blocks@.len(),
            sol == ctx.solution(),
            sol.len() == nb,
            b <= nb,
            forall|q: Point| #[trigger] is_dup_point(*cfg, cat@, sol, v as int, q) ==> q.block >= b,
        decreases nb - b,
    {
        let reached = match &ctx.states[b] {
            Some(_) => true,
            None => false,
        };
        assert(reached == (sol[b as int] is Some));
        if reached {
            let blk = &cfg.blocks[b];
            let n_ops = blk.ops.len();
            let mut i: usize = 0;
            while i < n_ops
                invariant
                    nb == cfg.blocks@.len(),
                    sol == ctx.solution(),
                    sol.len() == nb,
                    b < nb,
                    sol[b as int] is Some,
                    *blk == cfg.blocks@[b as int],
                    n_ops == blk.ops@.len(),
                    i <= n_ops,
                    forall|q: Point| #[trigger] is_dup_point(*cfg, cat@, sol, v as int, q) ==> q.block > b || (q.block == b && q.index >= i),
                decreases n_ops - i,
            {
                if duplicates(cat, &blk.ops[i], v) {
                    let p = Point { block: b, index: i };
                    proof {
                        assert(is_dup_point(*cfg, cat@, sol, v as int, p));
                        lemma_found(*cfg, cat@, sol, v as int, p);
                    }
                    return Some(p);
                }
                assert(!is_dup_point(*cfg, cat@, sol, v as int, Point { block: b, index: i }));
                i += 1;
            }
            match &blk.terminator.call {
                Some(op) => {
                    if duplicates(cat, op, v) {
                        let p = Point { block: b, index: n_ops };
                        proof {
                            assert(is_dup_point(*cfg, cat@, sol, v as int, p));
                            lemma_found(*cfg, cat@, sol, v as int, p);
                        }
                        return Some(p);
                    }
                },
                None => {},
            }
            assert(!is_dup_point(*cfg, cat@, sol, v as int, Point { block: b, index: n_ops }));
            assert forall|q: Point| #[trigger] is_dup_point(*cfg, cat@, sol, v as int, q) implies q.block >= b + 1 by {
                if q.block == b {
                    assert(op_at(cfg.blocks@[b as int], q.index as int) is Some);
                }
            }
        }
        b += 1;
    }
    proof {
        if exists|p: Point| is_first_dup(*cfg, cat@, sol, v as int, p) {
            let p = choose|p: Point| is_first_dup(*cfg, cat@, sol, v as int, p);
            assert(is_dup_point(*cfg, cat@, sol, v as int, p));
        }
    }
    None
}

proof fn lemma_unexposed_block(cfg: Cfg, cat: Seq<(Seq<char>, Effect)>, sol: Solution, h: int, n: nat)
    requires
        !exposes(cfg, cat, sol, h),
    ensures
        block_findings(cfg, cat, sol, h, n) == Seq::<Finding>::empty(),
    decreases n,
{
    if n > 0 {
        lemma_unexposed_block(cfg, cat, sol, h, (n - 1) as nat);
    }
}

/// Whether some edge of the block is an unwind edge.
pub fn has_unwind(blk: &BasicBlock) -> (r: bool)
    ensures
        r == has_unwind_edge(*blk),
{
    let mut k: usize = 0;
    while k < blk.terminator.edges.len()
        invariant
            k <= blk.terminator.edges@.len(),
            forall|j: int| 0 <= j < k ==> (#[trigger] blk.terminator.edges@[j]).kind != EdgeKind::Unwind,
        decreases blk.terminator.edges@.len() - k,
    {
        if blk.terminator.edges[k].kind == EdgeKind::Unwind {
            assert(blk.terminator.edges@[k as int].kind == EdgeKind::Unwind);
            return true;
        }
        k += 1;
    }
    false
}

/// Reports every value that is still duplicated where a reached block may
/// unwind unshielded, by block and then by value.
pub fn diagnose(cfg: &Cfg, cat: &Catalog, ctx: &Context) -> (r: Vec<Finding>)
    requires
        cfg.wf(),
        ctx.solution().len() == cfg.blocks@.len(),
        shaped(ctx.solution(), cfg.num_values as nat),
        dup_justified(*cfg, cat@, ctx.solution()),
    ensures
        r@ == findings(*cfg, cat@, ctx.solution()),
{
    let ghost sol = ctx.solution();
    let nb = cfg.blocks.len();
    let nv = cfg.num_values;
    let mut r: Vec<Finding> = Vec::new();
    let mut h: usize = 0;
    while h < nb
        invariant
            cfg.wf(),
            nb == cfg.blocks@.len(),
            nv == cfg.num_values,
            sol == ctx.solution(),
            sol.len() == nb,
            shaped(sol, nv as nat),
            dup_justified(*cfg, cat@, sol),
            h <= nb,
            r@ == findings_upto(*cfg, cat@, sol, h as nat),
        decreases nb - h,
    {
        let blk = &cfg.blocks[h];
        let ghost before = r@;
        let exposed = match &ctx.states[h] {
            None => false,
            Some(_) => has_unwind(blk) && !is_shielded(cat, blk),
        };
        assert(exposed == exposes(*cfg, cat@, sol, h as int));
        if exposed {
            let mut out = ctx.state_at(h);
            let ghost sh = out@;
            assert(block_wf(*blk, nb as nat, nv as nat));
            run_block(cat, blk, &mut out);
            proof {
                lemma_block_monotone(cat@, *blk, sh, sh);
            }
            let n_ops = blk.ops.len();
            let mut v: usize = 0;
            while v < nv
                invariant
                    nb == cfg.blocks@.len(),
                    nv == cfg.num_values,
                    n_ops == blk.ops@.len(),
                    sol == ctx.solution(),
                    sol.len() == nb,
                    h < nb,
                    *blk == cfg.blocks@[h as int],
                    exposes(*cfg, cat@, sol, h as int),
                    out@ == block_out(cat@, *blk, sol[h as int]->0),
                    out@.len() == nv,
                    sol[h as int]->0.len() == nv,
                    block_wf(*blk, nb as nat, nv as nat),
                    dup_justified(*cfg, cat@, sol),
                    v <= nv,
                    r@ == before + block_findings(*cfg, cat@, sol, h as int, v as nat),
                decreases nv - v,
            {
                if out[v] == Ownership::Duplicated {
                    match find_first_dup(cfg, cat, ctx, v) {
                        Some(p) => {
                            r.push(
                                Finding {
                                    kind: HazardKind::DoubleFreeOnUnwind,
                                    value: v,
                                    duplicated_at: p,
                                    exposed_at: h,
                                    severity: Severity::Definite,
                                },
                            );
                        },
                        None => {
                            proof {
                                lemma_block_dup(cat@, *blk, sol[h as int]->0, v as int);
                                if sol[h as int]->0[v as int] == Ownership::Duplicated {
                                    assert(dup_at(sol, h as int, v as int));
                                    let p = choose|p: Point| is_dup_point(*cfg, cat@, sol, v as int, p);
                                    lemma_first_dup_exists(*cfg, cat@, sol, v as int, p);
                                } else {
                                    let i = choose|i: int| 0 <= i <= blk.ops@.len() && #[trigger] dup_op_at(cat@, *blk, i, v as int);
                                    let p = Point { block: h, index: i as usize };
                                    assert(is_dup_point(*cfg, cat@, sol, v as int, p));
                                    lemma_first_dup_exists(*cfg, cat@, sol, v as int, p);
                                }
                            }
                        },
                    }
                }
                v += 1;
                assert(r@ =~= before + block_findings(*cfg, cat@, sol, h as int, v as nat));
            }
        } else {
            proof {
                lemma_unexposed_block(*cfg, cat@, sol, h as int, nv as nat);
            }
        }
        h += 1;
        assert(r@ =~= findings_upto(*cfg, cat@, sol, h as nat));
    }
    r
}

/// Analyses one function: the findings at its least fixed point, or none when
/// it cannot be analysed or the visit cap is reached first.
pub fn analyze_function(cfg: &Cfg, cat: &Catalog, max_visits: usize) -> (r: Vec<Finding>)
    ensures
        !cfg.wf() ==> r@ == Seq::<Finding>::empty(),
        cfg.wf() && max_visits >= visit_bound(*cfg) ==> r@ == findings(*cfg, cat@, least_solution(*cfg, cat@)),
        r@ == Seq::<Finding>::empty() || r@ == findings(*cfg, cat@, least_solution(*cfg, cat@)),
{
    match run_to_fixpoint(cfg, cat, max_visits) {
        Ok(ctx) => {
            proof {
                lemma_least_unique(*cfg, cat@, ctx.solution());
            }
            diagnose(cfg, cat, &ctx)
        },
        Err(_) => Vec::new(),
    }
}

proof fn lemma_block_findings_shape(cfg: Cfg, cat: Seq<(Seq<char>, Effect)>, sol: Solution, h: int, n: nat)
    requires
        0 <= h <= usize::MAX,
        n <= cfg.num_values,
    ensures
        block_findings(cfg, cat, sol, h, n).no_duplicates(),
        forall|i: int| 0 <= i < block_findings(cfg, cat, sol, h, n).len() ==> {
            let f = #[trigger] block_findings(cfg, cat, sol, h, n)[i];
            f.exposed_at == h && f.value < n && hazard(cfg, cat, sol, h, f.value as int)
                && f == finding_for(cfg, cat, sol, h, f.value as int)
        },
    decreases n,
{
    if n > 0 {
        lemma_block_findings_shape(cfg, cat, sol, h, (n - 1) as nat);
        let prev = block_findings(cfg, cat, sol, h, (n - 1) as nat);
        if hazard(cfg, cat, sol, h, n - 1) {
            let f = finding_for(cfg, cat, sol, h, n - 1);
            assert(!prev.contains(f)) by {
                if prev.contains(f) {
                    let i = choose|i: int| 0 <= i < prev.len() && prev[i] == f;
                    assert(prev[i].value < n - 1);
                }
            }
            assert forall|i: int, j: int| 0 <= i < j < prev.push(f).len() implies prev.push(f)[i] != prev.push(f)[j] by {
                if j == prev.len() {
                    assert(prev[i] != f);
                } else {
                    assert(prev[i] != prev[j]);
                }
            }
            assert forall|i: int| 0 <= i < prev.push(f).len() implies ({
                let g = #[trigger] prev.push(f)[i];
                g.exposed_at == h && g.value < n && hazard(cfg, cat, sol, h, g.value as int)
                    && g == finding_for(cfg, cat, sol, h, g.value as int)
            }) by {
                if i < prev.len() {
                    assert(prev.push(f)[i] == prev[i]);
                }
            }
        }
    }
}

proof fn lemma_findings_upto_shape(cfg: Cfg, cat: Seq<(Seq<char>, Effect)>, sol: Solution, n: nat)
    requires
        n <= usize::MAX + 1,
    ensures
        findings_upto(cfg, cat, sol, n).no_duplicates(),
        forall|i: int| 0 <= i < findings_upto(cfg, cat, sol, n).len() ==> {
            let f = #[trigger] findings_upto(cfg, cat, sol, n)[i];
            f.exposed_at < n && hazard(cfg, cat, sol, f.exposed_at as int, f.value as int)
                && f == finding_for(cfg, cat, sol, f.exposed_at as int, f.value as int)
        },
    decreases n,
{
    if n > 0 {
        let h = n - 1;
        lemma_findings_upto_shape(cfg, cat, sol, (n - 1) as nat);
        lemma_block_findings_shape(cfg, cat, sol, h, cfg.num_values as nat);
        let a = findings_upto(cfg, cat, sol, (n - 1) as nat);
        let b = block_findings(cfg, cat, sol, h, cfg.num_values as nat);
        let c = a + b;
        assert(c == findings_upto(cfg, cat, sol, n));
        assert forall|i: int, j: int| 0 <= i < j < c.len() implies c[i] != c[j] by {
            if j < a.len() {
                assert(a[i] != a[j]);
            } else if i >= a.len() {
                assert(b[i - a.len()] != b[j - a.len()]);
            } else {
                assert(a[i].exposed_at < h);
                assert(b[j - a.len()].exposed_at == h);
            }
        }
        assert forall|i: int| 0 <= i < c.len() implies ({
            let f = #[trigger] c[i];
            f.exposed_at < n && hazard(cfg, cat, sol, f.exposed_at as int, f.value as int)
                && f == finding_for(cfg, cat, sol, f.exposed_at as int, f.value as int)
        }) by {
            if i < a.len() {
                assert(c[i] == a[i]);
            } else {
                assert(c[i] == b[i - a.len()]);
            }
        }
    }
}

proof fn lemma_block_findings_complete(cfg: Cfg, cat: Seq<(Seq<char>, Effect)>, sol: Solution, h: int, n: nat, v: int)
    requires
        0 <= v < n,
        hazard(cfg, cat, sol, h, v),
    ensures
        block_findings(cfg, cat, sol, h, n).contains(finding_for(cfg, cat, sol, h, v)),
    decreases n,
{
    let prev = block_findings(cfg, cat, sol, h, (n - 1) as nat);
    if v == n - 1 {
        assert(prev.push(finding_for(cfg, cat, sol, h, v))[prev.len() as int] == finding_for(cfg, cat, sol, h, v));
    } else {
        lemma_block_findings_complete(cfg, cat, sol, h, (n - 1) as nat, v);
        let i = choose|i: int| 0 <= i < prev.len() && prev[i] == finding_for(cfg, cat, sol, h, v);
        if hazard(cfg, cat, sol, h, n - 1) {
            assert(prev.push(finding_for(cfg, cat, sol, h, n - 1))[i] == prev[i]);
        }
    }
}

proof fn lemma_findings_upto_complete(cfg: Cfg, cat: Seq<(Seq<char>, Effect)>, sol: Solution, n: nat, h: int, v: int)
    requires
        0 <= h < n,
        0 <= v < cfg.num_values,
        hazard(cfg, cat, sol, h, v),
    ensures
        findings_upto(cfg, cat, sol, n).contains(finding_for(cfg, cat, sol, h, v)),
    decreases n,
{
    let a = findings_upto(cfg, cat, sol, (n - 1) as nat);
    let b = block_findings(cfg, cat, sol, n - 1, cfg.num_values as nat);
    let f = finding_for(cfg, cat, sol, h, v);
    if h == n - 1 {
        lemma_block_findings_complete(cfg, cat, sol, h, cfg.num_values as nat, v);
        let i = choose|i: int| 0 <= i < b.len() && b[i] == f;
        assert((a + b)[a.len() + i] == f);
    } else {
        lemma_findings_upto_complete(cfg, cat, sol, (n - 1) as nat, h, v);
        let i = choose|i: int| 0 <= i < a.len() && a[i] == f;
        assert((a + b)[i] == f);
    }
}

/// Every hazard is reported: each value still duplicated where a reached
/// block may unwind unshielded has its finding.
pub proof fn lemma_findings_complete(cfg: Cfg, cat: Seq<(Seq<char>, Effect)>, sol: Solution, h: int, v: int)
    requires
        0 <= h < cfg.blocks@.len(),
        0 <= v < cfg.num_values,
        hazard(cfg, cat, sol, h, v),
    ensures
        findings(cfg, cat, sol).contains(finding_for(cfg, cat, sol, h, v)),
{
    lemma_findings_upto_complete(cfg, cat, sol, cfg.blocks@.len(), h, v);
}

/// Findings are never repeated, and each one reports a hazard: a value still
/// duplicated at an exposed unwind, with the earliest point that duplicated it.
pub proof fn lemma_findings_sound(cfg: Cfg, cat: Seq<(Seq<char>, Effect)>, sol: Solution)
    requires
        cfg.blocks@.len() <= usize::MAX,
    ensures
        findings(cfg, cat, sol).no_duplicates(),
        forall|f: Finding| #[trigger] findings(cfg, cat, sol).contains(f) ==> {
            &&& f.exposed_at < cfg.blocks@.len()
            &&& hazard(cfg, cat, sol, f.exposed_at as int, f.value as int)
            &&& f == finding_for(cfg, cat, sol, f.exposed_at as int, f.value as int)
        },
{
    lemma_findings_upto_shape(cfg, cat, sol, cfg.blocks@.len());
    assert forall|f: Finding| #[trigger] findings(cfg, cat, sol).contains(f) implies {
        &&& f.exposed_at < cfg.blocks@.len()
        &&& hazard(cfg, cat, sol, f.exposed_at as int, f.value as int)
        &&& f == finding_for(cfg, cat, sol, f.exposed_at as int, f.value as int)
    } by {
        let i = choose|i: int| 0 <= i < findings(cfg, cat, sol).len() && findings(cfg, cat, sol)[i] == f;
        assert(findings(cfg, cat, sol)[i] == f);
    }
}

/// Diagnosis reads the context and nothing else: run twice on one converged
/// context, it reports the same set of findings, each exactly once.
pub proof fn lemma_diagnosis_idempotent(cfg: Cfg, cat: Seq<(Seq<char>, Effect)>, ctx: Context, first: Seq<Finding>, second: Seq<Finding>)
    requires
        cfg.blocks@.len() <= usize::MAX,
        is_least_solution(cfg, cat, ctx.solution()),
        first == findings(cfg, cat, ctx.solution()),
        second == findings(cfg, cat, ctx.solution()),
    ensures
        first.to_set() == second.to_set(),
        first.no_duplicates(),
        second.no_duplicates(),
{
    lemma_findings_sound(cfg, cat, ctx.solution());
}

} // verus!
