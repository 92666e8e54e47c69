//! Whether a plan can be simplified.

use crate::arena::{Arena, Node};
use crate::ir::{IR, Plan};
use crate::ir_graph::single_use;
use crate::rules::arity_fits;
use crate::shape::{count_uses, is_inside, is_small, list_nodes, search, shows, Shape};
use crate::traversal::{done, lemma_acyclic, lemma_complete, lemma_listing, web_of, woven};
use crate::wiring::simplifiable;
use vstd::prelude::*;

verus! {

/// Whether a visit of `ir` can do with so many edges.
fn has_arity(ir: &IR, num_ins: usize, num_outs: usize) -> (fits: bool)
    ensures
        fits == arity_fits(ir@, num_ins as nat, num_outs as nat),
{
    match ir {
        Plan::Select { .. }
        | Plan::HStack { .. }
        | Plan::Sort { .. }
        | Plan::Filter { .. }
        | Plan::GroupBy { .. }
        | Plan::Distinct { .. }
        | Plan::MapFunction { .. } => num_ins == 1 && num_outs == 1,
        Plan::Join { .. } | Plan::MergeSorted { .. } => num_ins == 2 && num_outs == 1,
        Plan::Union { .. } => num_outs == 1,
        Plan::Sink { .. } => num_ins == 1 && num_outs == 0,
        Plan::SinkMultiple { .. } | Plan::Invalid => false,
        _ => true,
    }
}

/// Whether nodes that are no caches and have inputs are used once, and every node has as many
/// inputs and consumers as its kind asks for.
fn are_used_well(
    roots: &[Node],
    ir_arena: &Arena<IR>,
    shape: &Shape,
    consumers: &Vec<usize>,
    uses: &Vec<usize>,
) -> (all: bool)
    requires
        shows(*shape, web_of(ir_arena.plan(), roots@)),
        woven(web_of(ir_arena.plan(), roots@)),
        consumers@.len() == ir_arena@.len(),
        uses@.len() == ir_arena@.len(),
        forall|n: int|
            0 <= n < ir_arena@.len() ==> #[trigger] consumers@[n] == web_of(
                ir_arena.plan(),
                roots@,
            ).consumers(n as usize),
        forall|n: int|
            0 <= n < ir_arena@.len() ==> #[trigger] uses@[n] == web_of(
                ir_arena.plan(),
                roots@,
            ).uses(n as usize),
    ensures
        ({
            let web = web_of(ir_arena.plan(), roots@);
            all == (single_use(web) && forall|node: Node| #[trigger]
                web.opened.contains(node) ==> arity_fits(
                    web.plan[node as int],
                    web.plan[node as int].inputs().len(),
                    web.consumers(node),
                ))
        }),
{
    let ghost plan = ir_arena.plan();
    let ghost web = web_of(plan, roots@);
    let len: usize = ir_arena.len();
    let mut n: usize = 0;
    while n < len
        invariant
            plan == ir_arena.plan(),
            web == web_of(plan, roots@),
            web.plan == plan,
            len == plan.len(),
            woven(web),
            shows(*shape, web),
            consumers@.len() == len,
            uses@.len() == len,
            forall|k: int|
                0 <= k < len ==> #[trigger] consumers@[k] == web.consumers(k as usize),
            forall|k: int| 0 <= k < len ==> #[trigger] uses@[k] == web.uses(k as usize),
            n <= len,
            forall|node: Node|
                web.opened.contains(node) && node < n && !(plan[node as int] is Cache)
                    && plan[node as int].inputs().len() > 0 ==> #[trigger] web.uses(node) <= 1,
            forall|node: Node| #[trigger]
                web.opened.contains(node) && node < n ==> arity_fits(
                    plan[node as int],
                    plan[node as int].inputs().len(),
                    web.consumers(node),
                ),
        decreases len - n,
    {
        if shape.opened[n] {
            let mut inputs: Vec<Node> = Vec::new();
            let ir = ir_arena.get(n);
            assert(ir@ == plan[n as int]);
            ir.copy_inputs(&mut inputs);
            assert(inputs@ =~= plan[n as int].inputs());
            assert(web.opened.contains(n));
            assert(uses@[n as int] == web.uses(n));
            assert(consumers@[n as int] == web.consumers(n));
            let is_cache = matches!(ir, Plan::Cache { .. });
            if !is_cache && inputs.len() > 0 && uses[n] > 1 {
                return false;
            }
            if !has_arity(ir, inputs.len(), consumers[n]) {
                return false;
            }
        }
        n = n + 1;
    }
    true
}

/// Whether some visit goes on from each node whose inputs are followed.
fn all_went_on(shape: &Shape, went_on: &Vec<bool>) -> (all: bool)
    requires
        went_on@.len() == shape.opened@.len(),
    ensures
        all == forall|n: int|
            0 <= n < went_on@.len() && #[trigger] shape.opened@[n] ==> went_on@[n],
{
    let mut n: usize = 0;
    while n < went_on.len()
        invariant
            went_on@.len() == shape.opened@.len(),
            n <= went_on@.len(),
            forall|k: int| 0 <= k < n && #[trigger] shape.opened@[k] ==> went_on@[k],
        decreases went_on@.len() - n,
    {
        if shape.opened[n] && !went_on[n] {
            return false;
        }
        n = n + 1;
    }
    true
}

/// Whether a pass over the plan below `roots` can be started: the plan ends below the roots, fits
/// into memory, and has edges as its nodes need them.
pub fn is_simplifiable(roots: &[Node], ir_arena: &Arena<IR>) -> (fit: bool)
    ensures
        fit == simplifiable(ir_arena.plan(), roots@),
{
    let ghost plan = ir_arena.plan();
    let ghost web = web_of(plan, roots@);
    let cap: usize = (isize::MAX / 16) as usize;
    let shape = search(roots, ir_arena);
    if !is_inside(roots, ir_arena, &shape, Ghost(web)) {
        return false;
    }
    if !is_small(roots, ir_arena, &shape, cap, Ghost(web)) {
        return false;
    }
    let (consumers, uses) = count_uses(roots, ir_arena, &shape, Ghost(web));
    if !are_used_well(roots, ir_arena, &shape, &consumers, &uses) {
        return false;
    }
    let (nodes, went_on, all_led) = list_nodes(roots, ir_arena, &shape, uses, Ghost(web));
    if !all_led {
        return false;
    }
    let ghost list = nodes@;
    proof {
        lemma_listing(web);
        if web.acyclic() {
            lemma_complete(web);
        }
    }
    if !all_went_on(&shape, &went_on) {
        return false;
    }
    proof {
        assert forall|node: Node| web.opened.contains(node) implies done(
            web,
            list,
            list.len(),
        ).contains(node) by {
            assert(shape.opened@[node as int]);
            assert(went_on@[node as int]);
        }
        assert(done(web, list, list.len()) =~= web.opened);
        lemma_acyclic(web);
        lemma_complete(web);
    }
    nodes.len() - roots.len() < u32::MAX as usize
}

} // verus!
