//! A graph with what is kept on the device for it, and the values that a run leaves.

use crate::cache::KernelCache;
use crate::device::Tensor;
use crate::error::{Error, Kind, Result};
use crate::execution::{owned_buffers, ExecutionEnv, Fetch};
use crate::graph::GraphIr;
use crate::interp::run::{named, replaced, Frame, Run};
use crate::interp::support::implemented_node;
use crate::report::{law_report_is_empty, report, report_text, reports, unsupported, Lack};
use crate::rewrite::fold::{constants_folded, fold_constants};
use crate::rewrite::layernorm::{fuse_layernorm, layernorm_fused};
use crate::rewrite::mask::{fold_prev_embed_const_mask, masks_folded, zero_constants};
use crate::rewrite::order::{
    fresh, in_order, law_fold_keeps_order, law_layernorm_keeps_order, law_masks_keep_order,
    law_prune_keeps_order, law_rearrange_keeps_order, law_slices_keep_order,
};
use crate::rewrite::prune::{
    initializers_pruned, nodes_pruned, prune_dead_initializers, prune_dead_nodes,
};
use crate::rewrite::rearrange::{attrs_sound, fuse_gqa_qk_deint, rearranges_fused};
use crate::rewrite::slices::{fold_const_get_slice, slice_constants, slices_folded};
use crate::rewrite::sources::{
    law_masks_keep_sources, law_rearrange_keeps_sources, law_slices_keep_sources,
};
use crate::rewrite::supply::{
    law_constants_keep_sources, law_fold_keeps_sources, law_layernorm_keeps_sources,
    law_prune_keeps_sources, patterns_have_one_output, supplied,
};
use vstd::prelude::*;

verus! {

/// Which of the optional rewrites are on.
#[derive(Debug, Clone, Copy, PartialEq, Eq, Structural)]
pub struct Switches {
    /// Constant row selections and constant masks.
    pub df_folds: bool,
    /// Rearrangements that attention can do itself.
    pub qk_reorder: bool,
}

/// The graph after each rewrite, and how much each found.
pub struct Stages {
    pub rearranged: GraphIr,
    pub sliced: GraphIr,
    pub masked: GraphIr,
    pub fused: GraphIr,
    pub folded: GraphIr,
    pub kept: GraphIr,
    pub counts: Seq<int>,
    pub dropped: int,
    pub bytes: int,
}

/// Whether `after` is `before` prepared for running, with these stages in between: every rewrite
/// starts from what the one before left, a rewrite that is off leaves the graph alone, and where
/// any of them found something, what nothing needs any more is dropped.
pub open spec fn staged(before: GraphIr, switches: Switches, s: Stages, after: GraphIr) -> bool {
    &&& s.counts.len() == 5
    &&& if switches.qk_reorder {
        rearranges_fused(before, s.rearranged, s.counts[0])
    } else {
        s.rearranged == before && s.counts[0] == 0
    }
    &&& if switches.df_folds {
        slices_folded(s.rearranged, s.sliced, s.counts[1]) && masks_folded(
            s.sliced,
            s.masked,
            s.counts[2],
        )
    } else {
        s.masked == s.rearranged && s.counts[1] == 0 && s.counts[2] == 0
    }
    &&& layernorm_fused(s.masked, s.fused, s.counts[3])
    &&& constants_folded(s.fused, s.folded, s.counts[4])
    &&& if s.counts[0] > 0 || s.counts[1] > 0 || s.counts[2] > 0 || s.counts[3] > 0 || s.counts[4]
        > 0 {
        nodes_pruned(s.folded, s.kept, s.dropped) && initializers_pruned(s.kept, after, s.bytes)
    } else {
        after == s.folded
    }
}

/// Whether `after` is `before` prepared for running.
pub open spec fn prepared(before: GraphIr, switches: Switches, after: GraphIr) -> bool {
    exists|s: Stages| #[trigger] staged(before, switches, s, after)
}

/// Prepares a graph for running: the optional rewrites first, while the constant arithmetic that
/// they look for is still there, then the fused normalizations and the folded constants.
pub fn prepare(ir: &mut GraphIr, switches: Switches)
    requires
        old(ir).initializers.wf(),
        attrs_sound(old(ir).nodes@),
    ensures
        prepared(*old(ir), switches, *final(ir)),
        final(ir).initializers.wf(),
{
    let mut rearranged: usize = 0;
    let mut sliced: usize = 0;
    let mut masked: usize = 0;
    if switches.qk_reorder {
        rearranged = fuse_gqa_qk_deint(ir);
    }
    let ghost g1 = *ir;
    let ghost mut g2 = *ir;
    if switches.df_folds {
        sliced = fold_const_get_slice(ir);
        proof {
            g2 = *ir;
        }
        masked = fold_prev_embed_const_mask(ir);
    }
    let ghost g3 = *ir;
    let fused: usize = fuse_layernorm(ir);
    let ghost g4 = *ir;
    let folded: usize = fold_constants(ir);
    let ghost g5 = *ir;
    let ghost mut g6 = *ir;
    let ghost mut dropped: int = 0;
    let ghost mut bytes: int = 0;
    if rearranged > 0 || sliced > 0 || masked > 0 || fused > 0 || folded > 0 {
        let d: usize = prune_dead_nodes(ir);
        proof {
            g6 = *ir;
            dropped = d as int;
        }
        let b: usize = prune_dead_initializers(ir);
        proof {
            bytes = b as int;
        }
    }
    proof {
        let s = Stages {
            rearranged: g1,
            sliced: g2,
            masked: g3,
            fused: g4,
            folded: g5,
            kept: g6,
            counts: seq![
                rearranged as int,
                sliced as int,
                masked as int,
                fused as int,
                folded as int,
            ],
            dropped,
            bytes,
        };
        assert(staged(*old(ir), switches, s, *ir));
    }
}

/// **The callers of a graph see no rewrite**: a prepared graph has the inputs and the outputs
/// that the graph had.
pub proof fn law_prepared_keeps_ends(before: GraphIr, switches: Switches, after: GraphIr)
    requires
        prepared(before, switches, after),
    ensures
        after.inputs == before.inputs,
        after.outputs == before.outputs,
{
    let s = choose|s: Stages| #[trigger] staged(before, switches, s, after);
    assert(staged(before, switches, s, after));
}

/// Whether the constants that the optional rewrites add have names that no node gives.
pub open spec fn adds_fresh(s: Stages, switches: Switches) -> bool {
    switches.df_folds ==> fresh(
        s.rearranged.nodes@,
        slice_constants(s.rearranged, s.rearranged.nodes@.len() as int),
    ) && fresh(s.sliced.nodes@, zero_constants(s.sliced, s.sliced.nodes@.len() as int))
}

/// **A prepared graph can be run in order**: whoever reads a value stays behind whoever makes
/// it, where the constants that are added have fresh names.
pub proof fn law_prepared_keeps_order(
    before: GraphIr,
    switches: Switches,
    s: Stages,
    after: GraphIr,
)
    requires
        staged(before, switches, s, after),
        adds_fresh(s, switches),
        in_order(before.nodes@),
    ensures
        in_order(after.nodes@),
{
    if switches.qk_reorder {
        law_rearrange_keeps_order(before, s.rearranged, s.counts[0]);
    }
    if switches.df_folds {
        law_slices_keep_order(s.rearranged, s.sliced, s.counts[1]);
        law_masks_keep_order(s.sliced, s.masked, s.counts[2]);
    }
    law_layernorm_keeps_order(s.masked, s.fused, s.counts[3]);
    law_fold_keeps_order(s.fused, s.folded, s.counts[4]);
    if after != s.folded {
        law_prune_keeps_order(s.folded, s.kept, s.dropped);
    }
}

/// **A prepared graph lacks nothing**: where the graph was in order and every value had a
/// source, every value that is left has one, whichever rewrites are on; the constants that are
/// added have fresh names.
pub proof fn law_prepared_keeps_sources(
    before: GraphIr,
    switches: Switches,
    s: Stages,
    after: GraphIr,
)
    requires
        staged(before, switches, s, after),
        adds_fresh(s, switches),
        in_order(before.nodes@),
        supplied(before),
        patterns_have_one_output(s.masked),
    ensures
        supplied(after),
{
    if switches.qk_reorder {
        law_rearrange_keeps_order(before, s.rearranged, s.counts[0]);
        law_rearrange_keeps_sources(before, s.rearranged, s.counts[0]);
    }
    if switches.df_folds {
        law_slices_keep_order(s.rearranged, s.sliced, s.counts[1]);
        law_slices_keep_sources(s.rearranged, s.sliced, s.counts[1]);
        law_masks_keep_order(s.sliced, s.masked, s.counts[2]);
        law_masks_keep_sources(s.sliced, s.masked, s.counts[2]);
    }
    law_layernorm_keeps_sources(s.masked, s.fused, s.counts[3]);
    law_fold_keeps_sources(s.fused, s.folded, s.counts[4]);
    if s.counts[0] > 0 || s.counts[1] > 0 || s.counts[2] > 0 || s.counts[3] > 0 || s.counts[4] > 0 {
        law_prune_keeps_sources(s.folded, s.kept, s.dropped);
        law_constants_keep_sources(s.kept, after, s.bytes);
    }
}

/// **Every rewrite that is on finds all that there is to find**: each counts what its graph holds,
/// one that is off finds nothing, and where anything was found, only nodes that are needed are
/// left.
pub proof fn law_every_rewrite_is_done(
    before: GraphIr,
    switches: Switches,
    s: Stages,
    after: GraphIr,
    i: int,
)
    requires
        staged(before, switches, s, after),
    ensures
        s.counts[0] == if switches.qk_reorder {
            crate::rewrite::fold::count_set(
                crate::rewrite::rearrange::rearranges(before),
                before.nodes@.len() as int,
            ) as int
        } else {
            0
        },
        s.counts[1] == if switches.df_folds {
            crate::rewrite::fold::count_set(
                crate::rewrite::slices::picks_rows(s.rearranged),
                s.rearranged.nodes@.len() as int,
            ) as int
        } else {
            0
        },
        s.counts[2] == if switches.df_folds {
            crate::rewrite::fold::count_set(
                crate::rewrite::mask::has_mask(s.sliced),
                s.sliced.nodes@.len() as int,
            ) as int
        } else {
            0
        },
        s.counts[3] == crate::rewrite::layernorm::patterns(
            s.masked,
            s.masked.nodes@.len() as int,
        ).len(),
        s.counts[4] == s.fused.nodes@.len() - s.folded.nodes@.len(),
        !switches.df_folds && !switches.qk_reorder ==> s.masked == before,
        (s.counts[0] > 0 || s.counts[1] > 0 || s.counts[2] > 0 || s.counts[3] > 0 || s.counts[4]
            > 0) && 0 <= i < after.nodes@.len() ==> crate::rewrite::prune::is_needed(
            after.nodes@,
            after.outputs@,
            after.nodes@[i],
        ),
        s.counts[0] == 0 && s.counts[1] == 0 && s.counts[2] == 0 && s.counts[3] == 0 && s.counts[4]
            == 0 ==> after == s.folded,
{
    if s.fused.nodes@.len() > 0 {
        crate::rewrite::settled::law_folded_are_constants(s.fused, s.folded, s.counts[4], 0);
    } else {
        assert(s.folded.nodes@.len() == 0);
    }
    if (s.counts[0] > 0 || s.counts[1] > 0 || s.counts[2] > 0 || s.counts[3] > 0 || s.counts[4] > 0)
        && 0 <= i < after.nodes@.len() {
        crate::rewrite::prune::law_prune_rest(after.nodes@, after.outputs@, i);
    }
}

/// Whether every node can be run.
pub open spec fn runs(ir: GraphIr) -> bool {
    forall|i: int| 0 <= i < ir.nodes@.len() ==> implemented_node(#[trigger] ir.nodes@[i])
}

pub open spec fn input_names(inputs: Seq<(String, Tensor)>) -> Seq<Seq<char>> {
    inputs.map_values(|p: (String, Tensor)| p.0@)
}

pub open spec fn input_tensors(inputs: Seq<(String, Tensor)>) -> Seq<Tensor> {
    inputs.map_values(|p: (String, Tensor)| p.1)
}

/// A graph, and what is kept on the device from run to run.
pub struct Executor {
    pub ir: GraphIr,
    pub cache: KernelCache,
}

impl Executor {
    pub open spec fn wf(&self) -> bool {
        self.ir.initializers.wf() && self.cache.wf() && runs(self.ir)
    }

    /// Takes a graph, prepares it, and refuses it where one of its nodes cannot be run: a graph
    /// runs as a whole or fails when it is loaded. The error lists all operators that are
    /// missing.
    pub fn new(ir: GraphIr, switches: Switches) -> (r: Result<Self>)
        requires
            ir.initializers.wf(),
            attrs_sound(ir.nodes@),
        ensures
            match r {
                Ok(e) => {
                    &&& e.wf()
                    &&& prepared(ir, switches, e.ir)
                    &&& e.cache.pipelines.entries@.len() == 0
                    &&& e.cache.packed.entries@.len() == 0
                    &&& e.cache.constants.entries@.len() == 0
                },
                Err(e) => exists|g: GraphIr, es: Seq<Lack>| #[trigger]
                    prepared(ir, switches, g) && !runs(g) && #[trigger] reports(g.nodes@, es) && (
                    e matches Error::Unsupported(m) && m@ == report_text(g.nodes@, es)),
            },
    {
        let mut ir = ir;
        prepare(&mut ir, switches);
        let es: Vec<Lack> = unsupported(&ir.nodes);
        proof {
            law_report_is_empty(ir.nodes@, es@);
        }
        if es.len() > 0 {
            return Err(Error::Unsupported(report(&ir.nodes, &es)));
        }
        Ok(Executor { ir, cache: KernelCache::new() })
    }

    /// The graph as it is run.
    pub fn graph(&self) -> (r: &GraphIr)
        ensures
            *r == self.ir,
    {
        &self.ir
    }

    /// What is kept on the device.
    pub fn cache(&self) -> (r: &KernelCache)
        ensures
            *r == self.cache,
    {
        &self.cache
    }

    /// A run of a graph from its start: the first node is next, and the inputs are values under
    /// their names. Buffers of inputs that another input replaced go back.
    pub fn run<'a>(ir: &'a GraphIr, inputs: Vec<(String, Tensor)>) -> (r: (
        Run<'a>,
        ExecutionEnv<'a>,
        Vec<u64>,
    ))
        requires
            ir.initializers.wf(),
        ensures
            r.0.wf(),
            r.0.frames@ == seq![Frame { graph: ir, next: 0 }],
            r.1.wf(),
            *r.1.initializers == ir.initializers,
            r.1.values.map() == named(
                Map::empty(),
                input_names(inputs@),
                input_tensors(inputs@),
                inputs@.len() as int,
            ),
            r.1.host_cache.map() == Map::<Seq<char>, crate::host_ops::HostTensor>::empty(),
            r.2@ == replaced(
                Map::empty(),
                input_names(inputs@),
                input_tensors(inputs@),
                inputs@.len() as int,
            ),
    {
        let ghost all = inputs@;
        let ghost names = input_names(all);
        let ghost tensors = input_tensors(all);
        let mut env = ExecutionEnv::new(&ir.initializers);
        let mut back: Vec<u64> = Vec::new();
        let mut rest = inputs;
        let n: usize = rest.len();
        let mut i: usize = 0;
        assert(env.values.map() =~= Map::<Seq<char>, Tensor>::empty());
        assert(back@ =~= Seq::empty());
        while i < n
            invariant
                i <= n,
                n == all.len(),
                names == input_names(all),
                tensors == input_tensors(all),
                rest@ == all.skip(i as int),
                env.wf(),
                *env.initializers == ir.initializers,
                env.values.map() == named(Map::empty(), names, tensors, i as int),
                env.host_cache.map() == Map::<Seq<char>, crate::host_ops::HostTensor>::empty(),
                back@ == replaced(Map::empty(), names, tensors, i as int),
            decreases n - i,
        {
            let (name, tensor) = rest.remove(0);
            assert(rest@ =~= all.skip(i + 1));
            assert(names[i as int] == name@);
            assert(tensors[i as int] == tensor);
            match env.set(name.as_str(), tensor) {
                Some(h) => {
                    back.push(h);
                },
                None => {},
            }
            assert(env.host_cache.map() =~= Map::empty());
            i += 1;
        }
        (Run::new(ir), env, back)
    }
}

/// The values that a run leaves, until they are given back.
///
/// All of the environment is held, and not only the outputs of the graph: whoever takes a value
/// over needs its shape and its type. Values that are no outputs are gone, though, since each is
/// given back behind its last reader.
pub struct Outputs<'a> {
    pub env: ExecutionEnv<'a>,
}

impl<'a> Outputs<'a> {
    pub fn value(&self, name: &str) -> (r: Option<&Tensor>)
        ensures
            match r {
                Some(t) => self.env.values.has(name@) && *t == self.env.values.at(name@),
                None => !self.env.values.has(name@),
            },
    {
        self.env.value(name)
    }

    pub fn shape_of(&self, name: &str) -> (r: Result<Vec<i64>>)
        ensures
            match r {
                Ok(s) => self.env.shape_at(name@) == Some(s@),
                Err(e) => self.env.shape_at(name@) is None && e.kind() == Kind::Tensor,
            },
    {
        self.env.shape_of(name)
    }

    pub fn dtype_of(&self, name: &str) -> (r: Result<i32>)
        ensures
            match r {
                Ok(d) => self.env.dtype_at(name@) == Some(d),
                Err(e) => self.env.dtype_at(name@) is None && e.kind() == Kind::Tensor,
            },
    {
        self.env.dtype_of(name)
    }

    /// The value on the host, or what has to be read from the device for it.
    pub fn host(&self, name: &str) -> (r: Result<Fetch>)
        ensures
            match (r, self.env.fetch_of(name@)) {
                (Ok(f), Ok(v)) => f@ == v,
                (Err(e), Err(k)) => e.kind() == k,
                _ => false,
            },
    {
        self.env.host(name)
    }

    pub fn on_device(&self, name: &str) -> (r: bool)
        ensures
            r == (self.env.device_at(name@) is Some),
    {
        self.env.on_device(name)
    }

    /// The buffers that the run owned, to be given back.
    pub fn finish(self) -> (r: Vec<u64>)
        ensures
            r@ == owned_buffers(self.env.values.entries@),
    {
        self.env.finish()
    }
}

} // verus!
