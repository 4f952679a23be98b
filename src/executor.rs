use vstd::prelude::*;
use crate::planner::{HymoOperation, Layer, MagicRoot, MountPlan, OverlayOperation, overlay_ops_well_formed, absolute};
use crate::text::{is_under, lemma_push_contains, path_under, root_path, sorted_unique, strictly_ascending, texts};
use crate::inventory::str_equal;

verus! {

/// A partition of a module that an earlier phase already mounted.
#[derive(Clone, Debug)]
pub struct ServedPartition {
    pub root: String,
    pub partition: String,
}

/// The ids that took part in each strategy once all phases have run.
#[derive(Clone, Debug)]
pub struct ExecutionResult {
    pub overlay_module_ids: Vec<String>,
    pub hymo_module_ids: Vec<String>,
    pub magic_module_ids: Vec<String>,
}

/// The state carried from one phase of the execution to the next.
#[derive(Debug)]
pub struct Execution {
    pub hymo_ops: Vec<HymoOperation>,
    pub overlay_ops: Vec<OverlayOperation>,
    /// Modules that the magic-mount tree is to compose.
    pub magic_queue: Vec<MagicRoot>,
    /// Partitions already mounted, to be left out of the magic-mount tree.
    pub served: Vec<ServedPartition>,
    pub overlay_ids: Vec<String>,
    pub hymo_ids: Vec<String>,
    /// Injections that failed and wait to be merged into the overlays.
    pub fallbacks: Vec<HymoOperation>,
    /// Modules of failed injections that were merged into an overlay.
    pub merged_ids: Vec<String>,
    /// Modules of failed injections that went to the magic-mount tree.
    pub stranded_ids: Vec<String>,
}

/// The set of strings in a list.
pub open spec fn ids(v: Seq<String>) -> Set<Seq<char>> {
    texts(v).to_set()
}

pub open spec fn magic_ids(q: Seq<MagicRoot>) -> Set<Seq<char>> {
    Set::new(|s: Seq<char>| exists|j: int| 0 <= j < q.len() && #[trigger] q[j].module_id@ == s)
}

pub open spec fn hymo_ids_of(hs: Seq<HymoOperation>) -> Set<Seq<char>> {
    Set::new(|s: Seq<char>| exists|j: int| 0 <= j < hs.len() && #[trigger] hs[j].module_id@ == s)
}

pub open spec fn layer_ids_of(ops: Seq<OverlayOperation>) -> Set<Seq<char>> {
    Set::new(|s: Seq<char>| exists|k: int, l: int| 0 <= k < ops.len() && 0 <= l < ops[k].lowerdirs@.len()
        && #[trigger] ops[k].lowerdirs@[l].module_id@ == s)
}

/// Injection `i` did not take effect.
pub open spec fn injection_failed(available: bool, injected: Seq<bool>, i: int) -> bool {
    !available || !injected[i]
}

/// The injections that did not take effect, in order.
pub open spec fn failed_injections(hs: Seq<HymoOperation>, available: bool, injected: Seq<bool>) -> Seq<HymoOperation>
    decreases hs.len(),
{
    if hs.len() == 0 {
        Seq::empty()
    } else {
        let prev = failed_injections(hs.drop_last(), available, injected);
        if injection_failed(available, injected, hs.len() - 1) {
            prev.push(hs.last())
        } else {
            prev
        }
    }
}

pub open spec fn served_view(s: Seq<ServedPartition>) -> Seq<(Seq<char>, Seq<char>)> {
    s.map_values(|e: ServedPartition| (e.root@, e.partition@))
}

/// One record per injection that took effect, in order.
pub open spec fn injected_served(hs: Seq<HymoOperation>, available: bool, injected: Seq<bool>) -> Seq<(Seq<char>, Seq<char>)>
    decreases hs.len(),
{
    if hs.len() == 0 {
        Seq::empty()
    } else {
        let prev = injected_served(hs.drop_last(), available, injected);
        if !injection_failed(available, injected, hs.len() - 1) {
            prev.push((hs.last().module_root@, hs.last().partition@))
        } else {
            prev
        }
    }
}

/// One record per layer of each mounted overlay, in order.
pub open spec fn overlay_served(ops: Seq<OverlayOperation>, mounted: Seq<bool>) -> Seq<(Seq<char>, Seq<char>)>
    decreases ops.len(),
{
    if ops.len() == 0 {
        Seq::empty()
    } else {
        let prev = overlay_served(ops.drop_last(), mounted);
        if mounted[ops.len() - 1] {
            prev + layer_records(ops.last())
        } else {
            prev
        }
    }
}

pub open spec fn layer_records(op: OverlayOperation) -> Seq<(Seq<char>, Seq<char>)> {
    op.lowerdirs@.map_values(|l: Layer| (l.module_root@, op.partition_name@))
}

/// `e` records a partition that injection `i` mounted.
pub open spec fn served_by_injection(hs: Seq<HymoOperation>, available: bool, injected: Seq<bool>, e: ServedPartition) -> bool {
    exists|i: int| 0 <= i < hs.len() && !injection_failed(available, injected, i) && e.root@ == hs[i].module_root@
        && e.partition@ == (#[trigger] hs[i]).partition@
}

/// `e` records a partition that a mounted overlay served for one of its layers.
pub open spec fn served_by_overlay(ops: Seq<OverlayOperation>, mounted: Seq<bool>, e: ServedPartition) -> bool {
    exists|k: int, l: int| 0 <= k < ops.len() && mounted[k] && 0 <= l < ops[k].lowerdirs@.len()
        && e.root@ == (#[trigger] ops[k].lowerdirs@[l]).module_root@ && e.partition@ == ops[k].partition_name@
}

/// What recording the outcome of the injection phase did.
pub open spec fn injections_done(pre: Execution, post: Execution, available: bool, injected: Seq<bool>) -> bool {
    &&& post.fallbacks@ == pre.fallbacks@ + failed_injections(pre.hymo_ops@, available, injected)
    &&& ids(post.hymo_ids@) == ids(pre.hymo_ids@).difference(hymo_ids_of(failed_injections(pre.hymo_ops@, available, injected)))
    &&& post.served@.len() >= pre.served@.len()
    &&& post.served@.subrange(0, pre.served@.len() as int) == pre.served@
    &&& forall|j: int| pre.served@.len() <= j < post.served@.len() ==> #[trigger] served_by_injection(pre.hymo_ops@, available, injected, post.served@[j])
    &&& served_view(post.served@) == served_view(pre.served@) + injected_served(pre.hymo_ops@, available, injected)
    &&& post.hymo_ops == pre.hymo_ops
    &&& post.overlay_ops == pre.overlay_ops
    &&& post.magic_queue == pre.magic_queue
    &&& post.overlay_ids == pre.overlay_ids
    &&& post.merged_ids == pre.merged_ids
    &&& post.stranded_ids == pre.stranded_ids
}

/// `e` is the state before the first phase of carrying out `plan`.
pub open spec fn started(plan: MountPlan, e: Execution) -> bool {
    &&& e.hymo_ops == plan.hymo_ops
    &&& e.overlay_ops == plan.overlay_ops
    &&& e.magic_queue == plan.magic_roots
    &&& e.overlay_ids == plan.overlay_module_ids
    &&& e.hymo_ids == plan.hymo_module_ids
    &&& e.served@.len() == 0
    &&& e.fallbacks@.len() == 0
    &&& e.merged_ids@.len() == 0
    &&& e.stranded_ids@.len() == 0
}

/// `r` reports the final state `e`, the magic ids only where the magic
/// mount succeeded.
pub open spec fn finished(e: Execution, magic_ok: bool, r: ExecutionResult) -> bool {
    &&& ids(r.overlay_module_ids@) == ids(e.overlay_ids@)
    &&& ids(r.hymo_module_ids@) == ids(e.hymo_ids@)
    &&& ids(r.magic_module_ids@) == (if magic_ok { magic_ids(e.magic_queue@) } else { Set::empty() })
    &&& strictly_ascending(texts(r.overlay_module_ids@))
    &&& strictly_ascending(texts(r.hymo_module_ids@))
    &&& strictly_ascending(texts(r.magic_module_ids@))
}

impl Execution {
    /// The state before the first phase: the plan's operations and ids.
    pub fn new(plan: MountPlan) -> (r: Self)
        ensures
            started(plan, r),
    {
        Execution {
            hymo_ops: plan.hymo_ops,
            overlay_ops: plan.overlay_ops,
            magic_queue: plan.magic_roots,
            served: Vec::new(),
            overlay_ids: plan.overlay_module_ids,
            hymo_ids: plan.hymo_module_ids,
            fallbacks: Vec::new(),
            merged_ids: Vec::new(),
            stranded_ids: Vec::new(),
        }
    }

    /// Records the outcome of the injection phase: `available` tells whether
    /// the driver is present, `injected[i]` whether injection `i` took effect.
    /// Failed injections wait for the overlays, and their modules no longer
    /// count as injected.
    pub fn record_injections(&mut self, available: bool, injected: &Vec<bool>)
        requires
            injected@.len() == old(self).hymo_ops@.len(),
        ensures
            injections_done(*old(self), *final(self), available, injected@),
    {
        let ghost start = self.fallbacks@;
        let start_len = self.fallbacks.len();
        let mut i: usize = 0;
        while i < self.hymo_ops.len()
            invariant
                i <= self.hymo_ops@.len(),
                injected@.len() == self.hymo_ops@.len(),
                self.hymo_ops == old(self).hymo_ops,
                self.overlay_ops == old(self).overlay_ops,
                self.magic_queue == old(self).magic_queue,
                self.overlay_ids == old(self).overlay_ids,
                self.hymo_ids == old(self).hymo_ids,
                self.merged_ids == old(self).merged_ids,
                self.stranded_ids == old(self).stranded_ids,
                start == old(self).fallbacks@,
                self.served@.len() >= old(self).served@.len(),
                self.served@.subrange(0, old(self).served@.len() as int) == old(self).served@,
                served_view(self.served@) == served_view(old(self).served@) + injected_served(
                    self.hymo_ops@.subrange(0, i as int),
                    available,
                    injected@,
                ),
                forall|j: int| old(self).served@.len() <= j < self.served@.len() ==> #[trigger] served_by_injection(
                    self.hymo_ops@,
                    available,
                    injected@,
                    self.served@[j],
                ),
                self.fallbacks@ == start + failed_injections(self.hymo_ops@.subrange(0, i as int), available, injected@),
            decreases self.hymo_ops@.len() - i,
        {
            assert(self.hymo_ops@.subrange(0, i + 1).drop_last() =~= self.hymo_ops@.subrange(0, i as int));
            let op = &self.hymo_ops[i];
            if !available || !injected[i] {
                self.fallbacks.push(op.copied());
                assert(self.fallbacks@ =~= start + failed_injections(self.hymo_ops@.subrange(0, i + 1), available, injected@));
            } else {
                let ghost sv = self.served@;
                let e = ServedPartition { root: op.module_root.clone(), partition: op.partition.clone() };
                assert(served_by_injection(self.hymo_ops@, available, injected@, e));
                self.served.push(e);
                assert(served_view(self.served@) =~= served_view(sv).push((e.root@, e.partition@)));
                assert(self.served@.subrange(0, old(self).served@.len() as int) =~= sv.subrange(0, old(self).served@.len() as int));
                assert forall|j: int| old(self).served@.len() <= j < self.served@.len() implies #[trigger] served_by_injection(
                    self.hymo_ops@,
                    available,
                    injected@,
                    self.served@[j],
                ) by {
                    if j < sv.len() {
                        assert(self.served@[j] == sv[j]);
                    }
                }
            }
            i = i + 1;
        }
        assert(self.hymo_ops@.subrange(0, i as int) =~= self.hymo_ops@);
        let ghost failed = failed_injections(self.hymo_ops@, available, injected@);
        assert(self.fallbacks@.subrange(start_len as int, self.fallbacks@.len() as int) =~= failed);
        let mut kept: Vec<String> = Vec::new();
        let mut j: usize = 0;
        while j < self.hymo_ids.len()
            invariant
                j <= self.hymo_ids@.len(),
                self.fallbacks@ == start + failed,
                start_len == start.len(),
                self.fallbacks@.subrange(start_len as int, self.fallbacks@.len() as int) == failed,
                forall|s: Seq<char>| #[trigger] texts(kept@).contains(s) <==> (texts(self.hymo_ids@.subrange(0, j as int)).contains(s)
                    && !hymo_ids_of(failed).contains(s)),
            decreases self.hymo_ids@.len() - j,
        {
            let id = self.hymo_ids[j].as_str();
            assert(texts(self.hymo_ids@.subrange(0, j + 1)) =~= texts(self.hymo_ids@.subrange(0, j as int)).push(id@));
            proof {
                lemma_push_contains(texts(self.hymo_ids@.subrange(0, j as int)), id@);
            }
            if !fallback_has_id(&self.fallbacks, start_len, id) {
                let ghost before = texts(kept@);
                kept.push(self.hymo_ids[j].clone());
                assert(texts(kept@) =~= before.push(id@));
                proof {
                    lemma_push_contains(before, id@);
                }
            }
            j = j + 1;
        }
        assert(self.hymo_ids@.subrange(0, j as int) =~= self.hymo_ids@);
        self.hymo_ids = kept;
        assert(ids(self.hymo_ids@) =~= ids(old(self).hymo_ids@).difference(hymo_ids_of(failed)));
    }
}

/// The index of the first overlay on `partition`, if any.
fn find_op(ops: &Vec<OverlayOperation>, partition: &str) -> (r: Option<usize>)
    ensures
        r.is_some() ==> first_op_for(ops@, partition@, r.unwrap() as int),
        r.is_none() ==> no_op_for(ops@, partition@),
{
    let mut k: usize = 0;
    while k < ops.len()
        invariant
            k <= ops@.len(),
            forall|k0: int| 0 <= k0 < k ==> #[trigger] ops@[k0].partition_name@ != partition@,
        decreases ops@.len() - k,
    {
        if str_equal(ops[k].partition_name.as_str(), partition) {
            return Some(k);
        }
        k = k + 1;
    }
    None
}

/// `k` is the first overlay on partition `p`.
pub open spec fn first_op_for(ops: Seq<OverlayOperation>, p: Seq<char>, k: int) -> bool {
    0 <= k < ops.len() && ops[k].partition_name@ == p && forall|j: int| 0 <= j < k ==> #[trigger] ops[j].partition_name@ != p
}

/// No overlay is on partition `p`.
pub open spec fn no_op_for(ops: Seq<OverlayOperation>, p: Seq<char>) -> bool {
    forall|k: int| 0 <= k < ops.len() ==> #[trigger] ops[k].partition_name@ != p
}

/// `post_op` is `pre_op` with the layer of `f` put first, ahead of its own
/// layers in their order.
pub open spec fn prepended(pre_op: OverlayOperation, post_op: OverlayOperation, f: HymoOperation) -> bool {
    &&& post_op.partition_name == pre_op.partition_name
    &&& post_op.target == pre_op.target
    &&& post_op.lowerdirs@.len() == pre_op.lowerdirs@.len() + 1
    &&& fallback_layer(f, post_op.lowerdirs@[0])
    &&& post_op.lowerdirs@.subrange(1, post_op.lowerdirs@.len() as int) == pre_op.lowerdirs@
}

/// The module of `f` counted as merged into an overlay.
pub open spec fn counted_merged(pre: Execution, post: Execution, f: HymoOperation) -> bool {
    &&& texts(post.merged_ids@) == texts(pre.merged_ids@).push(f.module_id@)
    &&& texts(post.overlay_ids@) == texts(pre.overlay_ids@).push(f.module_id@)
    &&& post.stranded_ids == pre.stranded_ids
    &&& post.magic_queue == pre.magic_queue
}

/// The module of `f` sent to the magic-mount tree, nothing else changed.
pub open spec fn stranded_step(pre: Execution, post: Execution, f: HymoOperation) -> bool {
    &&& texts(post.stranded_ids@) == texts(pre.stranded_ids@).push(f.module_id@)
    &&& post.magic_queue@.len() == pre.magic_queue@.len() + 1
    &&& post.magic_queue@.subrange(0, pre.magic_queue@.len() as int) == pre.magic_queue@
    &&& post.magic_queue@.last().module_id@ == f.module_id@
    &&& post.magic_queue@.last().root@ == f.module_root@
    &&& post.merged_ids == pre.merged_ids
    &&& post.overlay_ids == pre.overlay_ids
    &&& post.overlay_ops == pre.overlay_ops
}

/// The first overlay on the partition of `f` can take its layer.
pub open spec fn joins_existing(ops: Seq<OverlayOperation>, f: HymoOperation) -> bool {
    exists|k: int| #[trigger] first_op_for(ops, f.partition@, k) && !path_under(f.source@, ops[k].target@)
}

/// No overlay is on the partition of `f`, the partition exists on the host,
/// and a new overlay on `/<partition>` can take its layer.
pub open spec fn opens_new(ops: Seq<OverlayOperation>, f: HymoOperation, partition_exists: bool) -> bool {
    no_op_for(ops, f.partition@) && partition_exists && !path_under(f.source@, seq!['/'] + f.partition@)
}

/// One failed injection `f` merged, decided by the state before it: its
/// layer goes first in the first overlay on its partition when that overlay
/// can take it; else, when no overlay is on the partition and `/<partition>`
/// exists, into a new overlay there; only otherwise does its module go to
/// the magic-mount tree.
pub open spec fn merged_step(pre: Execution, post: Execution, f: HymoOperation, partition_exists: bool) -> bool {
    let ops = pre.overlay_ops@;
    &&& post.fallbacks == pre.fallbacks
    &&& post.hymo_ops == pre.hymo_ops
    &&& post.hymo_ids == pre.hymo_ids
    &&& post.served == pre.served
    &&& if joins_existing(ops, f) {
        &&& counted_merged(pre, post, f)
        &&& post.overlay_ops@.len() == ops.len()
        &&& exists|k: int| #[trigger] first_op_for(ops, f.partition@, k) && prepended(ops[k], post.overlay_ops@[k], f)
            && forall|j: int| 0 <= j < ops.len() && j != k ==> #[trigger] post.overlay_ops@[j] == ops[j]
    } else if opens_new(ops, f, partition_exists) {
        &&& counted_merged(pre, post, f)
        &&& post.overlay_ops@.len() == ops.len() + 1
        &&& post.overlay_ops@.subrange(0, ops.len() as int) == ops
        &&& post.overlay_ops@.last().partition_name@ == f.partition@
        &&& post.overlay_ops@.last().target@ == seq!['/'] + f.partition@
        &&& post.overlay_ops@.last().lowerdirs@.len() == 1
        &&& fallback_layer(f, post.overlay_ops@.last().lowerdirs@[0])
    } else {
        stranded_step(pre, post, f)
    }
}

/// `trace` runs from `pre` through one merge step per failed injection to
/// the state that `post` holds (apart from the emptied queue of failed
/// injections).
pub open spec fn merge_trace(pre: Execution, post: Execution, partition_exists: Seq<bool>, trace: Seq<Execution>) -> bool {
    let fs = pre.fallbacks@;
    &&& trace.len() == fs.len() + 1
    &&& trace[0] == pre
    &&& forall|i: int| 0 <= i < fs.len() ==> #[trigger] merged_step(trace[i], trace[i + 1], fs[i], partition_exists[i])
    &&& post.overlay_ops == trace[fs.len() as int].overlay_ops
    &&& post.magic_queue == trace[fs.len() as int].magic_queue
    &&& post.overlay_ids == trace[fs.len() as int].overlay_ids
    &&& post.merged_ids == trace[fs.len() as int].merged_ids
    &&& post.stranded_ids == trace[fs.len() as int].stranded_ids
    &&& post.hymo_ops == pre.hymo_ops
    &&& post.hymo_ids == pre.hymo_ids
    &&& post.served == pre.served
}

/// The layer that a failed injection contributes to an overlay.
pub open spec fn fallback_layer(f: HymoOperation, l: Layer) -> bool {
    l.module_id@ == f.module_id@ && l.module_root@ == f.module_root@ && l.path@ == f.source@
}

/// `r` is the module of one of the failed injections `fs`.
pub open spec fn from_fallback(fs: Seq<HymoOperation>, r: MagicRoot) -> bool {
    exists|i: int| 0 <= i < fs.len() && r.module_id@ == fs[i].module_id@ && r.root@ == (#[trigger] fs[i]).module_root@
}

/// What merging the failed injections into the overlays did.
pub open spec fn merge_done(pre: Execution, post: Execution) -> bool {
    post.fallbacks@.len() == 0 && merge_relation(pre, post, pre.fallbacks@)
}

/// `post` is `pre` with the failed injections `fs` merged.
pub open spec fn merge_relation(pre: Execution, post: Execution, fs: Seq<HymoOperation>) -> bool {
    &&& post.hymo_ops == pre.hymo_ops
    &&& post.hymo_ids == pre.hymo_ids
    &&& post.served == pre.served
    &&& overlay_ops_well_formed(post.overlay_ops@)
    &&& post.merged_ids@.len() >= pre.merged_ids@.len()
    &&& texts(post.merged_ids@).subrange(0, pre.merged_ids@.len() as int) == texts(pre.merged_ids@)
    &&& texts(post.overlay_ids@) == texts(pre.overlay_ids@) + texts(post.merged_ids@).subrange(
        pre.merged_ids@.len() as int,
        post.merged_ids@.len() as int,
    )
    &&& post.stranded_ids@.len() >= pre.stranded_ids@.len()
    &&& texts(post.stranded_ids@).subrange(0, pre.stranded_ids@.len() as int) == texts(pre.stranded_ids@)
    &&& post.magic_queue@.len() >= pre.magic_queue@.len()
    &&& post.magic_queue@.subrange(0, pre.magic_queue@.len() as int) == pre.magic_queue@
    // every new entry comes from a failed injection
    &&& forall|j: int| pre.merged_ids@.len() <= j < post.merged_ids@.len() ==> #[trigger] hymo_ids_of(fs).contains(post.merged_ids@[j]@)
    &&& forall|j: int| pre.stranded_ids@.len() <= j < post.stranded_ids@.len() ==> #[trigger] hymo_ids_of(fs).contains(post.stranded_ids@[j]@)
    &&& forall|j: int| pre.magic_queue@.len() <= j < post.magic_queue@.len() ==> #[trigger] from_fallback(fs, post.magic_queue@[j])
    &&& forall|j: int| pre.magic_queue@.len() <= j < post.magic_queue@.len() ==> #[trigger] ids(post.stranded_ids@).contains(post.magic_queue@[j].module_id@)
    // every failed injection went to an overlay or to the magic queue
    &&& forall|i: int| 0 <= i < fs.len() ==> #[trigger] ids(post.merged_ids@).contains(fs[i].module_id@)
        || ids(post.stranded_ids@).contains(fs[i].module_id@)
    // the overlays gained only layers of failed injections
    &&& forall|s: Seq<char>| #[trigger] layer_ids_of(post.overlay_ops@).contains(s) ==> layer_ids_of(pre.overlay_ops@).contains(s)
        || hymo_ids_of(fs).contains(s)
}

/// One failed injection `f` merged: `post` is `pre` with `f` either layered
/// into an overlay or queued for the magic-mount tree.
pub open spec fn merged_one(pre: Execution, post: Execution, f: HymoOperation) -> bool {
    &&& post.fallbacks == pre.fallbacks
    &&& post.hymo_ops == pre.hymo_ops
    &&& post.hymo_ids == pre.hymo_ids
    &&& post.served == pre.served
    &&& overlay_ops_well_formed(post.overlay_ops@)
    &&& {
        ||| {
            &&& texts(post.merged_ids@) == texts(pre.merged_ids@).push(f.module_id@)
            &&& texts(post.overlay_ids@) == texts(pre.overlay_ids@).push(f.module_id@)
            &&& post.stranded_ids == pre.stranded_ids
            &&& post.magic_queue == pre.magic_queue
            &&& forall|s: Seq<char>| #[trigger] layer_ids_of(post.overlay_ops@).contains(s) ==> layer_ids_of(pre.overlay_ops@).contains(s)
                || s == f.module_id@
        }
        ||| {
            &&& texts(post.stranded_ids@) == texts(pre.stranded_ids@).push(f.module_id@)
            &&& post.magic_queue@.len() == pre.magic_queue@.len() + 1
            &&& post.magic_queue@.subrange(0, pre.magic_queue@.len() as int) == pre.magic_queue@
            &&& post.magic_queue@.last().module_id@ == f.module_id@
            &&& post.magic_queue@.last().root@ == f.module_root@
            &&& post.merged_ids == pre.merged_ids
            &&& post.overlay_ids == pre.overlay_ids
            &&& post.overlay_ops == pre.overlay_ops
        }
    }
}

impl Execution {
    /// Sends the module of failed injection `f` to the magic-mount tree.
    fn strand(&mut self, f: &HymoOperation)
        requires
            overlay_ops_well_formed(old(self).overlay_ops@),
        ensures
            merged_one(*old(self), *final(self), *f),
            stranded_step(*old(self), *final(self), *f),
            final(self).fallbacks == old(self).fallbacks,
            final(self).hymo_ops == old(self).hymo_ops,
            final(self).hymo_ids == old(self).hymo_ids,
            final(self).served == old(self).served,
    {
        let ghost pre = self.magic_queue@;
        self.magic_queue.push(MagicRoot { module_id: f.module_id.clone(), root: f.module_root.clone() });
        let ghost pre_s = texts(self.stranded_ids@);
        self.stranded_ids.push(f.module_id.clone());
        assert(texts(self.stranded_ids@) =~= pre_s.push(f.module_id@));
        assert(self.magic_queue@.subrange(0, pre.len() as int) =~= pre);
    }

    /// Merges failed injection `f` into the overlays: in front of the layers
    /// of the overlay on its partition if there is one, else as a new overlay
    /// on `/<partition>` when `partition_exists`; where neither can take it,
    /// its module goes to the magic-mount tree.
    fn merge_one(&mut self, f: &HymoOperation, partition_exists: bool)
        requires
            overlay_ops_well_formed(old(self).overlay_ops@),
        ensures
            merged_one(*old(self), *final(self), *f),
            merged_step(*old(self), *final(self), *f, partition_exists),
    {
        let layer = Layer { module_id: f.module_id.clone(), module_root: f.module_root.clone(), path: f.source.clone() };
        let ghost ops0 = self.overlay_ops@;
        match find_op(&self.overlay_ops, f.partition.as_str()) {
            Some(k) => {
                let under = is_under(f.source.as_str(), self.overlay_ops[k].target.as_str());
                proof {
                    assert forall|k1: int| #[trigger] first_op_for(ops0, f.partition@, k1) implies k1 == k by {
                        if k1 < k {
                            assert(ops0[k1].partition_name@ != f.partition@);
                        } else if k1 > k {
                            assert(ops0[k as int].partition_name@ != f.partition@);
                        }
                    }
                    assert(!no_op_for(ops0, f.partition@)) by {
                        assert(ops0[k as int].partition_name@ == f.partition@);
                    }
                }
                if under {
                    self.strand(f);
                    return;
                }
                assert(!path_under(f.source@, ops0[k as int].target@));
                assert(joins_existing(ops0, *f));
                let mut op = self.overlay_ops.remove(k);
                let ghost old_layers = op.lowerdirs@;
                op.lowerdirs.insert(0, layer);
                assert(op.lowerdirs@ =~= seq![layer] + old_layers);
                self.overlay_ops.insert(k, op);
                assert(self.overlay_ops@ =~= ops0.update(k as int, op));
                assert(op.lowerdirs@.subrange(1, op.lowerdirs@.len() as int) =~= old_layers);
                assert(prepended(ops0[k as int], self.overlay_ops@[k as int], *f));
                assert(overlay_ops_well_formed(self.overlay_ops@)) by {
                    assert forall|k0: int| 0 <= k0 < self.overlay_ops@.len() implies {
                        let o = #[trigger] self.overlay_ops@[k0];
                        &&& absolute(o.target@)
                        &&& o.lowerdirs@.len() > 0
                        &&& forall|l: int| 0 <= l < o.lowerdirs@.len() ==> !path_under(#[trigger] o.lowerdirs@[l].path@, o.target@)
                    } by {
                        if k0 == k {
                            let o = self.overlay_ops@[k0];
                            assert forall|l: int| 0 <= l < o.lowerdirs@.len() implies !path_under(#[trigger] o.lowerdirs@[l].path@, o.target@) by {
                                assert(o.target == ops0[k0].target);
                                if l > 0 {
                                    assert(o.lowerdirs@[l] == ops0[k0].lowerdirs@[l - 1]);
                                    let o0 = ops0[k0];
                                    assert(0 <= l - 1 < o0.lowerdirs@.len());
                                    assert(!path_under(o0.lowerdirs@[l - 1].path@, o0.target@));
                                } else {
                                    assert(o.lowerdirs@[0].path@ == f.source@);
                                }
                            }
                        }
                    }
                }
                assert forall|s: Seq<char>| #[trigger] layer_ids_of(self.overlay_ops@).contains(s) implies layer_ids_of(ops0).contains(s)
                    || s == f.module_id@ by {
                    let (k0, l) = choose|k0: int, l: int| 0 <= k0 < self.overlay_ops@.len() && 0 <= l < self.overlay_ops@[k0].lowerdirs@.len()
                        && #[trigger] self.overlay_ops@[k0].lowerdirs@[l].module_id@ == s;
                    if k0 == k && l > 0 {
                        assert(ops0[k0].lowerdirs@[l - 1].module_id@ == s);
                    } else if k0 != k {
                        assert(ops0[k0].lowerdirs@[l].module_id@ == s);
                    }
                }
            },
            None => {
                assert(!joins_existing(ops0, *f));
                if !partition_exists {
                    self.strand(f);
                    return;
                }
                let target = root_path(f.partition.as_str());
                if is_under(f.source.as_str(), target.as_str()) {
                    self.strand(f);
                    return;
                }
                let mut lowerdirs: Vec<Layer> = Vec::new();
                lowerdirs.push(layer);
                let op = OverlayOperation { partition_name: f.partition.clone(), target, lowerdirs };
                self.overlay_ops.push(op);
                assert(self.overlay_ops@ =~= ops0.push(op));
                assert(opens_new(ops0, *f, partition_exists));
                assert(self.overlay_ops@.subrange(0, ops0.len() as int) =~= ops0);
                assert(overlay_ops_well_formed(self.overlay_ops@)) by {
                    assert forall|k0: int| 0 <= k0 < self.overlay_ops@.len() implies {
                        let o = #[trigger] self.overlay_ops@[k0];
                        &&& absolute(o.target@)
                        &&& o.lowerdirs@.len() > 0
                        &&& forall|l: int| 0 <= l < o.lowerdirs@.len() ==> !path_under(#[trigger] o.lowerdirs@[l].path@, o.target@)
                    } by {
                        if k0 < ops0.len() {
                            assert(self.overlay_ops@[k0] == ops0[k0]);
                        }
                    }
                }
                assert forall|s: Seq<char>| #[trigger] layer_ids_of(self.overlay_ops@).contains(s) implies layer_ids_of(ops0).contains(s)
                    || s == f.module_id@ by {
                    let (k0, l) = choose|k0: int, l: int| 0 <= k0 < self.overlay_ops@.len() && 0 <= l < self.overlay_ops@[k0].lowerdirs@.len()
                        && #[trigger] self.overlay_ops@[k0].lowerdirs@[l].module_id@ == s;
                    if k0 < ops0.len() {
                        assert(ops0[k0].lowerdirs@[l].module_id@ == s);
                    }
                }
            },
        }
        let ghost pm = texts(self.merged_ids@);
        let ghost po = texts(self.overlay_ids@);
        self.merged_ids.push(f.module_id.clone());
        self.overlay_ids.push(f.module_id.clone());
        assert(texts(self.merged_ids@) =~= pm.push(f.module_id@));
        assert(texts(self.overlay_ids@) =~= po.push(f.module_id@));
    }
}

pub proof fn lemma_merge_step(pre: Execution, cur: Execution, next: Execution, fs: Seq<HymoOperation>, f: HymoOperation)
    requires
        merge_relation(pre, cur, fs),
        merged_one(cur, next, f),
    ensures
        merge_relation(pre, next, fs.push(f)),
{
    let gs = fs.push(f);
    assert forall|i: int| 0 <= i < fs.len() implies hymo_ids_of(gs).contains(#[trigger] fs[i].module_id@) by {
        assert(gs[i] == fs[i]);
    }
    assert(hymo_ids_of(gs).contains(f.module_id@)) by {
        assert(gs[fs.len() as int] == f);
    }
    assert forall|s: Seq<char>| hymo_ids_of(fs).contains(s) implies #[trigger] hymo_ids_of(gs).contains(s) by {
        let i = choose|i: int| 0 <= i < fs.len() && #[trigger] fs[i].module_id@ == s;
        assert(gs[i] == fs[i]);
    }
    let pm = pre.merged_ids@.len() as int;
    let ps = pre.stranded_ids@.len() as int;
    let pq = pre.magic_queue@.len() as int;
    assert(texts(next.merged_ids@).len() == next.merged_ids@.len());
    assert(texts(cur.merged_ids@).len() == cur.merged_ids@.len());
    assert(texts(next.stranded_ids@).len() == next.stranded_ids@.len());
    assert(texts(cur.stranded_ids@).len() == cur.stranded_ids@.len());
    assert(texts(next.overlay_ids@).len() == next.overlay_ids@.len());
    assert(texts(cur.overlay_ids@).len() == cur.overlay_ids@.len());
    if texts(next.merged_ids@) == texts(cur.merged_ids@).push(f.module_id@) {
        assert(texts(next.merged_ids@).subrange(0, pm) =~= texts(cur.merged_ids@).subrange(0, pm));
        assert(texts(next.merged_ids@).subrange(pm, next.merged_ids@.len() as int) =~= texts(cur.merged_ids@).subrange(
            pm,
            cur.merged_ids@.len() as int,
        ).push(f.module_id@));
        assert(texts(next.overlay_ids@) =~= texts(pre.overlay_ids@) + texts(next.merged_ids@).subrange(
            pm,
            next.merged_ids@.len() as int,
        ));
        assert forall|s: Seq<char>| #[trigger] layer_ids_of(next.overlay_ops@).contains(s) implies layer_ids_of(pre.overlay_ops@).contains(s)
            || hymo_ids_of(gs).contains(s) by {
            if layer_ids_of(cur.overlay_ops@).contains(s) {
                if hymo_ids_of(fs).contains(s) {
                    assert(hymo_ids_of(gs).contains(s));
                }
            }
        }
        assert forall|j: int| pm <= j < next.merged_ids@.len() implies #[trigger] hymo_ids_of(gs).contains(next.merged_ids@[j]@) by {
            if j < cur.merged_ids@.len() {
                assert(texts(next.merged_ids@)[j] == texts(cur.merged_ids@)[j]);
            } else {
                assert(texts(next.merged_ids@)[j] == f.module_id@);
            }
        }
        assert forall|i: int| 0 <= i < gs.len() implies #[trigger] ids(next.merged_ids@).contains(gs[i].module_id@)
            || ids(next.stranded_ids@).contains(gs[i].module_id@) by {
            if i < fs.len() {
                assert(gs[i] == fs[i]);
                if ids(cur.merged_ids@).contains(fs[i].module_id@) {
                    let j = choose|j: int| 0 <= j < texts(cur.merged_ids@).len() && texts(cur.merged_ids@)[j] == fs[i].module_id@;
                    assert(texts(next.merged_ids@)[j] == fs[i].module_id@);
                }
            } else {
                assert(texts(next.merged_ids@)[cur.merged_ids@.len() as int] == f.module_id@);
            }
        }
        assert forall|j: int| pq <= j < next.magic_queue@.len() implies #[trigger] ids(next.stranded_ids@).contains(next.magic_queue@[j].module_id@) by {
            assert(ids(cur.stranded_ids@).contains(cur.magic_queue@[j].module_id@));
        }
        assert forall|j: int| pq <= j < next.magic_queue@.len() implies #[trigger] from_fallback(gs, next.magic_queue@[j]) by {
            assert(from_fallback(fs, cur.magic_queue@[j]));
            let i = choose|i: int| 0 <= i < fs.len() && cur.magic_queue@[j].module_id@ == fs[i].module_id@
                && cur.magic_queue@[j].root@ == (#[trigger] fs[i]).module_root@;
            assert(gs[i] == fs[i]);
        }
    } else {
        assert(texts(next.stranded_ids@).subrange(0, ps) =~= texts(cur.stranded_ids@).subrange(0, ps));
        assert forall|j: int| ps <= j < next.stranded_ids@.len() implies #[trigger] hymo_ids_of(gs).contains(next.stranded_ids@[j]@) by {
            if j < cur.stranded_ids@.len() {
                assert(texts(next.stranded_ids@)[j] == texts(cur.stranded_ids@)[j]);
            } else {
                assert(texts(next.stranded_ids@)[j] == f.module_id@);
            }
        }
        assert(next.magic_queue@.subrange(0, pq) =~= cur.magic_queue@.subrange(0, pq));
        assert forall|s: Seq<char>| #[trigger] layer_ids_of(next.overlay_ops@).contains(s) implies layer_ids_of(pre.overlay_ops@).contains(s)
            || hymo_ids_of(gs).contains(s) by {
            if hymo_ids_of(fs).contains(s) {
                assert(hymo_ids_of(gs).contains(s));
            }
        }
        assert forall|j: int| pq <= j < next.magic_queue@.len() implies #[trigger] from_fallback(gs, next.magic_queue@[j]) by {
            if j < cur.magic_queue@.len() {
                assert(next.magic_queue@[j] == cur.magic_queue@[j]);
                assert(from_fallback(fs, cur.magic_queue@[j]));
                let i = choose|i: int| 0 <= i < fs.len() && cur.magic_queue@[j].module_id@ == fs[i].module_id@
                    && cur.magic_queue@[j].root@ == (#[trigger] fs[i]).module_root@;
                assert(gs[i] == fs[i]);
            } else {
                assert(gs[fs.len() as int] == f);
            }
        }
        assert forall|j: int| pq <= j < next.magic_queue@.len() implies #[trigger] ids(next.stranded_ids@).contains(next.magic_queue@[j].module_id@) by {
            if j < cur.magic_queue@.len() {
                assert(next.magic_queue@[j] == cur.magic_queue@[j]);
                assert(ids(cur.stranded_ids@).contains(cur.magic_queue@[j].module_id@));
                let t = choose|t: int| 0 <= t < texts(cur.stranded_ids@).len() && texts(cur.stranded_ids@)[t] == cur.magic_queue@[j].module_id@;
                assert(texts(next.stranded_ids@)[t] == cur.magic_queue@[j].module_id@);
            } else {
                assert(texts(next.stranded_ids@)[cur.stranded_ids@.len() as int] == f.module_id@);
            }
        }
        assert forall|i: int| 0 <= i < gs.len() implies #[trigger] ids(next.merged_ids@).contains(gs[i].module_id@)
            || ids(next.stranded_ids@).contains(gs[i].module_id@) by {
            if i < fs.len() {
                assert(gs[i] == fs[i]);
                if ids(cur.stranded_ids@).contains(fs[i].module_id@) {
                    let j = choose|j: int| 0 <= j < texts(cur.stranded_ids@).len() && texts(cur.stranded_ids@)[j] == fs[i].module_id@;
                    assert(texts(next.stranded_ids@)[j] == fs[i].module_id@);
                }
            } else {
                assert(texts(next.stranded_ids@)[cur.stranded_ids@.len() as int] == f.module_id@);
            }
        }
    }
}

impl Execution {
    /// Merges the failed injections into the overlays, in order;
    /// `partition_exists[i]` tells whether `/<partition>` of the `i`-th
    /// exists on the host.
    pub fn merge_fallbacks(&mut self, partition_exists: &Vec<bool>)
        requires
            partition_exists@.len() == old(self).fallbacks@.len(),
            overlay_ops_well_formed(old(self).overlay_ops@),
        ensures
            merge_done(*old(self), *final(self)),
            exists|trace: Seq<Execution>| merge_trace(*old(self), *final(self), partition_exists@, trace),
    {
        let ghost pre = *self;
        let ghost mut trace: Seq<Execution> = seq![*self];
        assert(texts(self.merged_ids@).subrange(0, self.merged_ids@.len() as int) =~= texts(self.merged_ids@));
        assert(texts(self.stranded_ids@).subrange(0, self.stranded_ids@.len() as int) =~= texts(self.stranded_ids@));
        assert(texts(self.overlay_ids@) =~= texts(self.overlay_ids@) + texts(self.merged_ids@).subrange(
            self.merged_ids@.len() as int,
            self.merged_ids@.len() as int,
        ));
        assert(self.magic_queue@.subrange(0, self.magic_queue@.len() as int) =~= self.magic_queue@);
        let n = self.fallbacks.len();
        let mut i: usize = 0;
        while i < n
            invariant
                i <= n,
                n == pre.fallbacks@.len(),
                partition_exists@.len() == n,
                self.fallbacks == pre.fallbacks,
                merge_relation(pre, *self, pre.fallbacks@.subrange(0, i as int)),
                trace.len() == i + 1,
                trace[0] == pre,
                trace[i as int] == *self,
                forall|j: int| 0 <= j < i ==> #[trigger] merged_step(trace[j], trace[j + 1], pre.fallbacks@[j], partition_exists@[j]),
            decreases n - i,
        {
            let f = self.fallbacks[i].copied();
            let ghost cur = *self;
            self.merge_one(&f, partition_exists[i]);
            proof {
                lemma_merge_step(pre, cur, *self, pre.fallbacks@.subrange(0, i as int), f);
                assert(pre.fallbacks@.subrange(0, i as int).push(f) =~= pre.fallbacks@.subrange(0, i + 1));
                let t0 = trace;
                trace = trace.push(*self);
                assert forall|j: int| 0 <= j < i + 1 implies #[trigger] merged_step(trace[j], trace[j + 1], pre.fallbacks@[j], partition_exists@[j]) by {
                    if j < i {
                        assert(trace[j] == t0[j] && trace[j + 1] == t0[j + 1]);
                    }
                }
            }
            i = i + 1;
        }
        assert(pre.fallbacks@.subrange(0, n as int) =~= pre.fallbacks@);
        let ghost last = *self;
        self.fallbacks = Vec::new();
        assert(merge_relation(pre, last, pre.fallbacks@));
        assert(self.merged_ids == last.merged_ids && self.stranded_ids == last.stranded_ids && self.overlay_ids == last.overlay_ids
            && self.magic_queue == last.magic_queue && self.overlay_ops == last.overlay_ops && self.hymo_ops == last.hymo_ops
            && self.hymo_ids == last.hymo_ids && self.served == last.served);
        assert(merge_relation(pre, *self, pre.fallbacks@));
        assert(merge_trace(pre, *self, partition_exists@, trace));
    }
}

/// The modules of the layers of the overlays that failed to mount.
pub open spec fn failed_layer_ids(ops: Seq<OverlayOperation>, mounted: Seq<bool>) -> Set<Seq<char>> {
    Set::new(|s: Seq<char>| exists|k: int, l: int| 0 <= k < ops.len() && !mounted[k] && 0 <= l < ops[k].lowerdirs@.len()
        && #[trigger] ops[k].lowerdirs@[l].module_id@ == s)
}

/// `r` is the module of a layer of an overlay that failed to mount.
pub open spec fn from_failed_overlay(ops: Seq<OverlayOperation>, mounted: Seq<bool>, r: MagicRoot) -> bool {
    exists|k: int, l: int| 0 <= k < ops.len() && !mounted[k] && 0 <= l < ops[k].lowerdirs@.len()
        && r.module_id@ == ops[k].lowerdirs@[l].module_id@ && r.root@ == (#[trigger] ops[k].lowerdirs@[l]).module_root@
}

/// What recording the outcome of the overlay phase did: each layer of a
/// failed overlay sends its module to the magic-mount tree and out of the
/// overlay ids.
pub open spec fn overlays_done(pre: Execution, post: Execution, mounted: Seq<bool>) -> bool {
    let ops = pre.overlay_ops@;
    &&& post.overlay_ops == pre.overlay_ops
    &&& post.hymo_ops == pre.hymo_ops
    &&& post.hymo_ids == pre.hymo_ids
    &&& post.fallbacks == pre.fallbacks
    &&& post.merged_ids == pre.merged_ids
    &&& post.stranded_ids == pre.stranded_ids
    &&& ids(post.overlay_ids@) == ids(pre.overlay_ids@).difference(failed_layer_ids(ops, mounted))
    &&& post.magic_queue@.len() >= pre.magic_queue@.len()
    &&& post.magic_queue@.subrange(0, pre.magic_queue@.len() as int) == pre.magic_queue@
    &&& forall|j: int| pre.magic_queue@.len() <= j < post.magic_queue@.len() ==> #[trigger] from_failed_overlay(ops, mounted, post.magic_queue@[j])
    &&& forall|k: int, l: int| 0 <= k < ops.len() && !mounted[k] && 0 <= l < ops[k].lowerdirs@.len()
        ==> #[trigger] magic_ids(post.magic_queue@).contains(ops[k].lowerdirs@[l].module_id@)
    &&& post.served@.len() >= pre.served@.len()
    &&& post.served@.subrange(0, pre.served@.len() as int) == pre.served@
    &&& forall|j: int| pre.served@.len() <= j < post.served@.len() ==> #[trigger] served_by_overlay(ops, mounted, post.served@[j])
    &&& served_view(post.served@) == served_view(pre.served@) + overlay_served(ops, mounted)
}

impl Execution {
    /// Records the outcome of the overlay phase: `mounted[k]` tells whether
    /// overlay `k` was mounted.
    pub fn record_overlays(&mut self, mounted: &Vec<bool>)
        requires
            mounted@.len() == old(self).overlay_ops@.len(),
        ensures
            overlays_done(*old(self), *final(self), mounted@),
    {
        let ghost pre = *self;
        let ghost ops = self.overlay_ops@;
        let mut failed: Vec<String> = Vec::new();
        let mut k: usize = 0;
        while k < self.overlay_ops.len()
            invariant
                k <= ops.len(),
                ops == self.overlay_ops@,
                mounted@.len() == ops.len(),
                self.overlay_ops == pre.overlay_ops,
                self.hymo_ops == pre.hymo_ops,
                self.hymo_ids == pre.hymo_ids,
                self.fallbacks == pre.fallbacks,
                self.merged_ids == pre.merged_ids,
                self.stranded_ids == pre.stranded_ids,
                self.overlay_ids == pre.overlay_ids,
                self.served@.len() >= pre.served@.len(),
                self.served@.subrange(0, pre.served@.len() as int) == pre.served@,
                served_view(self.served@) == served_view(pre.served@) + overlay_served(ops.subrange(0, k as int), mounted@),
                forall|j: int| pre.served@.len() <= j < self.served@.len() ==> #[trigger] served_by_overlay(ops, mounted@, self.served@[j]),
                self.magic_queue@.len() >= pre.magic_queue@.len(),
                self.magic_queue@.subrange(0, pre.magic_queue@.len() as int) == pre.magic_queue@,
                forall|j: int| pre.magic_queue@.len() <= j < self.magic_queue@.len() ==> #[trigger] from_failed_overlay(ops, mounted@, self.magic_queue@[j]),
                forall|k0: int, l: int| 0 <= k0 < k && !mounted@[k0] && 0 <= l < ops[k0].lowerdirs@.len()
                    ==> #[trigger] magic_ids(self.magic_queue@).contains(ops[k0].lowerdirs@[l].module_id@),
                forall|s: Seq<char>| #[trigger] texts(failed@).contains(s) <==> exists|k0: int, l: int| 0 <= k0 < k && !mounted@[k0]
                    && 0 <= l < ops[k0].lowerdirs@.len() && #[trigger] ops[k0].lowerdirs@[l].module_id@ == s,
            decreases ops.len() - k,
        {
            let n = self.overlay_ops[k].lowerdirs.len();
            assert(layer_records(ops[k as int]).subrange(0, 0) =~= Seq::<(Seq<char>, Seq<char>)>::empty());
            assert(overlay_served(ops.subrange(0, k as int), mounted@) + Seq::<(Seq<char>, Seq<char>)>::empty() =~= overlay_served(
                ops.subrange(0, k as int),
                mounted@,
            ));
            let mut l: usize = 0;
            while l < n
                invariant
                    k < ops.len(),
                    ops == self.overlay_ops@,
                    n == ops[k as int].lowerdirs@.len(),
                    l <= n,
                    mounted@.len() == ops.len(),
                    self.overlay_ops == pre.overlay_ops,
                    self.hymo_ops == pre.hymo_ops,
                    self.hymo_ids == pre.hymo_ids,
                    self.fallbacks == pre.fallbacks,
                    self.merged_ids == pre.merged_ids,
                    self.stranded_ids == pre.stranded_ids,
                    self.overlay_ids == pre.overlay_ids,
                    self.served@.len() >= pre.served@.len(),
                self.served@.subrange(0, pre.served@.len() as int) == pre.served@,
                served_view(self.served@) == served_view(pre.served@) + overlay_served(ops.subrange(0, k as int), mounted@) + (if mounted@[k as int] {
                    layer_records(ops[k as int]).subrange(0, l as int)
                } else {
                    Seq::empty()
                }),
                forall|j: int| pre.served@.len() <= j < self.served@.len() ==> #[trigger] served_by_overlay(ops, mounted@, self.served@[j]),
                    self.magic_queue@.len() >= pre.magic_queue@.len(),
                    self.magic_queue@.subrange(0, pre.magic_queue@.len() as int) == pre.magic_queue@,
                    forall|j: int| pre.magic_queue@.len() <= j < self.magic_queue@.len() ==> #[trigger] from_failed_overlay(ops, mounted@, self.magic_queue@[j]),
                    forall|k0: int, l0: int| 0 <= k0 < k && !mounted@[k0] && 0 <= l0 < ops[k0].lowerdirs@.len()
                        ==> #[trigger] magic_ids(self.magic_queue@).contains(ops[k0].lowerdirs@[l0].module_id@),
                    !mounted@[k as int] ==> forall|l0: int| 0 <= l0 < l
                        ==> #[trigger] magic_ids(self.magic_queue@).contains(ops[k as int].lowerdirs@[l0].module_id@),
                    forall|s: Seq<char>| #[trigger] texts(failed@).contains(s) <==> (exists|k0: int, l0: int| 0 <= k0 < k && !mounted@[k0]
                        && 0 <= l0 < ops[k0].lowerdirs@.len() && #[trigger] ops[k0].lowerdirs@[l0].module_id@ == s)
                        || (!mounted@[k as int] && exists|l0: int| 0 <= l0 < l && #[trigger] ops[k as int].lowerdirs@[l0].module_id@ == s),
                decreases n - l,
            {
                let layer = &self.overlay_ops[k].lowerdirs[l];
                if mounted[k] {
                    let sp = ServedPartition { root: layer.module_root.clone(), partition: self.overlay_ops[k].partition_name.clone() };
                    let ghost sv = self.served@;
                    assert(served_by_overlay(ops, mounted@, sp)) by {
                        assert(sp.root@ == ops[k as int].lowerdirs@[l as int].module_root@);
                    }
                    self.served.push(sp);
                    assert(served_view(self.served@) =~= served_view(sv).push((sp.root@, sp.partition@)));
                    assert(layer_records(ops[k as int]).subrange(0, l + 1) =~= layer_records(ops[k as int]).subrange(0, l as int).push(
                        (sp.root@, sp.partition@),
                    ));
                    assert(self.served@.subrange(0, pre.served@.len() as int) =~= sv.subrange(0, pre.served@.len() as int));
                    assert forall|j: int| pre.served@.len() <= j < self.served@.len() implies #[trigger] served_by_overlay(ops, mounted@, self.served@[j]) by {
                        if j < sv.len() {
                            assert(self.served@[j] == sv[j]);
                        }
                    }
                } else {
                    let id = layer.module_id.clone();
                    let r = MagicRoot { module_id: layer.module_id.clone(), root: layer.module_root.clone() };
                    let ghost q0 = self.magic_queue@;
                    self.magic_queue.push(r);
                    assert(self.magic_queue@.subrange(0, pre.magic_queue@.len() as int) =~= q0.subrange(0, pre.magic_queue@.len() as int));
                    assert(from_failed_overlay(ops, mounted@, r));
                    assert forall|j: int| pre.magic_queue@.len() <= j < self.magic_queue@.len() implies #[trigger] from_failed_overlay(ops, mounted@, self.magic_queue@[j]) by {
                        if j < q0.len() {
                            assert(self.magic_queue@[j] == q0[j]);
                        }
                    }
                    assert(self.magic_queue@[q0.len() as int] == r);
                    assert forall|x: Seq<char>| magic_ids(q0).contains(x) implies #[trigger] magic_ids(self.magic_queue@).contains(x) by {
                        let j = choose|j: int| 0 <= j < q0.len() && #[trigger] q0[j].module_id@ == x;
                        assert(self.magic_queue@[j] == q0[j]);
                    }
                    assert(magic_ids(self.magic_queue@).contains(ops[k as int].lowerdirs@[l as int].module_id@));
                    let ghost f0 = texts(failed@);
                    failed.push(id);
                    assert(texts(failed@) =~= f0.push(ops[k as int].lowerdirs@[l as int].module_id@));
                    proof {
                        lemma_push_contains(f0, ops[k as int].lowerdirs@[l as int].module_id@);
                    }
                }
                proof {
                    assert forall|s: Seq<char>| #[trigger] texts(failed@).contains(s) <==> (exists|k0: int, l0: int| 0 <= k0 < k && !mounted@[k0]
                        && 0 <= l0 < ops[k0].lowerdirs@.len() && #[trigger] ops[k0].lowerdirs@[l0].module_id@ == s)
                        || (!mounted@[k as int] && exists|l0: int| 0 <= l0 < l + 1 && #[trigger] ops[k as int].lowerdirs@[l0].module_id@ == s) by {
                        if !mounted@[k as int] && s == ops[k as int].lowerdirs@[l as int].module_id@ {
                            assert(ops[k as int].lowerdirs@[l as int].module_id@ == s);
                        }
                    }
                }
                l = l + 1;
            }
            assert(ops.subrange(0, k + 1).drop_last() =~= ops.subrange(0, k as int));
            assert(layer_records(ops[k as int]).subrange(0, l as int) =~= layer_records(ops[k as int]));
            assert(overlay_served(ops.subrange(0, k as int), mounted@) + Seq::<(Seq<char>, Seq<char>)>::empty() =~= overlay_served(
                ops.subrange(0, k as int),
                mounted@,
            ));
            assert forall|s: Seq<char>| #[trigger] texts(failed@).contains(s) <==> exists|k0: int, l0: int| 0 <= k0 < k + 1 && !mounted@[k0]
                && 0 <= l0 < ops[k0].lowerdirs@.len() && #[trigger] ops[k0].lowerdirs@[l0].module_id@ == s by {
                if !mounted@[k as int] && exists|l0: int| 0 <= l0 < l && #[trigger] ops[k as int].lowerdirs@[l0].module_id@ == s {
                    let l0 = choose|l0: int| 0 <= l0 < l && #[trigger] ops[k as int].lowerdirs@[l0].module_id@ == s;
                    assert(ops[k as int].lowerdirs@[l0].module_id@ == s);
                }
            }
            k = k + 1;
        }
        let mut kept: Vec<String> = Vec::new();
        let mut j: usize = 0;
        while j < self.overlay_ids.len()
            invariant
                j <= self.overlay_ids@.len(),
                forall|s: Seq<char>| #[trigger] texts(failed@).contains(s) <==> failed_layer_ids(ops, mounted@).contains(s),
                forall|s: Seq<char>| #[trigger] texts(kept@).contains(s) <==> (texts(self.overlay_ids@.subrange(0, j as int)).contains(s)
                    && !failed_layer_ids(ops, mounted@).contains(s)),
            decreases self.overlay_ids@.len() - j,
        {
            let id = self.overlay_ids[j].as_str();
            assert(texts(self.overlay_ids@.subrange(0, j + 1)) =~= texts(self.overlay_ids@.subrange(0, j as int)).push(id@));
            proof {
                lemma_push_contains(texts(self.overlay_ids@.subrange(0, j as int)), id@);
            }
            if !crate::text::contains_text(&failed, id) {
                let ghost before = texts(kept@);
                kept.push(self.overlay_ids[j].clone());
                assert(texts(kept@) =~= before.push(id@));
                proof {
                    lemma_push_contains(before, id@);
                }
            }
            j = j + 1;
        }
        assert(self.overlay_ids@.subrange(0, j as int) =~= self.overlay_ids@);
        self.overlay_ids = kept;
        assert(ids(self.overlay_ids@) =~= ids(pre.overlay_ids@).difference(failed_layer_ids(ops, mounted@)));
        assert(ops.subrange(0, ops.len() as int) =~= ops);
    }
}

impl Execution {
    /// The content directories that the magic-mount tree is to compose,
    /// sorted, each once.
    pub fn magic_paths(&self) -> (r: Vec<String>)
        ensures
            strictly_ascending(texts(r@)),
            forall|s: Seq<char>| #[trigger] texts(r@).contains(s) <==> exists|j: int|
                0 <= j < self.magic_queue@.len() && #[trigger] self.magic_queue@[j].root@ == s,
    {
        let mut raw: Vec<String> = Vec::new();
        let mut j: usize = 0;
        while j < self.magic_queue.len()
            invariant
                j <= self.magic_queue@.len(),
                forall|s: Seq<char>| #[trigger] texts(raw@).contains(s) <==> exists|j0: int|
                    0 <= j0 < j && #[trigger] self.magic_queue@[j0].root@ == s,
            decreases self.magic_queue@.len() - j,
        {
            let ghost before = texts(raw@);
            raw.push(self.magic_queue[j].root.clone());
            assert(texts(raw@) =~= before.push(self.magic_queue@[j as int].root@));
            proof {
                lemma_push_contains(before, self.magic_queue@[j as int].root@);
            }
            assert forall|s: Seq<char>| #[trigger] texts(raw@).contains(s) <==> exists|j0: int|
                0 <= j0 < j + 1 && #[trigger] self.magic_queue@[j0].root@ == s by {
                if s == self.magic_queue@[j as int].root@ {
                    assert(self.magic_queue@[j as int].root@ == s);
                }
            }
            j = j + 1;
        }
        let r = sorted_unique(&raw);
        assert forall|s: Seq<char>| #[trigger] texts(r@).contains(s) <==> texts(raw@).contains(s) by {
            assert(texts(r@).to_set().contains(s) == texts(raw@).to_set().contains(s));
        }
        r
    }

    /// The ids of the three strategies once all phases have run; the magic
    /// ones count only when the magic mount succeeded (`magic_ok`).
    pub fn finish(self, magic_ok: bool) -> (r: ExecutionResult)
        ensures
            finished(self, magic_ok, r),
    {
        let mut raw: Vec<String> = Vec::new();
        if magic_ok {
            let mut j: usize = 0;
            while j < self.magic_queue.len()
                invariant
                    j <= self.magic_queue@.len(),
                    forall|s: Seq<char>| #[trigger] texts(raw@).contains(s) <==> exists|j0: int|
                        0 <= j0 < j && #[trigger] self.magic_queue@[j0].module_id@ == s,
                decreases self.magic_queue@.len() - j,
            {
                let ghost before = texts(raw@);
                raw.push(self.magic_queue[j].module_id.clone());
                assert(texts(raw@) =~= before.push(self.magic_queue@[j as int].module_id@));
                proof {
                    lemma_push_contains(before, self.magic_queue@[j as int].module_id@);
                }
                assert forall|s: Seq<char>| #[trigger] texts(raw@).contains(s) <==> exists|j0: int|
                    0 <= j0 < j + 1 && #[trigger] self.magic_queue@[j0].module_id@ == s by {
                    if s == self.magic_queue@[j as int].module_id@ {
                        assert(self.magic_queue@[j as int].module_id@ == s);
                    }
                }
                j = j + 1;
            }
            assert(ids(raw@) =~= magic_ids(self.magic_queue@));
        } else {
            assert(ids(raw@) =~= Set::empty());
        }
        let r = ExecutionResult {
            overlay_module_ids: sorted_unique(&self.overlay_ids),
            hymo_module_ids: sorted_unique(&self.hymo_ids),
            magic_module_ids: sorted_unique(&raw),
        };
        r
    }
}

pub proof fn lemma_failed_injections_within(hs: Seq<HymoOperation>, available: bool, injected: Seq<bool>)
    ensures
        hymo_ids_of(failed_injections(hs, available, injected)).subset_of(hymo_ids_of(hs)),
    decreases hs.len(),
{
    if hs.len() > 0 {
        lemma_failed_injections_within(hs.drop_last(), available, injected);
        let prev = failed_injections(hs.drop_last(), available, injected);
        let cur = failed_injections(hs, available, injected);
        assert forall|s: Seq<char>| hymo_ids_of(cur).contains(s) implies hymo_ids_of(hs).contains(s) by {
            let j = choose|j: int| 0 <= j < cur.len() && #[trigger] cur[j].module_id@ == s;
            if j < prev.len() {
                assert(cur[j] == prev[j]);
                assert(hymo_ids_of(prev).contains(s));
                let i = choose|i: int| 0 <= i < hs.drop_last().len() && #[trigger] hs.drop_last()[i].module_id@ == s;
                assert(hs[i].module_id@ == s);
            } else {
                assert(hs[hs.len() - 1].module_id@ == s);
            }
        }
    }
}

/// Once every phase has run, no module counts under two strategies, provided
/// the plan puts no module under two strategies and no module had one failed
/// injection merged into an overlay and another sent to the magic-mount tree.
pub proof fn lemma_strategies_disjoint(
    extras: Seq<String>,
    mods: Seq<crate::inventory::Module>,
    cs: Seq<crate::planner::ModuleContent>,
    ts: Seq<crate::planner::PartitionTarget>,
    plan: MountPlan,
    e0: Execution,
    e1: Execution,
    e2: Execution,
    e3: Execution,
    available: bool,
    injected: Seq<bool>,
    mounted: Seq<bool>,
    magic_ok: bool,
    r: ExecutionResult,
)
    requires
        crate::planner::plan_exact(extras, mods, cs, ts, plan),
        ids(plan.overlay_module_ids@).disjoint(ids(plan.hymo_module_ids@)),
        ids(plan.overlay_module_ids@).disjoint(ids(plan.magic_module_ids@)),
        ids(plan.hymo_module_ids@).disjoint(ids(plan.magic_module_ids@)),
        started(plan, e0),
        injections_done(e0, e1, available, injected),
        merge_done(e1, e2),
        ids(e2.merged_ids@).disjoint(ids(e2.stranded_ids@)),
        overlays_done(e2, e3, mounted),
        finished(e3, magic_ok, r),
    ensures
        ids(r.overlay_module_ids@).disjoint(ids(r.hymo_module_ids@)),
        ids(r.overlay_module_ids@).disjoint(ids(r.magic_module_ids@)),
        ids(r.hymo_module_ids@).disjoint(ids(r.magic_module_ids@)),
{
    let o0 = ids(plan.overlay_module_ids@);
    let h0 = ids(plan.hymo_module_ids@);
    let g0 = ids(plan.magic_module_ids@);
    let failed = failed_injections(e0.hymo_ops@, available, injected);
    let f1 = hymo_ids_of(failed);
    lemma_failed_injections_within(e0.hymo_ops@, available, injected);
    assert(e1.fallbacks@ =~= failed);
    // the plan's injections belong to its injected ids
    assert forall|s: Seq<char>| hymo_ids_of(plan.hymo_ops@).contains(s) implies h0.contains(s) by {
        assert(crate::planner::injected_id(plan.hymo_ops@, s));
        assert(texts(plan.hymo_module_ids@).contains(s));
    }
    // layers of the plan belong to its overlay ids
    assert forall|s: Seq<char>| layer_ids_of(plan.overlay_ops@).contains(s) implies o0.contains(s) by {
        assert(crate::planner::layered_id(plan.overlay_ops@, s));
        assert(texts(plan.overlay_module_ids@).contains(s));
    }
    // the plan's magic roots belong to its magic ids
    assert forall|s: Seq<char>| magic_ids(plan.magic_roots@).contains(s) implies g0.contains(s) by {
        let j = choose|j: int| 0 <= j < plan.magic_roots@.len() && #[trigger] plan.magic_roots@[j].module_id@ == s;
        assert(crate::planner::is_magic_root(extras, mods, cs, plan.magic_roots@[j]));
        let i = choose|i: int| 0 <= i < mods.len() && #[trigger] crate::planner::magic_pair(extras, mods[i], cs[i],
            plan.magic_roots@[j].module_id@, plan.magic_roots@[j].root@);
        assert(crate::planner::magic_module(extras, mods[i], cs[i]));
        assert(texts(plan.magic_module_ids@).contains(s));
    }
    // merged and stranded modules had a failed injection
    assert forall|s: Seq<char>| ids(e2.merged_ids@).contains(s) implies f1.contains(s) by {
        let j = choose|j: int| 0 <= j < texts(e2.merged_ids@).len() && texts(e2.merged_ids@)[j] == s;
        assert(hymo_ids_of(e1.fallbacks@).contains(e2.merged_ids@[j]@));
    }
    assert forall|s: Seq<char>| ids(e2.stranded_ids@).contains(s) implies f1.contains(s) by {
        let j = choose|j: int| 0 <= j < texts(e2.stranded_ids@).len() && texts(e2.stranded_ids@)[j] == s;
        assert(hymo_ids_of(e1.fallbacks@).contains(e2.stranded_ids@[j]@));
    }
    // overlay ids after merging
    assert forall|s: Seq<char>| ids(e2.overlay_ids@).contains(s) implies o0.contains(s) || ids(e2.merged_ids@).contains(s) by {
        let j = choose|j: int| 0 <= j < texts(e2.overlay_ids@).len() && texts(e2.overlay_ids@)[j] == s;
        let n0 = e1.overlay_ids@.len() as int;
        if j < n0 {
            assert(texts(e1.overlay_ids@)[j] == s);
        } else {
            assert(texts(e2.merged_ids@)[j - n0 + e1.merged_ids@.len()] == s);
        }
    }
    // the magic queue after merging
    assert forall|s: Seq<char>| magic_ids(e2.magic_queue@).contains(s) implies g0.contains(s) || ids(e2.stranded_ids@).contains(s) by {
        let j = choose|j: int| 0 <= j < e2.magic_queue@.len() && #[trigger] e2.magic_queue@[j].module_id@ == s;
        if j < e1.magic_queue@.len() {
            assert(e2.magic_queue@[j] == e1.magic_queue@[j]);
            assert(magic_ids(plan.magic_roots@).contains(s));
        } else {
            assert(ids(e2.stranded_ids@).contains(e2.magic_queue@[j].module_id@));
        }
    }
    // layers after merging
    assert forall|s: Seq<char>| layer_ids_of(e2.overlay_ops@).contains(s) implies o0.contains(s) || f1.contains(s) by {
        if layer_ids_of(e1.overlay_ops@).contains(s) {
            assert(layer_ids_of(plan.overlay_ops@).contains(s));
        }
    }
    // the magic queue after the overlays
    assert forall|s: Seq<char>| magic_ids(e3.magic_queue@).contains(s) implies magic_ids(e2.magic_queue@).contains(s)
        || failed_layer_ids(e2.overlay_ops@, mounted).contains(s) by {
        let j = choose|j: int| 0 <= j < e3.magic_queue@.len() && #[trigger] e3.magic_queue@[j].module_id@ == s;
        if j < e2.magic_queue@.len() {
            assert(e3.magic_queue@[j] == e2.magic_queue@[j]);
        } else {
            assert(from_failed_overlay(e2.overlay_ops@, mounted, e3.magic_queue@[j]));
        }
    }
    assert forall|s: Seq<char>| failed_layer_ids(e2.overlay_ops@, mounted).contains(s) implies layer_ids_of(e2.overlay_ops@).contains(s) by {
        let (k, l) = choose|k: int, l: int| 0 <= k < e2.overlay_ops@.len() && !mounted[k] && 0 <= l < e2.overlay_ops@[k].lowerdirs@.len()
            && #[trigger] e2.overlay_ops@[k].lowerdirs@[l].module_id@ == s;
    }
    assert forall|s: Seq<char>| ids(e3.hymo_ids@).contains(s) implies h0.contains(s) && !f1.contains(s) by {}
    assert forall|s: Seq<char>| f1.contains(s) implies h0.contains(s) by {
        assert(hymo_ids_of(e0.hymo_ops@).contains(s));
    }
    assert forall|s: Seq<char>| ids(r.overlay_module_ids@).contains(s) implies !ids(r.hymo_module_ids@).contains(s) by {
        assert(ids(e3.overlay_ids@).contains(s));
        if ids(e3.hymo_ids@).contains(s) {
            assert(ids(e2.overlay_ids@).contains(s));
            if o0.contains(s) {
                assert(h0.contains(s));
            } else {
                assert(f1.contains(s));
            }
        }
    }
    if magic_ok {
        assert forall|s: Seq<char>| ids(r.magic_module_ids@).contains(s) implies !ids(r.hymo_module_ids@).contains(s) by {
            assert(magic_ids(e3.magic_queue@).contains(s));
            if ids(e3.hymo_ids@).contains(s) {
                assert(h0.contains(s) && !f1.contains(s));
                if magic_ids(e2.magic_queue@).contains(s) {
                    if g0.contains(s) {
                    } else {
                        assert(f1.contains(s));
                    }
                } else {
                    assert(layer_ids_of(e2.overlay_ops@).contains(s));
                    if o0.contains(s) {
                    } else {
                        assert(f1.contains(s));
                    }
                }
            }
        }
        assert forall|s: Seq<char>| ids(r.magic_module_ids@).contains(s) implies !ids(r.overlay_module_ids@).contains(s) by {
            assert(magic_ids(e3.magic_queue@).contains(s));
            if ids(e3.overlay_ids@).contains(s) {
                assert(!failed_layer_ids(e2.overlay_ops@, mounted).contains(s));
                assert(magic_ids(e2.magic_queue@).contains(s));
                assert(ids(e2.overlay_ids@).contains(s));
                if o0.contains(s) {
                    if g0.contains(s) {
                    } else {
                        assert(f1.contains(s));
                        assert(h0.contains(s));
                    }
                } else {
                    assert(ids(e2.merged_ids@).contains(s));
                    assert(f1.contains(s) && h0.contains(s));
                    if g0.contains(s) {
                    } else {
                        assert(ids(e2.stranded_ids@).contains(s));
                    }
                }
            }
        }
    } else {
        assert(ids(r.magic_module_ids@) =~= Set::empty());
    }
}

/// Whether some entry of `fs` from `from` on is for module `id`.
fn fallback_has_id(fs: &Vec<HymoOperation>, from: usize, id: &str) -> (r: bool)
    requires
        from <= fs@.len(),
    ensures
        r == hymo_ids_of(fs@.subrange(from as int, fs@.len() as int)).contains(id@),
{
    let ghost tail = fs@.subrange(from as int, fs@.len() as int);
    let mut i: usize = from;
    while i < fs.len()
        invariant
            from <= i <= fs@.len(),
            tail == fs@.subrange(from as int, fs@.len() as int),
            forall|j: int| from <= j < i ==> #[trigger] fs@[j].module_id@ != id@,
        decreases fs@.len() - i,
    {
        if str_equal(fs[i].module_id.as_str(), id) {
            assert(tail[i - from] == fs@[i as int]);
            return true;
        }
        i = i + 1;
    }
    assert(!hymo_ids_of(tail).contains(id@)) by {
        if hymo_ids_of(tail).contains(id@) {
            let j = choose|j: int| 0 <= j < tail.len() && #[trigger] tail[j].module_id@ == id@;
            assert(fs@[j + from].module_id@ == id@);
        }
    }
    false
}

} // verus!
