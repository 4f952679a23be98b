use vstd::prelude::*;
use crate::inventory::{Module, ModuleEntry, admitted, from_admitted, module_from, scanned};
use crate::planner::{
    ModuleContent, MountPlan, PartitionTarget, hymo_from, hymo_matches, injected_id, layered_id, layers_view,
    overlay_layers, plan_exact,
};
use crate::text::texts;

verus! {

proof fn lemma_layer_ids_from_modules(
    extras: Seq<String>,
    mods: Seq<Module>,
    cs: Seq<ModuleContent>,
    p: Seq<char>,
    target: Seq<char>,
)
    ensures
        forall|x: int| 0 <= x < overlay_layers(extras, mods, cs, p, target).len() ==> exists|i: int|
            0 <= i < mods.len() && #[trigger] overlay_layers(extras, mods, cs, p, target)[x].0 == mods[i].id@,
    decreases mods.len(),
{
    if mods.len() > 0 && cs.len() > 0 {
        let init = mods.drop_last();
        lemma_layer_ids_from_modules(extras, init, cs.drop_last(), p, target);
        let prev = overlay_layers(extras, init, cs.drop_last(), p, target);
        let cur = overlay_layers(extras, mods, cs, p, target);
        assert forall|x: int| 0 <= x < cur.len() implies exists|i: int| 0 <= i < mods.len() && #[trigger] cur[x].0 == mods[i].id@ by {
            if x < prev.len() {
                assert(cur[x] == prev[x]);
                let i = choose|i: int| 0 <= i < init.len() && #[trigger] prev[x].0 == init[i].id@;
                assert(mods[i] == init[i]);
            } else {
                assert(cur[x].0 == mods[mods.len() - 1].id@);
            }
        }
    }
}

/// A module whose directory holds a `disable`, `remove` or `skip_mount`
/// marker takes part in no strategy of a plan made from the inventory:
/// its id is in none of the three id lists. Directory entries have
/// distinct names.
pub proof fn lemma_marked_module_not_planned(
    entries: Seq<ModuleEntry>,
    mods: Seq<Module>,
    extras: Seq<String>,
    cs: Seq<ModuleContent>,
    ts: Seq<PartitionTarget>,
    plan: MountPlan,
    j: int,
)
    requires
        scanned(entries, mods),
        forall|a: int, b: int| 0 <= a < b < entries.len() ==> #[trigger] entries[a].name@ != #[trigger] entries[b].name@,
        0 <= j < entries.len(),
        entries[j].has_disable || entries[j].has_remove || entries[j].has_skip_mount,
        plan_exact(extras, mods, cs, ts, plan),
    ensures
        !texts(plan.overlay_module_ids@).contains(entries[j].name@),
        !texts(plan.hymo_module_ids@).contains(entries[j].name@),
        !texts(plan.magic_module_ids@).contains(entries[j].name@),
{
    let name = entries[j].name@;
    // no module carries the marked entry's name
    assert forall|i: int| 0 <= i < mods.len() implies #[trigger] mods[i].id@ != name by {
        assert(from_admitted(mods[i], entries, 0));
        let j2 = choose|j2: int| 0 <= j2 < entries.len() && admitted(entries[j2]) && module_from(mods[i], #[trigger] entries[j2]);
        assert(!admitted(entries[j]));
        if mods[i].id@ == name {
            if j2 < j {
                assert(entries[j2].name@ != entries[j].name@);
            } else {
                assert(entries[j].name@ != entries[j2].name@);
            }
        }
    }
    if texts(plan.overlay_module_ids@).contains(name) {
        assert(layered_id(plan.overlay_ops@, name));
        let (k, l) = choose|k: int, l: int| 0 <= k < plan.overlay_ops@.len() && 0 <= l < plan.overlay_ops@[k].lowerdirs@.len()
            && #[trigger] plan.overlay_ops@[k].lowerdirs@[l].module_id@ == name;
        let op = plan.overlay_ops@[k];
        lemma_layer_ids_from_modules(extras, mods, cs, op.partition_name@, op.target@);
        assert(layers_view(op.lowerdirs@)[l].0 == name);
        let layers = overlay_layers(extras, mods, cs, op.partition_name@, op.target@);
        assert(layers[l].0 == name);
        let i = choose|i: int| 0 <= i < mods.len() && #[trigger] layers[l].0 == mods[i].id@;
        assert(mods[i].id@ != name);
    }
    if texts(plan.hymo_module_ids@).contains(name) {
        assert(injected_id(plan.hymo_ops@, name));
        let h = choose|h: int| 0 <= h < plan.hymo_ops@.len() && #[trigger] plan.hymo_ops@[h].module_id@ == name;
        assert(hymo_from(extras, mods, cs, plan.hymo_ops@[h]));
        let (i, p) = choose|i: int, p: Seq<char>| 0 <= i < mods.len() && crate::planner::contributes(extras, mods[i], cs[i], p, crate::inventory::MountMode::Hymo)
            && #[trigger] hymo_matches(plan.hymo_ops@[h], mods[i], cs[i], p);
        assert(mods[i].id@ != name);
    }
    if texts(plan.magic_module_ids@).contains(name) {
        let i = choose|i: int| 0 <= i < mods.len() && #[trigger] crate::planner::magic_module(extras, mods[i], cs[i]) && mods[i].id@ == name;
        assert(mods[i].id@ != name);
    }
}

} // verus!
