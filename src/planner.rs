use vstd::prelude::*;
use crate::inventory::{Module, MountMode, mode_for};
use crate::text::{lemma_push_contains, sorted_unique, strictly_ascending, contains_text, has_prefix, is_under, join_path, joined, path_under, texts};

verus! {

/// The partitions that every plan considers.
pub open spec fn builtin_partition(p: Seq<char>) -> bool {
    p == "system"@ || p == "vendor"@ || p == "product"@ || p == "system_ext"@ || p == "odm"@
        || p == "oem"@ || p == "apex"@
}

/// A partition that a plan considers: a builtin one or one the user added.
pub open spec fn is_candidate(extras: Seq<String>, p: Seq<char>) -> bool {
    builtin_partition(p) || texts(extras).contains(p)
}

/// The builtin partitions followed by the user's extra ones, each once.
pub fn candidate_partitions(extras: &Vec<String>) -> (r: Vec<String>)
    ensures
        texts(r@).no_duplicates(),
        forall|p: Seq<char>| #[trigger] texts(r@).contains(p) <==> is_candidate(extras@, p),
{
    proof {
        reveal_strlit("system");
        reveal_strlit("vendor");
        reveal_strlit("product");
        reveal_strlit("system_ext");
        reveal_strlit("odm");
        reveal_strlit("oem");
        reveal_strlit("apex");
    }
    let mut all: Vec<String> = Vec::new();
    all.push("system".to_owned());
    all.push("vendor".to_owned());
    all.push("product".to_owned());
    all.push("system_ext".to_owned());
    all.push("odm".to_owned());
    all.push("oem".to_owned());
    all.push("apex".to_owned());
    let ghost builtins = texts(all@);
    assert forall|p: Seq<char>| builtins.contains(p) <==> builtin_partition(p) by {
        if builtin_partition(p) {
            if p == "system"@ { assert(builtins[0] == p); }
            else if p == "vendor"@ { assert(builtins[1] == p); }
            else if p == "product"@ { assert(builtins[2] == p); }
            else if p == "system_ext"@ { assert(builtins[3] == p); }
            else if p == "odm"@ { assert(builtins[4] == p); }
            else if p == "oem"@ { assert(builtins[5] == p); }
            else { assert(builtins[6] == p); }
        }
    }
    let mut j: usize = 0;
    while j < extras.len()
        invariant
            j <= extras@.len(),
            forall|p: Seq<char>| #[trigger] texts(all@).contains(p) <==> (builtin_partition(p)
                || texts(extras@.subrange(0, j as int)).contains(p)),
        decreases extras@.len() - j,
    {
        let ghost before = texts(all@);
        all.push(extras[j].clone());
        assert(texts(extras@.subrange(0, j + 1)) =~= texts(extras@.subrange(0, j as int)).push(extras@[j as int]@));
        assert(texts(all@) =~= before.push(extras@[j as int]@));
        proof {
            lemma_push_contains(before, extras@[j as int]@);
            lemma_push_contains(texts(extras@.subrange(0, j as int)), extras@[j as int]@);
        }
        j = j + 1;
    }
    assert(extras@.subrange(0, extras@.len() as int) =~= extras@);
    let mut r: Vec<String> = Vec::new();
    let mut k: usize = 0;
    while k < all.len()
        invariant
            k <= all@.len(),
            texts(r@).no_duplicates(),
            forall|p: Seq<char>| #[trigger] texts(r@).contains(p) <==> texts(all@.subrange(0, k as int)).contains(p),
        decreases all@.len() - k,
    {
        assert(texts(all@.subrange(0, k + 1)) =~= texts(all@.subrange(0, k as int)).push(all@[k as int]@));
        proof {
            lemma_push_contains(texts(all@.subrange(0, k as int)), all@[k as int]@);
        }
        if !contains_text(&r, all[k].as_str()) {
            let ghost before = texts(r@);
            r.push(all[k].clone());
            assert(texts(r@) =~= before.push(all@[k as int]@));
            proof {
                lemma_push_contains(before, all@[k as int]@);
            }
        }
        k = k + 1;
    }
    assert(all@.subrange(0, all@.len() as int) =~= all@);
    r
}

/// What the planner reads of one module's content directory.
#[derive(Clone, Debug)]
pub struct ModuleContent {
    /// The directory the module's content is read from.
    pub content_path: String,
    /// Names of its direct subdirectories that hold at least one entry.
    pub populated: Vec<String>,
}

/// What the host shows at `/<name>` for one candidate partition.
#[derive(Clone, Debug)]
pub struct PartitionTarget {
    pub name: String,
    /// `/<name>` is itself a symbolic link.
    pub is_symlink: bool,
    /// The canonical form of `/<name>`, present when it resolves to a directory.
    pub resolved: Option<String>,
}

/// One directory stacked into an overlay, with the module it comes from.
#[derive(Clone, Debug)]
pub struct Layer {
    pub module_id: String,
    /// The module's content directory, which holds `path`.
    pub module_root: String,
    pub path: String,
}

/// An overlay to stack over one host partition; earlier layers take precedence.
#[derive(Clone, Debug)]
pub struct OverlayOperation {
    pub partition_name: String,
    pub target: String,
    pub lowerdirs: Vec<Layer>,
}

/// A request to the kernel driver to make `source` appear inside `target`.
#[derive(Clone, Debug)]
pub struct HymoOperation {
    pub module_id: String,
    /// The module's content directory, which holds `source`.
    pub module_root: String,
    pub partition: String,
    pub source: String,
    pub target: String,
}

impl HymoOperation {
    /// A copy equal to this one.
    pub fn copied(&self) -> (r: Self)
        ensures
            r == *self,
    {
        HymoOperation {
            module_id: self.module_id.clone(),
            module_root: self.module_root.clone(),
            partition: self.partition.clone(),
            source: self.source.clone(),
            target: self.target.clone(),
        }
    }
}

/// A module composed by the magic-mount tree, with its content directory.
#[derive(Clone, Debug)]
pub struct MagicRoot {
    pub module_id: String,
    pub root: String,
}

/// How each module's content is going to be mounted.
#[derive(Clone, Debug)]
pub struct MountPlan {
    pub overlay_ops: Vec<OverlayOperation>,
    pub hymo_ops: Vec<HymoOperation>,
    pub magic_module_paths: Vec<String>,
    /// The magic modules with their content directories, in module order.
    pub magic_roots: Vec<MagicRoot>,
    pub overlay_module_ids: Vec<String>,
    pub hymo_module_ids: Vec<String>,
    pub magic_module_ids: Vec<String>,
}

pub open spec fn layer_view(l: Layer) -> (Seq<char>, Seq<char>, Seq<char>) {
    (l.module_id@, l.module_root@, l.path@)
}

pub open spec fn layers_view(s: Seq<Layer>) -> Seq<(Seq<char>, Seq<char>, Seq<char>)> {
    s.map_values(|l: Layer| layer_view(l))
}

/// An absolute path.
pub open spec fn absolute(p: Seq<char>) -> bool {
    p.len() > 0 && p[0] == '/'
}

/// Every overlay targets an absolute path with at least one layer, and no
/// layer lies under the overlay's own target.
pub open spec fn overlay_ops_well_formed(ops: Seq<OverlayOperation>) -> bool {
    forall|k: int| 0 <= k < ops.len() ==> {
        let op = #[trigger] ops[k];
        &&& absolute(op.target@)
        &&& op.lowerdirs@.len() > 0
        &&& forall|l: int| 0 <= l < op.lowerdirs@.len() ==> !path_under(#[trigger] op.lowerdirs@[l].path@, op.target@)
    }
}

impl MountPlan {
    pub open spec fn well_formed(&self) -> bool {
        overlay_ops_well_formed(self.overlay_ops@)
    }
}

/// How module `m` mounts partition `p`: a module-wide magic or injection
/// default takes the whole module, otherwise the path rules decide.
pub open spec fn route(m: Module, p: Seq<char>) -> MountMode {
    match m.rules.default_mode {
        MountMode::Magic => MountMode::Magic,
        MountMode::Hymo => MountMode::Hymo,
        _ => mode_for(m.rules.default_mode, m.rules.path_modes(), p),
    }
}

pub fn route_of(m: &Module, p: &str) -> (r: MountMode)
    ensures
        r == route(*m, p@),
{
    match m.rules.default_mode {
        MountMode::Magic => MountMode::Magic,
        MountMode::Hymo => MountMode::Hymo,
        _ => m.rules.get_mode(p),
    }
}

/// Module `m`, read from `c`, mounts a populated candidate partition `p` by `mode`.
pub open spec fn contributes(extras: Seq<String>, m: Module, c: ModuleContent, p: Seq<char>, mode: MountMode) -> bool {
    &&& is_candidate(extras, p)
    &&& texts(c.populated@).contains(p)
    &&& route(m, p) == mode
}

/// The first probe result for partition `p`.
pub open spec fn target_entry(ts: Seq<PartitionTarget>, p: Seq<char>) -> Option<PartitionTarget>
    decreases ts.len(),
{
    if ts.len() == 0 {
        None
    } else if ts[0].name@ == p {
        Some(ts[0])
    } else {
        target_entry(ts.drop_first(), p)
    }
}

/// The overlay target for partition `p`: its canonical directory, unless the
/// partition is missing, a symbolic link, not a directory or not absolute.
pub open spec fn usable_target(ts: Seq<PartitionTarget>, p: Seq<char>) -> Option<Seq<char>> {
    match target_entry(ts, p) {
        Some(t) => match t.resolved {
            Some(r) => if !t.is_symlink && absolute(r@) {
                Some(r@)
            } else {
                None
            },
            None => None,
        },
        None => None,
    }
}

/// Looks up the overlay target of one partition.
pub fn find_target(ts: &Vec<PartitionTarget>, p: &str) -> (r: Option<String>)
    ensures
        r.is_some() == usable_target(ts@, p@).is_some(),
        r.is_some() ==> r.unwrap()@ == usable_target(ts@, p@).unwrap(),
{
    let mut i: usize = 0;
    assert(ts@.subrange(0, ts@.len() as int) =~= ts@);
    while i < ts.len()
        invariant
            i <= ts@.len(),
            target_entry(ts@, p@) == target_entry(ts@.subrange(i as int, ts@.len() as int), p@),
        decreases ts@.len() - i,
    {
        assert(ts@.subrange(i as int, ts@.len() as int).drop_first() =~= ts@.subrange(i + 1, ts@.len() as int));
        if crate::inventory::str_equal(ts[i].name.as_str(), p) {
            let t = &ts[i];
            match &t.resolved {
                Some(r) => {
                    if !t.is_symlink && r.unicode_len() > 0 && r.as_str().get_char(0) == '/' {
                        return Some(r.clone());
                    }
                    return None;
                },
                None => {
                    return None;
                },
            }
        }
        i = i + 1;
    }
    None
}

/// The layers of partition `p` over `target`, in module order: each module
/// that overlays `p` contributes `<content>/<p>`, unless that lies under the
/// target itself.
pub open spec fn overlay_layers(
    extras: Seq<String>,
    mods: Seq<Module>,
    cs: Seq<ModuleContent>,
    p: Seq<char>,
    target: Seq<char>,
) -> Seq<(Seq<char>, Seq<char>, Seq<char>)>
    decreases mods.len(),
{
    if mods.len() == 0 || cs.len() == 0 {
        Seq::empty()
    } else {
        let prev = overlay_layers(extras, mods.drop_last(), cs.drop_last(), p, target);
        let m = mods.last();
        let c = cs.last();
        let path = joined(c.content_path@, p);
        if contributes(extras, m, c, p, MountMode::Overlay) && !path_under(path, target) {
            prev.push((m.id@, c.content_path@, path))
        } else {
            prev
        }
    }
}

fn collect_layers(
    extras: &Vec<String>,
    modules: &Vec<Module>,
    contents: &Vec<ModuleContent>,
    part: &str,
    target: &str,
) -> (r: Vec<Layer>)
    requires
        modules@.len() == contents@.len(),
        is_candidate(extras@, part@),
    ensures
        layers_view(r@) == overlay_layers(extras@, modules@, contents@, part@, target@),
        forall|l: int| 0 <= l < r@.len() ==> !path_under(#[trigger] r@[l].path@, target@),
{
    let mut r: Vec<Layer> = Vec::new();
    let mut i: usize = 0;
    while i < modules.len()
        invariant
            i <= modules@.len(),
            modules@.len() == contents@.len(),
            is_candidate(extras@, part@),
            layers_view(r@) == overlay_layers(
                extras@,
                modules@.subrange(0, i as int),
                contents@.subrange(0, i as int),
                part@,
                target@,
            ),
            forall|l: int| 0 <= l < r@.len() ==> !path_under(#[trigger] r@[l].path@, target@),
        decreases modules@.len() - i,
    {
        assert(modules@.subrange(0, i + 1).drop_last() =~= modules@.subrange(0, i as int));
        assert(contents@.subrange(0, i + 1).drop_last() =~= contents@.subrange(0, i as int));
        let m = &modules[i];
        let c = &contents[i];
        if contains_text(&c.populated, part) {
            if route_of(m, part) == MountMode::Overlay {
                let path = join_path(c.content_path.as_str(), part);
                if !is_under(path.as_str(), target) {
                    let ghost before = r@;
                    r.push(Layer { module_id: m.id.clone(), module_root: c.content_path.clone(), path });
                    assert(layers_view(r@) =~= layers_view(before).push(layer_view(r@.last())));
                }
            }
        }
        i = i + 1;
    }
    assert(modules@.subrange(0, i as int) =~= modules@);
    assert(contents@.subrange(0, i as int) =~= contents@);
    r
}

/// `ops` are exactly the overlays that the modules call for: one for each
/// candidate partition with a usable target and at least one layer.
pub open spec fn overlay_ops_exact(
    extras: Seq<String>,
    mods: Seq<Module>,
    cs: Seq<ModuleContent>,
    ts: Seq<PartitionTarget>,
    ops: Seq<OverlayOperation>,
) -> bool {
    &&& overlay_ops_well_formed(ops)
    &&& forall|k: int| 0 <= k < ops.len() ==> {
        let op = #[trigger] ops[k];
        &&& is_candidate(extras, op.partition_name@)
        &&& usable_target(ts, op.partition_name@) == Some(op.target@)
        &&& layers_view(op.lowerdirs@) == overlay_layers(extras, mods, cs, op.partition_name@, op.target@)
    }
    &&& forall|k1: int, k2: int| 0 <= k1 < k2 < ops.len() ==> #[trigger] ops[k1].partition_name@ != #[trigger] ops[k2].partition_name@
    &&& forall|p: Seq<char>| #[trigger] is_candidate(extras, p) && usable_target(ts, p).is_some()
        && overlay_layers(extras, mods, cs, p, usable_target(ts, p).unwrap()).len() > 0
        ==> exists|k: int| 0 <= k < ops.len() && ops[k].partition_name@ == p
}

/// One overlay for each candidate partition with a usable target and at
/// least one layer, in the order of `candidate_partitions`.
pub fn plan_overlays(
    extras: &Vec<String>,
    modules: &Vec<Module>,
    contents: &Vec<ModuleContent>,
    targets: &Vec<PartitionTarget>,
) -> (ops: Vec<OverlayOperation>)
    requires
        modules@.len() == contents@.len(),
    ensures
        overlay_ops_exact(extras@, modules@, contents@, targets@, ops@),
{
    let parts = candidate_partitions(extras);
    let ghost names = texts(parts@);
    let mut ops: Vec<OverlayOperation> = Vec::new();
    let mut t: usize = 0;
    while t < parts.len()
        invariant
            t <= parts@.len(),
            names == texts(parts@),
            names.no_duplicates(),
            forall|p: Seq<char>| #[trigger] names.contains(p) <==> is_candidate(extras@, p),
            modules@.len() == contents@.len(),
            overlay_ops_well_formed(ops@),
            forall|k: int| 0 <= k < ops@.len() ==> {
                let op = #[trigger] ops@[k];
                &&& is_candidate(extras@, op.partition_name@)
                &&& usable_target(targets@, op.partition_name@) == Some(op.target@)
                &&& layers_view(op.lowerdirs@) == overlay_layers(extras@, modules@, contents@, op.partition_name@, op.target@)
                &&& exists|u: int| 0 <= u < t && names[u] == op.partition_name@
            },
            forall|k1: int, k2: int| 0 <= k1 < k2 < ops@.len() ==> #[trigger] ops@[k1].partition_name@ != #[trigger] ops@[k2].partition_name@,
            forall|u: int| 0 <= u < t && usable_target(targets@, #[trigger] names[u]).is_some()
                && overlay_layers(extras@, modules@, contents@, names[u], usable_target(targets@, names[u]).unwrap()).len() > 0
                ==> exists|k: int| 0 <= k < ops@.len() && ops@[k].partition_name@ == names[u],
        decreases parts@.len() - t,
    {
        let part = parts[t].as_str();
        assert(names.contains(names[t as int]));
        match find_target(targets, part) {
            Some(target) => {
                let layers = collect_layers(extras, modules, contents, part, target.as_str());
                if layers.len() > 0 {
                    let ghost before = ops@;
                    let op = OverlayOperation { partition_name: parts[t].clone(), target, lowerdirs: layers };
                    ops.push(op);
                    assert(ops@[before.len() as int] == op);
                    assert forall|k: int| 0 <= k < ops@.len() implies {
                        let op = #[trigger] ops@[k];
                        &&& is_candidate(extras@, op.partition_name@)
                        &&& usable_target(targets@, op.partition_name@) == Some(op.target@)
                        &&& layers_view(op.lowerdirs@) == overlay_layers(extras@, modules@, contents@, op.partition_name@, op.target@)
                        &&& exists|u: int| 0 <= u < t + 1 && names[u] == op.partition_name@
                    } by {
                        if k < before.len() {
                            assert(ops@[k] == before[k]);
                        } else {
                            assert(names[t as int] == ops@[k].partition_name@);
                        }
                    }
                    assert forall|k1: int, k2: int| 0 <= k1 < k2 < ops@.len() implies #[trigger] ops@[k1].partition_name@ != #[trigger] ops@[k2].partition_name@ by {
                        if k2 == before.len() {
                            assert(ops@[k1] == before[k1]);
                            let u = choose|u: int| 0 <= u < t && names[u] == before[k1].partition_name@;
                            assert(names[u] != names[t as int]);
                        } else {
                            assert(ops@[k1] == before[k1]);
                            assert(ops@[k2] == before[k2]);
                        }
                    }
                    assert forall|u: int| 0 <= u < t + 1 && usable_target(targets@, #[trigger] names[u]).is_some()
                        && overlay_layers(extras@, modules@, contents@, names[u], usable_target(targets@, names[u]).unwrap()).len() > 0
                        implies exists|k: int| 0 <= k < ops@.len() && ops@[k].partition_name@ == names[u] by {
                        if u < t {
                            let k = choose|k: int| 0 <= k < before.len() && before[k].partition_name@ == names[u];
                            assert(ops@[k] == before[k]);
                        } else {
                            assert(ops@[before.len() as int].partition_name@ == names[u]);
                        }
                    }
                } else {
                    assert(layers_view(layers@).len() == 0);
                }
            },
            None => {},
        }
        t = t + 1;
    }
    assert forall|p: Seq<char>| #[trigger] is_candidate(extras@, p) && usable_target(targets@, p).is_some()
        && overlay_layers(extras@, modules@, contents@, p, usable_target(targets@, p).unwrap()).len() > 0
        implies exists|k: int| 0 <= k < ops@.len() && ops@[k].partition_name@ == p by {
        assert(names.contains(p));
        let u = choose|u: int| 0 <= u < names.len() && names[u] == p;
        assert(usable_target(targets@, names[u]).is_some());
    }
    ops
}

/// `h` injects partition `p` of module `m`, read from `c`.
pub open spec fn hymo_matches(h: HymoOperation, m: Module, c: ModuleContent, p: Seq<char>) -> bool {
    &&& h.module_id@ == m.id@
    &&& h.module_root@ == c.content_path@
    &&& h.partition@ == p
    &&& h.source@ == joined(c.content_path@, p)
    &&& h.target@ == seq!['/'] + p
}

/// Module `m`, read from `c`, is composed by the magic-mount tree.
pub open spec fn magic_module(extras: Seq<String>, m: Module, c: ModuleContent) -> bool {
    exists|p: Seq<char>| #[trigger] contributes(extras, m, c, p, MountMode::Magic)
}

/// `h` injects some partition that some module routes to the driver.
pub open spec fn hymo_from(extras: Seq<String>, mods: Seq<Module>, cs: Seq<ModuleContent>, h: HymoOperation) -> bool {
    exists|i: int, p: Seq<char>|
        0 <= i < mods.len() && contributes(extras, mods[i], cs[i], p, MountMode::Hymo)
            && #[trigger] hymo_matches(h, mods[i], cs[i], p)
}

/// `id` and `root` name magic module `m`, read from `c`.
pub open spec fn magic_pair(extras: Seq<String>, m: Module, c: ModuleContent, id: Seq<char>, root: Seq<char>) -> bool {
    magic_module(extras, m, c) && id == m.id@ && root == c.content_path@
}

/// `r` names some magic module.
pub open spec fn is_magic_root(extras: Seq<String>, mods: Seq<Module>, cs: Seq<ModuleContent>, r: MagicRoot) -> bool {
    is_magic_pair(extras, mods, cs, r.module_id@, r.root@)
}

/// `id` and `root` name some magic module among the first `n`.
pub open spec fn is_magic_pair(extras: Seq<String>, mods: Seq<Module>, cs: Seq<ModuleContent>, id: Seq<char>, root: Seq<char>) -> bool {
    exists|i: int| 0 <= i < mods.len() && #[trigger] magic_pair(extras, mods[i], cs[i], id, root)
}

/// `hs` injects exactly the partitions that modules route to the driver.
pub open spec fn hymo_ops_exact(
    extras: Seq<String>,
    mods: Seq<Module>,
    cs: Seq<ModuleContent>,
    hs: Seq<HymoOperation>,
) -> bool {
    &&& forall|h: int| 0 <= h < hs.len() ==> #[trigger] hymo_from(extras, mods, cs, hs[h])
    &&& forall|i: int, p: Seq<char>| 0 <= i < mods.len() && #[trigger] contributes(extras, mods[i], cs[i], p, MountMode::Hymo)
        ==> exists|h: int| 0 <= h < hs.len() && #[trigger] hymo_matches(hs[h], mods[i], cs[i], p)
}

/// `paths` and `ids` hold the content directories and ids of the magic modules.
pub open spec fn magic_lists_exact(
    extras: Seq<String>,
    mods: Seq<Module>,
    cs: Seq<ModuleContent>,
    paths: Seq<Seq<char>>,
    ids: Seq<Seq<char>>,
) -> bool {
    &&& forall|s: Seq<char>| #[trigger] paths.contains(s) <==> exists|i: int|
        0 <= i < mods.len() && #[trigger] magic_module(extras, mods[i], cs[i]) && cs[i].content_path@ == s
    &&& forall|s: Seq<char>| #[trigger] ids.contains(s) <==> exists|i: int|
        0 <= i < mods.len() && #[trigger] magic_module(extras, mods[i], cs[i]) && mods[i].id@ == s
}

/// The injection requests and the magic-mount modules of a plan, the latter
/// as they come, repeats included.
pub fn plan_injections_and_magic(
    extras: &Vec<String>,
    modules: &Vec<Module>,
    contents: &Vec<ModuleContent>,
) -> (r: (Vec<HymoOperation>, Vec<String>, Vec<String>))
    requires
        modules@.len() == contents@.len(),
    ensures
        hymo_ops_exact(extras@, modules@, contents@, r.0@),
        magic_lists_exact(extras@, modules@, contents@, texts(r.1@), texts(r.2@)),
        r.1@.len() == r.2@.len(),
        forall|j: int| 0 <= j < r.1@.len() ==> #[trigger] is_magic_pair(extras@, modules@, contents@, r.2@[j]@, r.1@[j]@),
        forall|i: int| 0 <= i < modules@.len() && #[trigger] magic_module(extras@, modules@[i], contents@[i])
            ==> exists|j: int| 0 <= j < r.1@.len() && magic_pair(extras@, modules@[i], contents@[i], #[trigger] r.2@[j]@, r.1@[j]@),
{
    proof {
        reveal_strlit("/");
    }
    let parts = candidate_partitions(extras);
    let ghost names = texts(parts@);
    let mut hs: Vec<HymoOperation> = Vec::new();
    let mut paths: Vec<String> = Vec::new();
    let mut ids: Vec<String> = Vec::new();
    let mut i: usize = 0;
    while i < modules.len()
        invariant
            i <= modules@.len(),
            modules@.len() == contents@.len(),
            names == texts(parts@),
            forall|p: Seq<char>| #[trigger] names.contains(p) <==> is_candidate(extras@, p),
            forall|h: int| 0 <= h < hs@.len() ==> #[trigger] hymo_from(extras@, modules@, contents@, hs@[h]),
            forall|i0: int, p: Seq<char>| 0 <= i0 < i && #[trigger] contributes(extras@, modules@[i0], contents@[i0], p, MountMode::Hymo)
                ==> exists|h: int| 0 <= h < hs@.len() && #[trigger] hymo_matches(hs@[h], modules@[i0], contents@[i0], p),
            magic_lists_exact(extras@, modules@.subrange(0, i as int), contents@.subrange(0, i as int), texts(paths@), texts(ids@)),
            paths@.len() == ids@.len(),
            forall|j: int| 0 <= j < paths@.len() ==> #[trigger] is_magic_pair(extras@, modules@, contents@, ids@[j]@, paths@[j]@),
            forall|i0: int| 0 <= i0 < i && #[trigger] magic_module(extras@, modules@[i0], contents@[i0])
                ==> exists|j: int| 0 <= j < paths@.len() && magic_pair(extras@, modules@[i0], contents@[i0], #[trigger] ids@[j]@, paths@[j]@),
        decreases modules@.len() - i,
    {
        let m = &modules[i];
        let c = &contents[i];
        let mut is_magic = false;
        let mut t: usize = 0;
        while t < parts.len()
            invariant
                t <= parts@.len(),
                i < modules@.len(),
                modules@.len() == contents@.len(),
                *m == modules@[i as int],
                *c == contents@[i as int],
                names == texts(parts@),
                forall|p: Seq<char>| #[trigger] names.contains(p) <==> is_candidate(extras@, p),
                forall|h: int| 0 <= h < hs@.len() ==> #[trigger] hymo_from(extras@, modules@, contents@, hs@[h]),
                forall|i0: int, p: Seq<char>| 0 <= i0 < i && #[trigger] contributes(extras@, modules@[i0], contents@[i0], p, MountMode::Hymo)
                    ==> exists|h: int| 0 <= h < hs@.len() && #[trigger] hymo_matches(hs@[h], modules@[i0], contents@[i0], p),
                forall|u: int| 0 <= u < t && #[trigger] contributes(extras@, *m, *c, names[u], MountMode::Hymo)
                    ==> exists|h: int| 0 <= h < hs@.len() && #[trigger] hymo_matches(hs@[h], *m, *c, names[u]),
                is_magic <==> exists|u: int| 0 <= u < t && #[trigger] contributes(extras@, *m, *c, names[u], MountMode::Magic),
            decreases parts@.len() - t,
        {
            let part = parts[t].as_str();
            assert(names.contains(names[t as int]));
            let populated = contains_text(&c.populated, part);
            let mode = route_of(m, part);
            assert(contributes(extras@, *m, *c, names[t as int], MountMode::Magic) == (populated && mode == MountMode::Magic));
            assert(contributes(extras@, *m, *c, names[t as int], MountMode::Hymo) == (populated && mode == MountMode::Hymo));
            if populated {
                if mode == MountMode::Hymo {
                    let target = crate::text::root_path(part);
                    let h = HymoOperation {
                        module_id: m.id.clone(),
                        module_root: c.content_path.clone(),
                        partition: parts[t].clone(),
                        source: join_path(c.content_path.as_str(), part),
                        target,
                    };
                    assert(hymo_matches(h, *m, *c, names[t as int]));
                    let ghost before = hs@;
                    hs.push(h);
                    assert(hs@[before.len() as int] == h);
                    assert forall|h2: int| 0 <= h2 < hs@.len() implies #[trigger] hymo_from(extras@, modules@, contents@, hs@[h2]) by {
                        if h2 < before.len() {
                            assert(hs@[h2] == before[h2]);
                        } else {
                            assert(contributes(extras@, modules@[i as int], contents@[i as int], names[t as int], MountMode::Hymo));
                            assert(hymo_matches(hs@[h2], modules@[i as int], contents@[i as int], names[t as int]));
                        }
                    }
                    assert forall|i0: int, p: Seq<char>| 0 <= i0 < i && #[trigger] contributes(extras@, modules@[i0], contents@[i0], p, MountMode::Hymo)
                        implies exists|h2: int| 0 <= h2 < hs@.len() && #[trigger] hymo_matches(hs@[h2], modules@[i0], contents@[i0], p) by {
                        let h2 = choose|h2: int| 0 <= h2 < before.len() && #[trigger] hymo_matches(before[h2], modules@[i0], contents@[i0], p);
                        assert(hs@[h2] == before[h2]);
                    }
                    assert forall|u: int| 0 <= u < t + 1 && #[trigger] contributes(extras@, *m, *c, names[u], MountMode::Hymo)
                        implies exists|h2: int| 0 <= h2 < hs@.len() && #[trigger] hymo_matches(hs@[h2], *m, *c, names[u]) by {
                        if u < t {
                            let h2 = choose|h2: int| 0 <= h2 < before.len() && #[trigger] hymo_matches(before[h2], *m, *c, names[u]);
                            assert(hs@[h2] == before[h2]);
                        } else {
                            assert(hymo_matches(hs@[before.len() as int], *m, *c, names[u]));
                        }
                    }
                } else if mode == MountMode::Magic {
                    is_magic = true;
                }
            }
            assert(is_magic <==> exists|u: int| 0 <= u < t + 1 && #[trigger] contributes(extras@, *m, *c, names[u], MountMode::Magic)) by {
                if populated && mode == MountMode::Magic {
                    assert(contributes(extras@, *m, *c, names[t as int], MountMode::Magic));
                }
            }
            t = t + 1;
        }
        assert(is_magic == magic_module(extras@, *m, *c)) by {
            if magic_module(extras@, *m, *c) {
                let p = choose|p: Seq<char>| #[trigger] contributes(extras@, *m, *c, p, MountMode::Magic);
                assert(names.contains(p));
                let u = choose|u: int| 0 <= u < names.len() && names[u] == p;
                assert(contributes(extras@, *m, *c, names[u], MountMode::Magic));
            }
        }
        assert forall|i0: int, p: Seq<char>| 0 <= i0 < i + 1 && #[trigger] contributes(extras@, modules@[i0], contents@[i0], p, MountMode::Hymo)
            implies exists|h: int| 0 <= h < hs@.len() && #[trigger] hymo_matches(hs@[h], modules@[i0], contents@[i0], p) by {
            if i0 == i {
                assert(names.contains(p));
                let u = choose|u: int| 0 <= u < names.len() && names[u] == p;
                assert(contributes(extras@, *m, *c, names[u], MountMode::Hymo));
            }
        }
        let ghost mods_i = modules@.subrange(0, i as int);
        let ghost cs_i = contents@.subrange(0, i as int);
        let ghost mods_n = modules@.subrange(0, i + 1);
        let ghost cs_n = contents@.subrange(0, i + 1);
        let ghost old_paths = texts(paths@);
        let ghost old_ids = texts(ids@);
        let ghost old_pv = paths@;
        let ghost old_iv = ids@;
        if is_magic {
            paths.push(c.content_path.clone());
            ids.push(m.id.clone());
            assert(magic_pair(extras@, modules@[i as int], contents@[i as int], ids@[old_iv.len() as int]@, paths@[old_pv.len() as int]@));
            assert(texts(paths@) =~= old_paths.push(c.content_path@));
            assert(texts(ids@) =~= old_ids.push(m.id@));
            proof {
                crate::text::lemma_push_contains(old_paths, c.content_path@);
                crate::text::lemma_push_contains(old_ids, m.id@);
            }
        }
        assert(magic_lists_exact(extras@, mods_n, cs_n, texts(paths@), texts(ids@))) by {
            assert forall|s: Seq<char>| #[trigger] texts(paths@).contains(s) <==> exists|i0: int|
                0 <= i0 < mods_n.len() && #[trigger] magic_module(extras@, mods_n[i0], cs_n[i0]) && cs_n[i0].content_path@ == s by {
                if texts(paths@).contains(s) {
                    if old_paths.contains(s) {
                        let i0 = choose|i0: int| 0 <= i0 < mods_i.len() && #[trigger] magic_module(extras@, mods_i[i0], cs_i[i0]) && cs_i[i0].content_path@ == s;
                        assert(mods_n[i0] == mods_i[i0] && cs_n[i0] == cs_i[i0]);
                    } else {
                        assert(mods_n[i as int] == *m && cs_n[i as int] == *c);
                    }
                }
                if exists|i0: int| 0 <= i0 < mods_n.len() && #[trigger] magic_module(extras@, mods_n[i0], cs_n[i0]) && cs_n[i0].content_path@ == s {
                    let i0 = choose|i0: int| 0 <= i0 < mods_n.len() && #[trigger] magic_module(extras@, mods_n[i0], cs_n[i0]) && cs_n[i0].content_path@ == s;
                    if i0 < i {
                        assert(mods_n[i0] == mods_i[i0] && cs_n[i0] == cs_i[i0]);
                    }
                }
            }
            assert forall|s: Seq<char>| #[trigger] texts(ids@).contains(s) <==> exists|i0: int|
                0 <= i0 < mods_n.len() && #[trigger] magic_module(extras@, mods_n[i0], cs_n[i0]) && mods_n[i0].id@ == s by {
                if texts(ids@).contains(s) {
                    if old_ids.contains(s) {
                        let i0 = choose|i0: int| 0 <= i0 < mods_i.len() && #[trigger] magic_module(extras@, mods_i[i0], cs_i[i0]) && mods_i[i0].id@ == s;
                        assert(mods_n[i0] == mods_i[i0] && cs_n[i0] == cs_i[i0]);
                    } else {
                        assert(mods_n[i as int] == *m && cs_n[i as int] == *c);
                    }
                }
                if exists|i0: int| 0 <= i0 < mods_n.len() && #[trigger] magic_module(extras@, mods_n[i0], cs_n[i0]) && mods_n[i0].id@ == s {
                    let i0 = choose|i0: int| 0 <= i0 < mods_n.len() && #[trigger] magic_module(extras@, mods_n[i0], cs_n[i0]) && mods_n[i0].id@ == s;
                    if i0 < i {
                        assert(mods_n[i0] == mods_i[i0] && cs_n[i0] == cs_i[i0]);
                    }
                }
            }
        }
        assert forall|j: int| 0 <= j < paths@.len() implies #[trigger] is_magic_pair(extras@, modules@, contents@, ids@[j]@, paths@[j]@) by {
            if j < old_pv.len() {
                assert(ids@[j] == old_iv[j] && paths@[j] == old_pv[j]);
                assert(is_magic_pair(extras@, modules@, contents@, old_iv[j]@, old_pv[j]@));
            } else {
                assert(magic_pair(extras@, modules@[i as int], contents@[i as int], ids@[j]@, paths@[j]@));
            }
        }
        assert forall|i0: int| 0 <= i0 < i + 1 && #[trigger] magic_module(extras@, modules@[i0], contents@[i0])
            implies exists|j: int| 0 <= j < paths@.len() && magic_pair(extras@, modules@[i0], contents@[i0], #[trigger] ids@[j]@, paths@[j]@) by {
            if i0 < i {
                let j = choose|j: int| 0 <= j < old_pv.len() && magic_pair(extras@, modules@[i0], contents@[i0], #[trigger] old_iv[j]@, old_pv[j]@);
                assert(ids@[j] == old_iv[j] && paths@[j] == old_pv[j]);
            } else {
                assert(magic_pair(extras@, modules@[i0], contents@[i0], ids@[old_iv.len() as int]@, paths@[old_pv.len() as int]@));
            }
        }
        i = i + 1;
    }
    assert(modules@.subrange(0, i as int) =~= modules@);
    assert(contents@.subrange(0, i as int) =~= contents@);
    (hs, paths, ids)
}

/// Some layer of `ops` comes from module `id`.
pub open spec fn layered_id(ops: Seq<OverlayOperation>, id: Seq<char>) -> bool {
    exists|k: int, l: int| 0 <= k < ops.len() && 0 <= l < ops[k].lowerdirs@.len()
        && #[trigger] ops[k].lowerdirs@[l].module_id@ == id
}

/// Some injection of `hs` comes from module `id`.
pub open spec fn injected_id(hs: Seq<HymoOperation>, id: Seq<char>) -> bool {
    exists|h: int| 0 <= h < hs.len() && #[trigger] hs[h].module_id@ == id
}

fn layer_ids(ops: &Vec<OverlayOperation>) -> (r: Vec<String>)
    ensures
        forall|s: Seq<char>| #[trigger] texts(r@).contains(s) <==> layered_id(ops@, s),
{
    let mut r: Vec<String> = Vec::new();
    let mut k: usize = 0;
    while k < ops.len()
        invariant
            k <= ops@.len(),
            forall|s: Seq<char>| #[trigger] texts(r@).contains(s) <==> exists|k0: int, l: int| 0 <= k0 < k
                && 0 <= l < ops@[k0].lowerdirs@.len() && #[trigger] ops@[k0].lowerdirs@[l].module_id@ == s,
        decreases ops@.len() - k,
    {
        let layers = &ops[k].lowerdirs;
        let mut l: usize = 0;
        while l < layers.len()
            invariant
                k < ops@.len(),
                *layers == ops@[k as int].lowerdirs,
                l <= layers@.len(),
                forall|s: Seq<char>| #[trigger] texts(r@).contains(s) <==> (exists|k0: int, l0: int| 0 <= k0 < k
                    && 0 <= l0 < ops@[k0].lowerdirs@.len() && #[trigger] ops@[k0].lowerdirs@[l0].module_id@ == s)
                    || (exists|l0: int| 0 <= l0 < l && #[trigger] layers@[l0].module_id@ == s),
            decreases layers@.len() - l,
        {
            let ghost before = texts(r@);
            r.push(layers[l].module_id.clone());
            assert(texts(r@) =~= before.push(layers@[l as int].module_id@));
            proof {
                crate::text::lemma_push_contains(before, layers@[l as int].module_id@);
            }
            assert forall|s: Seq<char>| #[trigger] texts(r@).contains(s) <==> (exists|k0: int, l0: int| 0 <= k0 < k
                && 0 <= l0 < ops@[k0].lowerdirs@.len() && #[trigger] ops@[k0].lowerdirs@[l0].module_id@ == s)
                || (exists|l0: int| 0 <= l0 < l + 1 && #[trigger] layers@[l0].module_id@ == s) by {
                if s == layers@[l as int].module_id@ {
                    assert(layers@[l as int].module_id@ == s);
                }
            }
            l = l + 1;
        }
        assert forall|s: Seq<char>| #[trigger] texts(r@).contains(s) <==> exists|k0: int, l0: int| 0 <= k0 < k + 1
            && 0 <= l0 < ops@[k0].lowerdirs@.len() && #[trigger] ops@[k0].lowerdirs@[l0].module_id@ == s by {
            if exists|l0: int| 0 <= l0 < l && #[trigger] layers@[l0].module_id@ == s {
                let l0 = choose|l0: int| 0 <= l0 < l && #[trigger] layers@[l0].module_id@ == s;
                assert(ops@[k as int].lowerdirs@[l0].module_id@ == s);
            }
            if exists|k0: int, l0: int| 0 <= k0 < k + 1
                && 0 <= l0 < ops@[k0].lowerdirs@.len() && #[trigger] ops@[k0].lowerdirs@[l0].module_id@ == s {
                let (k0, l0) = choose|k0: int, l0: int| 0 <= k0 < k + 1
                    && 0 <= l0 < ops@[k0].lowerdirs@.len() && #[trigger] ops@[k0].lowerdirs@[l0].module_id@ == s;
                if k0 == k {
                    assert(layers@[l0].module_id@ == s);
                }
            }
        }
        k = k + 1;
    }
    r
}

fn injected_ids(hs: &Vec<HymoOperation>) -> (r: Vec<String>)
    ensures
        forall|s: Seq<char>| #[trigger] texts(r@).contains(s) <==> injected_id(hs@, s),
{
    let mut r: Vec<String> = Vec::new();
    let mut h: usize = 0;
    while h < hs.len()
        invariant
            h <= hs@.len(),
            forall|s: Seq<char>| #[trigger] texts(r@).contains(s) <==> exists|h0: int| 0 <= h0 < h && #[trigger] hs@[h0].module_id@ == s,
        decreases hs@.len() - h,
    {
        let ghost before = texts(r@);
        r.push(hs[h].module_id.clone());
        assert(texts(r@) =~= before.push(hs@[h as int].module_id@));
        proof {
            crate::text::lemma_push_contains(before, hs@[h as int].module_id@);
        }
        assert forall|s: Seq<char>| #[trigger] texts(r@).contains(s) <==> exists|h0: int| 0 <= h0 < h + 1 && #[trigger] hs@[h0].module_id@ == s by {
            if s == hs@[h as int].module_id@ {
                assert(hs@[h as int].module_id@ == s);
            }
        }
        h = h + 1;
    }
    r
}

/// `plan` is the plan for these modules: its overlays and injections are
/// exactly those the modules call for, its magic list holds exactly the
/// magic modules, and each id list holds, sorted and once each, the modules
/// that take part in that strategy.
pub open spec fn plan_exact(
    extras: Seq<String>,
    mods: Seq<Module>,
    cs: Seq<ModuleContent>,
    ts: Seq<PartitionTarget>,
    plan: MountPlan,
) -> bool {
    &&& plan.well_formed()
    &&& overlay_ops_exact(extras, mods, cs, ts, plan.overlay_ops@)
    &&& hymo_ops_exact(extras, mods, cs, plan.hymo_ops@)
    &&& magic_lists_exact(extras, mods, cs, texts(plan.magic_module_paths@), texts(plan.magic_module_ids@))
    &&& forall|j: int| 0 <= j < plan.magic_roots@.len() ==> #[trigger] is_magic_root(extras, mods, cs, plan.magic_roots@[j])
    &&& forall|i: int| 0 <= i < mods.len() && #[trigger] magic_module(extras, mods[i], cs[i])
        ==> exists|j: int| 0 <= j < plan.magic_roots@.len()
            && magic_pair(extras, mods[i], cs[i], #[trigger] plan.magic_roots@[j].module_id@, plan.magic_roots@[j].root@)
    &&& forall|s: Seq<char>| #[trigger] texts(plan.overlay_module_ids@).contains(s) <==> layered_id(plan.overlay_ops@, s)
    &&& forall|s: Seq<char>| #[trigger] texts(plan.hymo_module_ids@).contains(s) <==> injected_id(plan.hymo_ops@, s)
    &&& strictly_ascending(texts(plan.magic_module_paths@))
    &&& strictly_ascending(texts(plan.overlay_module_ids@))
    &&& strictly_ascending(texts(plan.hymo_module_ids@))
    &&& strictly_ascending(texts(plan.magic_module_ids@))
}

fn pair_roots(ids: &Vec<String>, roots: &Vec<String>) -> (r: Vec<MagicRoot>)
    requires
        ids@.len() == roots@.len(),
    ensures
        r@.len() == ids@.len(),
        forall|j: int| 0 <= j < r@.len() ==> #[trigger] r@[j].module_id@ == ids@[j]@ && r@[j].root@ == roots@[j]@,
{
    let mut r: Vec<MagicRoot> = Vec::new();
    let mut j: usize = 0;
    while j < ids.len()
        invariant
            j <= ids@.len(),
            ids@.len() == roots@.len(),
            r@.len() == j,
            forall|j0: int| 0 <= j0 < j ==> #[trigger] r@[j0].module_id@ == ids@[j0]@ && r@[j0].root@ == roots@[j0]@,
        decreases ids@.len() - j,
    {
        r.push(MagicRoot { module_id: ids[j].clone(), root: roots[j].clone() });
        j = j + 1;
    }
    r
}

/// Builds the mount plan for `modules`, whose content directories are
/// described by `contents` (same order), over the probed partition targets.
pub fn generate(
    extras: &Vec<String>,
    modules: &Vec<Module>,
    contents: &Vec<ModuleContent>,
    targets: &Vec<PartitionTarget>,
) -> (plan: MountPlan)
    requires
        modules@.len() == contents@.len(),
    ensures
        plan_exact(extras@, modules@, contents@, targets@, plan),
{
    let overlay_ops = plan_overlays(extras, modules, contents, targets);
    let (hymo_ops, raw_paths, raw_ids) = plan_injections_and_magic(extras, modules, contents);
    assert(raw_paths@.len() == raw_ids@.len());
    let magic_roots = pair_roots(&raw_ids, &raw_paths);
    let magic_module_paths = sorted_unique(&raw_paths);
    let magic_module_ids = sorted_unique(&raw_ids);
    let raw_layer_ids = layer_ids(&overlay_ops);
    let raw_hymo_ids = injected_ids(&hymo_ops);
    let overlay_module_ids = sorted_unique(&raw_layer_ids);
    let hymo_module_ids = sorted_unique(&raw_hymo_ids);
    let plan = MountPlan {
        overlay_ops,
        hymo_ops,
        magic_module_paths,
        magic_roots,
        overlay_module_ids,
        hymo_module_ids,
        magic_module_ids,
    };
    assert forall|s: Seq<char>| texts(plan.magic_module_paths@).contains(s) == texts(raw_paths@).contains(s) by {
        assert(texts(plan.magic_module_paths@).to_set().contains(s) == texts(raw_paths@).to_set().contains(s));
    }
    assert forall|s: Seq<char>| texts(plan.magic_module_ids@).contains(s) == texts(raw_ids@).contains(s) by {
        assert(texts(plan.magic_module_ids@).to_set().contains(s) == texts(raw_ids@).to_set().contains(s));
    }
    assert forall|s: Seq<char>| #[trigger] texts(plan.overlay_module_ids@).contains(s) <==> layered_id(plan.overlay_ops@, s) by {
        assert(texts(plan.overlay_module_ids@).to_set().contains(s) == texts(raw_layer_ids@).to_set().contains(s));
    }
    assert forall|s: Seq<char>| #[trigger] texts(plan.hymo_module_ids@).contains(s) <==> injected_id(plan.hymo_ops@, s) by {
        assert(texts(plan.hymo_module_ids@).to_set().contains(s) == texts(raw_hymo_ids@).to_set().contains(s));
    }
    assert forall|j: int| 0 <= j < plan.magic_roots@.len() implies #[trigger] is_magic_root(extras@, modules@, contents@, plan.magic_roots@[j]) by {
        assert(plan.magic_roots@[j].module_id@ == raw_ids@[j]@ && plan.magic_roots@[j].root@ == raw_paths@[j]@);
    }
    assert forall|i: int| 0 <= i < modules@.len() && #[trigger] magic_module(extras@, modules@[i], contents@[i])
        implies exists|j: int| 0 <= j < plan.magic_roots@.len()
            && magic_pair(extras@, modules@[i], contents@[i], #[trigger] plan.magic_roots@[j].module_id@, plan.magic_roots@[j].root@) by {
        let j = choose|j: int| 0 <= j < raw_paths@.len() && magic_pair(extras@, modules@[i], contents@[i], #[trigger] raw_ids@[j]@, raw_paths@[j]@);
        assert(plan.magic_roots@[j].module_id@ == raw_ids@[j]@ && plan.magic_roots@[j].root@ == raw_paths@[j]@);
    }
    assert(magic_lists_exact(extras@, modules@, contents@, texts(plan.magic_module_paths@), texts(plan.magic_module_ids@))) by {
        assert forall|s: Seq<char>| #[trigger] texts(plan.magic_module_paths@).contains(s) <==> exists|i: int|
            0 <= i < modules@.len() && #[trigger] magic_module(extras@, modules@[i], contents@[i]) && contents@[i].content_path@ == s by {
            assert(texts(plan.magic_module_paths@).contains(s) == texts(raw_paths@).contains(s));
        }
        assert forall|s: Seq<char>| #[trigger] texts(plan.magic_module_ids@).contains(s) <==> exists|i: int|
            0 <= i < modules@.len() && #[trigger] magic_module(extras@, modules@[i], contents@[i]) && modules@[i].id@ == s by {
            assert(texts(plan.magic_module_ids@).contains(s) == texts(raw_ids@).contains(s));
        }
    }
    plan
}

} // verus!
