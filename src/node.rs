use vstd::prelude::*;
use crate::inventory::str_equal;

verus! {

/// What a node of the magic-mount tree stands for.
#[derive(Clone, Copy, Debug, PartialEq, Eq, Structural)]
pub enum NodeFileType {
    RegularFile,
    Directory,
    Symlink,
    /// A module entry that hides the host entry of the same name.
    Whiteout,
}

/// A node of the magic-mount tree: the merge of the modules' files over one
/// host path.
#[derive(Debug)]
pub struct Node {
    pub name: String,
    pub file_type: NodeFileType,
    /// Children of a directory, each name at most once.
    pub children: Vec<Node>,
    /// The module file this node mounts, if a module ships one here.
    pub module_source: Option<String>,
    /// The module directory fully replaces the host directory.
    pub replace: bool,
    /// The node is left out: it needs a tmpfs that cannot be made.
    pub skip: bool,
}

impl Node {
    /// An empty directory node.
    pub fn new_root(name: String) -> (r: Self)
        ensures
            r.name == name,
            r.file_type == NodeFileType::Directory,
            r.children@.len() == 0,
            r.module_source.is_none(),
            !r.replace,
            !r.skip,
    {
        Node {
            name,
            file_type: NodeFileType::Directory,
            children: Vec::new(),
            module_source: None,
            replace: false,
            skip: false,
        }
    }
}

/// What the host shows at the path of one child of a directory node.
#[derive(Clone, Copy, Debug)]
pub struct HostEntry {
    /// The host entry's own type, not following a final symbolic link;
    /// nothing when the host has no entry there.
    pub kind: Option<NodeFileType>,
    /// The host path resolves to something, following symbolic links.
    pub exists: bool,
}

/// Whether a child of a directory can only be honoured inside a tmpfs: a
/// symbolic link, a whiteout over an existing host entry, or an entry whose
/// host counterpart is missing, is a symbolic link or has another type.
pub open spec fn needs_tmpfs(child: Node, host: HostEntry) -> bool {
    match child.file_type {
        NodeFileType::Symlink => true,
        NodeFileType::Whiteout => host.exists,
        _ => match host.kind {
            Some(k) => k != child.file_type || k == NodeFileType::Symlink,
            None => true,
        },
    }
}

fn needs_tmpfs_exec(child: &Node, host: &HostEntry) -> (r: bool)
    ensures
        r == needs_tmpfs(*child, *host),
{
    match child.file_type {
        NodeFileType::Symlink => true,
        NodeFileType::Whiteout => host.exists,
        _ => match host.kind {
            Some(k) => k != child.file_type || k == NodeFileType::Symlink,
            None => true,
        },
    }
}

/// Whether a directory node makes its own tmpfs, given whether an enclosing
/// one exists.
pub open spec fn creates_tmpfs(node: Node, hosts: Seq<HostEntry>, has_tmpfs: bool) -> bool {
    !has_tmpfs && node.module_source.is_some() && (node.replace || exists|i: int|
        0 <= i < node.children@.len() && #[trigger] needs_tmpfs(node.children@[i], hosts[i]))
}

/// Two nodes agree except possibly on `skip`.
pub open spec fn same_but_skip(a: Node, b: Node) -> bool {
    a.name == b.name && a.file_type == b.file_type && a.children == b.children && a.module_source == b.module_source
        && a.replace == b.replace
}

/// Decides whether directory `node` needs a tmpfs of its own. Where a child
/// needs one but the node has no module source to take metadata from, the
/// child is marked `skip` instead: exactly those children are marked.
/// `hosts[i]` describes the host entry of child `i`.
pub fn decide_tmpfs(node: &mut Node, has_tmpfs: bool, hosts: &Vec<HostEntry>) -> (create: bool)
    requires
        hosts@.len() == old(node).children@.len(),
    ensures
        create == creates_tmpfs(*old(node), hosts@, has_tmpfs),
        final(node).name == old(node).name,
        final(node).file_type == old(node).file_type,
        final(node).module_source == old(node).module_source,
        final(node).replace == old(node).replace,
        final(node).skip == old(node).skip,
        final(node).children@.len() == old(node).children@.len(),
        forall|i: int| 0 <= i < old(node).children@.len() ==> {
            let c = #[trigger] final(node).children@[i];
            &&& same_but_skip(c, old(node).children@[i])
            &&& c.skip == (old(node).children@[i].skip || (!has_tmpfs && old(node).module_source.is_none()
                && needs_tmpfs(old(node).children@[i], hosts@[i])))
        },
{
    let ghost pre = *node;
    if has_tmpfs {
        assert forall|i: int| 0 <= i < pre.children@.len() implies same_but_skip(#[trigger] node.children@[i], pre.children@[i]) by {}
        return false;
    }
    if node.module_source.is_some() {
        let mut found = node.replace;
        let mut i: usize = 0;
        while i < node.children.len() && !found
            invariant
                *node == pre,
                hosts@.len() == pre.children@.len(),
                i <= pre.children@.len(),
                found ==> (pre.replace || exists|j: int| 0 <= j < pre.children@.len() && #[trigger] needs_tmpfs(pre.children@[j], hosts@[j])),
                !found ==> !pre.replace && forall|j: int| 0 <= j < i ==> !#[trigger] needs_tmpfs(pre.children@[j], hosts@[j]),
            decreases pre.children@.len() - i,
        {
            if needs_tmpfs_exec(&node.children[i], &hosts[i]) {
                assert(needs_tmpfs(pre.children@[i as int], hosts@[i as int]));
                found = true;
            }
            i = i + 1;
        }
        assert forall|i: int| 0 <= i < pre.children@.len() implies {
            let c = #[trigger] node.children@[i];
            &&& same_but_skip(c, pre.children@[i])
            &&& c.skip == (pre.children@[i].skip || (!has_tmpfs && pre.module_source.is_none()
                && needs_tmpfs(pre.children@[i], hosts@[i])))
        } by {}
        return found;
    }
    let n = node.children.len();
    let mut kids: Vec<Node> = Vec::new();
    std::mem::swap(&mut kids, &mut node.children);
    let ghost before = kids@;
    let mut out: Vec<Node> = Vec::new();
    let mut i: usize = 0;
    while kids.len() > 0
        invariant
            before == pre.children@,
            n == before.len(),
            hosts@.len() == n,
            kids@.len() + i == n,
            kids@ == before.subrange(i as int, n as int),
            out@.len() == i,
            forall|j: int| 0 <= j < i ==> {
                let c = #[trigger] out@[j];
                &&& same_but_skip(c, before[j])
                &&& c.skip == (before[j].skip || needs_tmpfs(before[j], hosts@[j]))
            },
        decreases kids@.len(),
    {
        let mut c = kids.remove(0);
        assert(c == before[i as int]);
        assert(kids@ =~= before.subrange(i + 1, n as int));
        if needs_tmpfs_exec(&c, &hosts[i]) {
            c.skip = true;
        }
        out.push(c);
        i = i + 1;
    }
    node.children = out;
    false
}

/// One step of realising a directory node, in order.
#[derive(Clone, Debug)]
pub enum DirStep {
    /// Realise child `k` of the node.
    Descend(usize),
    /// Replicate the host entry of this name into the node's tmpfs.
    Mirror(String),
}

pub open spec fn step_view(s: DirStep) -> (bool, int, Seq<char>) {
    match s {
        DirStep::Descend(k) => (true, k as int, Seq::empty()),
        DirStep::Mirror(n) => (false, 0, n@),
    }
}

pub open spec fn steps_view(s: Seq<DirStep>) -> Seq<(bool, int, Seq<char>)> {
    s.map_values(|x: DirStep| step_view(x))
}

/// The index of the first child named `name`, or -1.
pub open spec fn child_index(children: Seq<Node>, name: Seq<char>) -> int
    decreases children.len(),
{
    if children.len() == 0 {
        -1
    } else {
        let k = child_index(children.drop_last(), name);
        if k >= 0 {
            k
        } else if children.last().name@ == name {
            children.len() - 1
        } else {
            -1
        }
    }
}

/// The steps taken over the host entries, in their order: a child that
/// matches one is realised unless skipped; an entry no child matches is
/// replicated when inside a tmpfs.
pub open spec fn host_steps(children: Seq<Node>, has_tmpfs: bool, entries: Seq<String>) -> Seq<(bool, int, Seq<char>)>
    decreases entries.len(),
{
    if entries.len() == 0 {
        Seq::empty()
    } else {
        let prev = host_steps(children, has_tmpfs, entries.drop_last());
        let e = entries.last()@;
        let k = child_index(children, e);
        if k >= 0 {
            if !children[k].skip {
                prev.push((true, k, Seq::empty()))
            } else {
                prev
            }
        } else if has_tmpfs {
            prev.push((false, 0, e))
        } else {
            prev
        }
    }
}

/// The children realised after the host walk: those no host entry matched,
/// unless skipped, in child order.
pub open spec fn rest_steps(children: Seq<Node>, walked: bool, entries: Seq<String>, n: int) -> Seq<(bool, int, Seq<char>)>
    decreases n,
{
    if n <= 0 {
        Seq::empty()
    } else {
        let prev = rest_steps(children, walked, entries, n - 1);
        let c = children[n - 1];
        if !(walked && crate::text::texts(entries).contains(c.name@)) && !c.skip {
            prev.push((true, n - 1, Seq::empty()))
        } else {
            prev
        }
    }
}

/// The steps that realise directory `node`: when the host directory exists
/// and is not replaced, its entries are walked first; the remaining children
/// follow.
pub open spec fn dir_steps(node: Node, has_tmpfs: bool, host_exists: bool, entries: Seq<String>) -> Seq<(bool, int, Seq<char>)> {
    let walked = host_exists && !node.replace;
    (if walked { host_steps(node.children@, has_tmpfs, entries) } else { Seq::empty() }) + rest_steps(
        node.children@,
        walked,
        entries,
        node.children@.len() as int,
    )
}

fn find_child(children: &Vec<Node>, name: &str) -> (r: Option<usize>)
    ensures
        r.is_some() ==> child_index(children@, name@) == r.unwrap() as int && r.unwrap() < children@.len(),
        r.is_none() ==> child_index(children@, name@) == -1,
{
    let mut k: usize = 0;
    while k < children.len()
        invariant
            k <= children@.len(),
            child_index(children@.subrange(0, k as int), name@) == -1,
        decreases children@.len() - k,
    {
        assert(children@.subrange(0, k + 1).drop_last() =~= children@.subrange(0, k as int));
        if str_equal(children[k].name.as_str(), name) {
            proof {
                lemma_child_index_prefix(children@, name@, k + 1);
            }
            return Some(k);
        }
        k = k + 1;
    }
    assert(children@.subrange(0, k as int) =~= children@);
    None
}

proof fn lemma_child_index_prefix(children: Seq<Node>, name: Seq<char>, m: int)
    requires
        0 < m <= children.len(),
        child_index(children.subrange(0, m), name) >= 0,
    ensures
        child_index(children, name) == child_index(children.subrange(0, m), name),
    decreases children.len(),
{
    if m < children.len() {
        assert(children.drop_last().subrange(0, m) =~= children.subrange(0, m));
        lemma_child_index_prefix(children.drop_last(), name, m);
    } else {
        assert(children.subrange(0, m) =~= children);
    }
}

/// The steps that realise directory `node` over the host: `has_tmpfs`
/// tells whether the node sits in a tmpfs (its own or an enclosing one),
/// `host_exists` whether the host directory exists, `entries` its entries.
pub fn plan_directory(node: &Node, has_tmpfs: bool, host_exists: bool, entries: &Vec<String>) -> (r: Vec<DirStep>)
    ensures
        steps_view(r@) == dir_steps(*node, has_tmpfs, host_exists, entries@),
{
    let walked = host_exists && !node.replace;
    let mut r: Vec<DirStep> = Vec::new();
    if walked {
        let mut j: usize = 0;
        while j < entries.len()
            invariant
                j <= entries@.len(),
                steps_view(r@) == host_steps(node.children@, has_tmpfs, entries@.subrange(0, j as int)),
            decreases entries@.len() - j,
        {
            assert(entries@.subrange(0, j + 1).drop_last() =~= entries@.subrange(0, j as int));
            let ghost before = steps_view(r@);
            match find_child(&node.children, entries[j].as_str()) {
                Some(k) => {
                    if !node.children[k].skip {
                        r.push(DirStep::Descend(k));
                        assert(steps_view(r@) =~= before.push(step_view(DirStep::Descend(k))));
                    }
                },
                None => {
                    if has_tmpfs {
                        let m = DirStep::Mirror(entries[j].clone());
                        r.push(m);
                        assert(steps_view(r@) =~= before.push(step_view(m)));
                    }
                },
            }
            j = j + 1;
        }
        assert(entries@.subrange(0, j as int) =~= entries@);
    }
    let ghost first = steps_view(r@);
    let mut k: usize = 0;
    while k < node.children.len()
        invariant
            k <= node.children@.len(),
            walked == (host_exists && !node.replace),
            steps_view(r@) == first + rest_steps(node.children@, walked, entries@, k as int),
        decreases node.children@.len() - k,
    {
        let c = &node.children[k];
        let matched = walked && crate::text::contains_text(entries, c.name.as_str());
        if !matched && !c.skip {
            let ghost before = steps_view(r@);
            r.push(DirStep::Descend(k));
            assert(steps_view(r@) =~= before.push(step_view(DirStep::Descend(k))));
        }
        k = k + 1;
    }
    proof {
        if !walked {
            assert(first =~= Seq::<(bool, int, Seq<char>)>::empty());
        }
    }
    r
}

/// One entry of a module's `system` tree, as the walk found it.
#[derive(Clone, Debug)]
pub struct ModuleFile {
    /// The path components below the module's `system` directory.
    pub relative_path: Vec<String>,
    /// Where the entry is on disk.
    pub real_path: String,
    /// The entry's own type: directory, symbolic link, or anything else as a
    /// regular file.
    pub file_type: NodeFileType,
    /// A character device with device number 0.
    pub is_whiteout: bool,
    /// A directory that holds a `.replace` marker.
    pub is_replace: bool,
}

/// The node reached from `node` by following `path` through child names.
pub open spec fn node_at(node: Node, path: Seq<Seq<char>>) -> Option<Node>
    decreases path.len(),
{
    if path.len() == 0 {
        Some(node)
    } else {
        let k = child_index(node.children@, path[0]);
        if 0 <= k < node.children@.len() {
            node_at(node.children@[k], path.drop_first())
        } else {
            None
        }
    }
}

/// The type a file gives its node.
pub open spec fn leaf_type(f: ModuleFile) -> NodeFileType {
    if f.is_whiteout { NodeFileType::Whiteout } else { f.file_type }
}

/// `n` is what inserting `f` leaves at its path.
pub open spec fn leaf_of(n: Node, f: ModuleFile) -> bool {
    &&& n.file_type == leaf_type(f)
    &&& !f.is_whiteout ==> n.module_source == Some(f.real_path)
    &&& f.is_replace ==> n.replace
}

proof fn lemma_child_index_bounds(children: Seq<Node>, name: Seq<char>)
    ensures
        -1 <= child_index(children, name) < children.len(),
        child_index(children, name) >= 0 ==> children[child_index(children, name)].name@ == name,
        child_index(children, name) >= 0 ==> forall|j: int| 0 <= j < child_index(children, name) ==> #[trigger] children[j].name@ != name,
        child_index(children, name) == -1 ==> forall|j: int| 0 <= j < children.len() ==> #[trigger] children[j].name@ != name,
    decreases children.len(),
{
    if children.len() > 0 {
        let init = children.drop_last();
        lemma_child_index_bounds(init, name);
        assert forall|j: int| 0 <= j < init.len() implies #[trigger] children[j] == init[j] by {}
        if child_index(init, name) >= 0 {
            assert forall|j: int| 0 <= j < child_index(children, name) implies #[trigger] children[j].name@ != name by {
                assert(children[j] == init[j]);
            }
        } else {
            assert forall|j: int| 0 <= j < init.len() implies #[trigger] children[j].name@ != name by {
                assert(children[j] == init[j]);
            }
        }
    }
}

proof fn lemma_child_index_first(children: Seq<Node>, name: Seq<char>, k: int)
    requires
        0 <= k < children.len(),
        children[k].name@ == name,
        forall|j: int| 0 <= j < k ==> #[trigger] children[j].name@ != name,
    ensures
        child_index(children, name) == k,
    decreases children.len(),
{
    lemma_child_index_bounds(children, name);
    if k < children.len() - 1 {
        lemma_child_index_first(children.drop_last(), name, k);
    } else {
        lemma_child_index_bounds(children.drop_last(), name);
    }
}

/// Every node strictly above the end of `path` that `before` lacked is, in
/// `after`, a directory with no module source.
pub open spec fn created_as_dirs(before: Node, after: Node, path: Seq<Seq<char>>) -> bool {
    forall|m: int| 0 < m < path.len() && #[trigger] node_at(before, path.subrange(0, m)).is_none() ==> (node_at(
        after,
        path.subrange(0, m),
    ) matches Some(n) && n.file_type == NodeFileType::Directory && n.module_source.is_none())
}

/// Two nodes agree on what a module file sets.
pub open spec fn same_fields(a: Node, b: Node) -> bool {
    a.file_type == b.file_type && a.module_source == b.module_source && a.replace == b.replace
}

/// Every node of `before` but the one at `path` is still in `after`, with
/// the same type, source and replace marker.
pub open spec fn kept_elsewhere(before: Node, after: Node, path: Seq<Seq<char>>) -> bool {
    forall|q: Seq<Seq<char>>| q != path && #[trigger] node_at(before, q).is_some() ==> node_at(after, q).is_some()
        && same_fields(node_at(after, q).unwrap(), node_at(before, q).unwrap())
}

proof fn lemma_child_index_update(children: Seq<Node>, k: int, c: Node, nm: Seq<char>)
    requires
        0 <= k < children.len(),
        children[k].name@ == c.name@,
    ensures
        child_index(children.update(k, c), nm) == child_index(children, nm),
    decreases children.len(),
{
    let u = children.update(k, c);
    if k < children.len() - 1 {
        assert(u.drop_last() =~= children.drop_last().update(k, c));
        lemma_child_index_update(children.drop_last(), k, c, nm);
    } else {
        assert(u.drop_last() =~= children.drop_last());
    }
}

proof fn lemma_child_index_push(children: Seq<Node>, c: Node, nm: Seq<char>)
    requires
        c.name@ != nm,
    ensures
        child_index(children.push(c), nm) == child_index(children, nm),
{
    assert(children.push(c).drop_last() =~= children);
}

proof fn lemma_node_at_children(a: Node, b: Node, r: Seq<Seq<char>>)
    requires
        a.children == b.children,
        r.len() > 0,
    ensures
        node_at(a, r) == node_at(b, r),
{
}

proof fn lemma_insert_frame(before: Node, after: Node, kids: Seq<Node>, k: int, new_child: Node, path: Seq<Seq<char>>)
    requires
        path.len() > 0,
        0 <= k < kids.len(),
        after.children@ == kids.update(k, new_child),
        same_fields(after, before),
        kids[k].name@ == path[0],
        new_child.name@ == path[0],
        child_index(kids, path[0]) == k,
        kids == before.children@ || (kids == before.children@.push(kids[k]) && child_index(before.children@, path[0]) == -1),
        kept_elsewhere(kids[k], new_child, path.drop_first()),
    ensures
        kept_elsewhere(before, after, path),
{
    let name = path[0];
    assert forall|q: Seq<Seq<char>>| q != path && #[trigger] node_at(before, q).is_some() implies node_at(after, q).is_some()
        && same_fields(node_at(after, q).unwrap(), node_at(before, q).unwrap()) by {
        if q.len() > 0 {
            let q0 = q[0];
            lemma_child_index_bounds(before.children@, q0);
            lemma_child_index_bounds(kids, q0);
            let j = child_index(before.children@, q0);
            lemma_child_index_update(kids, k, new_child, q0);
            lemma_child_index_bounds(after.children@, q0);
            if q0 != name {
                if kids != before.children@ {
                    lemma_child_index_push(before.children@, kids[k], q0);
                }
                assert(child_index(after.children@, q0) == j);
                assert(j != k);
                assert(after.children@[j] == kids[j]);
                assert(kids[j] == before.children@[j]);
            } else {
                assert(j >= 0);
                assert(kids == before.children@);
                assert(j == k);
                assert(q.drop_first() != path.drop_first()) by {
                    if q.drop_first() == path.drop_first() {
                        assert(q =~= seq![q0] + q.drop_first());
                        assert(path =~= seq![name] + path.drop_first());
                    }
                }
                assert(node_at(before, q) == node_at(kids[k], q.drop_first()));
                assert(node_at(after, q) == node_at(new_child, q.drop_first()));
            }
        }
    }
}

/// Inserts module file `f` below `node`, from component `depth` on: missing
/// directories on the way are created, and the last component takes the
/// file's type, source and replace marker.
#[verifier::rlimit(60)]
fn add_at(node: &mut Node, f: &ModuleFile, depth: usize)
    requires
        depth < f.relative_path@.len(),
    ensures
        final(node).name == old(node).name,
        final(node).file_type == old(node).file_type,
        final(node).module_source == old(node).module_source,
        final(node).replace == old(node).replace,
        final(node).skip == old(node).skip,
        node_at(*final(node), crate::text::texts(f.relative_path@).subrange(depth as int, f.relative_path@.len() as int)) matches Some(n)
            && leaf_of(n, *f),
        kept_elsewhere(*old(node), *final(node), crate::text::texts(f.relative_path@).subrange(depth as int, f.relative_path@.len() as int)),
        created_as_dirs(*old(node), *final(node), crate::text::texts(f.relative_path@).subrange(depth as int, f.relative_path@.len() as int)),
    decreases f.relative_path@.len() - depth,
{
    let ghost before = *node;
    let comps = &f.relative_path;
    let total = comps.len();
    let last = depth == total - 1;
    let name = &comps[depth];
    let k = match find_child(&node.children, name.as_str()) {
        Some(k) => k,
        None => {
            let ft = if last {
                if f.is_whiteout { NodeFileType::Whiteout } else { f.file_type }
            } else {
                NodeFileType::Directory
            };
            let fresh = Node {
                name: name.clone(),
                file_type: ft,
                children: Vec::new(),
                module_source: None,
                replace: false,
                skip: false,
            };
            let ghost prior = node.children@;
            node.children.push(fresh);
            proof {
                lemma_child_index_bounds(prior, name@);
                lemma_child_index_first(node.children@, name@, prior.len() as int);
                assert(node.children@ =~= before.children@.push(node.children@[prior.len() as int]));
            }
            node.children.len() - 1
        },
    };
    proof {
        lemma_child_index_bounds(node.children@, name@);
    }
    let ghost kids = node.children@;
    let mut child = node.children.remove(k);
    if last {
        if !f.is_whiteout {
            child.module_source = Some(f.real_path.clone());
            child.file_type = f.file_type;
        } else {
            child.file_type = NodeFileType::Whiteout;
        }
        if f.is_replace {
            child.replace = true;
        }
    } else {
        add_at(&mut child, f, depth + 1);
    }
    node.children.insert(k, child);
    assert(node.children@ =~= kids.update(k as int, child));
    proof {
        assert(child.name@ == name@);
        assert forall|j: int| 0 <= j < k implies #[trigger] node.children@[j].name@ != name@ by {
            assert(node.children@[j] == kids[j]);
        }
        lemma_child_index_first(node.children@, name@, k as int);
        let path = crate::text::texts(f.relative_path@).subrange(depth as int, f.relative_path@.len() as int);
        assert(path[0] == name@);
        if !last {
            assert(path.drop_first() =~= crate::text::texts(f.relative_path@).subrange(depth + 1, f.relative_path@.len() as int));
        } else {
            assert(path.drop_first() =~= Seq::<Seq<char>>::empty());
            assert(node_at(child, path.drop_first()) == Some(child));
        }
        assert(node_at(*node, path) == node_at(node.children@[k as int], path.drop_first()));
        if last {
            assert forall|q: Seq<Seq<char>>| q != path.drop_first() && #[trigger] node_at(kids[k as int], q).is_some()
                implies node_at(child, q).is_some() && same_fields(node_at(child, q).unwrap(), node_at(kids[k as int], q).unwrap()) by {
                if q.len() == 0 {
                    assert(q =~= path.drop_first());
                }
                lemma_node_at_children(child, kids[k as int], q);
            }
        }
        lemma_insert_frame(before, *node, kids, k as int, child, path);
        let rest = path.drop_first();
        if !last {
            assert(rest =~= crate::text::texts(f.relative_path@).subrange(depth + 1, f.relative_path@.len() as int));
        }
        assert forall|m: int| 0 < m < path.len() && #[trigger] node_at(before, path.subrange(0, m)).is_none() implies (node_at(
            *node,
            path.subrange(0, m),
        ) matches Some(n) && n.file_type == NodeFileType::Directory && n.module_source.is_none()) by {
            let pre = path.subrange(0, m);
            assert(pre[0] == name@);
            assert(pre.drop_first() =~= rest.subrange(0, m - 1));
            assert(node_at(*node, pre) == node_at(child, pre.drop_first()));
            lemma_child_index_bounds(before.children@, name@);
            if child_index(before.children@, name@) >= 0 {
                assert(kids =~= before.children@);
                assert(node_at(before, pre) == node_at(kids[k as int], pre.drop_first()));
                assert(m > 1);
            } else {
                assert(kids[k as int].file_type == NodeFileType::Directory && kids[k as int].module_source.is_none());
                assert(kids[k as int].children@.len() == 0);
                if m > 1 {
                    assert(node_at(kids[k as int], rest.subrange(0, m - 1)).is_none());
                }
            }
        }
    }
}

impl Node {
    /// Inserts module file `f` into the tree below this node; a later file
    /// at the same path overrides the source of an earlier one.
    pub fn add_module_file(&mut self, f: &ModuleFile)
        requires
            f.relative_path@.len() > 0,
        ensures
            final(self).name == old(self).name,
            final(self).file_type == old(self).file_type,
            node_at(*final(self), crate::text::texts(f.relative_path@)) matches Some(n) && leaf_of(n, *f),
            kept_elsewhere(*old(self), *final(self), crate::text::texts(f.relative_path@)),
            created_as_dirs(*old(self), *final(self), crate::text::texts(f.relative_path@)),
    {
        add_at(self, f, 0);
        assert(crate::text::texts(f.relative_path@).subrange(0, f.relative_path@.len() as int) =~= crate::text::texts(f.relative_path@));
    }
}

impl Node {
    /// Inserts a module's files into the tree below this node, leaving out
    /// the `.replace` markers themselves; tells whether any file went in.
    pub fn collect_module_files(&mut self, files: &Vec<ModuleFile>) -> (r: bool)
        ensures
            final(self).name == old(self).name,
            final(self).file_type == old(self).file_type,
            r == exists|i: int| 0 <= i < files@.len() && #[trigger] inserted(files@[i]),
            forall|i: int| 0 <= i < files@.len() && #[trigger] last_at_path(files@, i, files@.len() as int) ==> placed(*final(self), files@[i]),
    {
        let mut any = false;
        let mut i: usize = 0;
        while i < files.len()
            invariant
                i <= files@.len(),
                self.name == old(self).name,
                self.file_type == old(self).file_type,
                any == exists|j: int| 0 <= j < i && #[trigger] inserted(files@[j]),
                forall|j: int| 0 <= j < i && #[trigger] last_at_path(files@, j, i as int) ==> placed(*self, files@[j]),
            decreases files@.len() - i,
        {
            let f = &files[i];
            let ghost pre = *self;
            if is_inserted(f) {
                self.add_module_file(f);
                any = true;
                assert forall|j: int| 0 <= j < i + 1 && #[trigger] last_at_path(files@, j, i + 1) implies placed(*self, files@[j]) by {
                    if j < i {
                        assert(last_at_path(files@, j, i as int));
                        let pj = crate::text::texts(files@[j].relative_path@);
                        assert(pj != crate::text::texts(files@[i as int].relative_path@));
                        assert(node_at(pre, pj).is_some());
                    }
                }
            } else {
                assert forall|j: int| 0 <= j < i + 1 && #[trigger] last_at_path(files@, j, i + 1) implies placed(*self, files@[j]) by {
                    if j < i {
                        assert(last_at_path(files@, j, i as int));
                    }
                }
            }
            i = i + 1;
        }
        any
    }
}

/// File `i` goes into the tree and no later file before `end` goes to the
/// same path.
pub open spec fn last_at_path(files: Seq<ModuleFile>, i: int, end: int) -> bool {
    inserted(files[i]) && forall|j: int| i < j < end && inserted(#[trigger] files[j]) ==> crate::text::texts(files[j].relative_path@)
        != crate::text::texts(files[i].relative_path@)
}

/// The tree holds file `f` at its path.
pub open spec fn placed(node: Node, f: ModuleFile) -> bool {
    node_at(node, crate::text::texts(f.relative_path@)) matches Some(n) && leaf_of(n, f)
}

/// A file that goes into the tree: it has a path and is not a `.replace` marker.
pub open spec fn inserted(f: ModuleFile) -> bool {
    f.relative_path@.len() > 0 && f.relative_path@.last()@ != ".replace"@
}

fn is_inserted(f: &ModuleFile) -> (r: bool)
    ensures
        r == inserted(*f),
{
    let n = f.relative_path.len();
    n > 0 && !str_equal(f.relative_path[n - 1].as_str(), ".replace")
}

/// What the host shows for one partition that may be lifted out of `system`.
#[derive(Clone, Debug)]
pub struct PartitionHost {
    pub name: String,
    /// `/<name>` is a directory.
    pub root_is_dir: bool,
    /// `/system/<name>` is a symbolic link.
    pub system_entry_is_symlink: bool,
}

/// The first host description for partition `p`.
pub open spec fn host_of(hosts: Seq<PartitionHost>, p: Seq<char>) -> Option<PartitionHost>
    decreases hosts.len(),
{
    if hosts.len() == 0 {
        None
    } else if hosts[0].name@ == p {
        Some(hosts[0])
    } else {
        host_of(hosts.drop_first(), p)
    }
}

/// Partition `p` is mounted at the top level: its host directory exists and,
/// where `requires_link`, `/system/<p>` links to it.
pub open spec fn liftable(hosts: Seq<PartitionHost>, p: Seq<char>, requires_link: bool) -> bool {
    match host_of(hosts, p) {
        Some(h) => h.root_is_dir && (!requires_link || h.system_entry_is_symlink),
        None => false,
    }
}

fn find_host(hosts: &Vec<PartitionHost>, p: &str) -> (r: Option<usize>)
    ensures
        r.is_some() ==> r.unwrap() < hosts@.len() && host_of(hosts@, p@) == Some(hosts@[r.unwrap() as int]),
        r.is_none() ==> host_of(hosts@, p@).is_none(),
{
    let mut i: usize = 0;
    assert(hosts@.subrange(0, hosts@.len() as int) =~= hosts@);
    while i < hosts.len()
        invariant
            i <= hosts@.len(),
            host_of(hosts@, p@) == host_of(hosts@.subrange(i as int, hosts@.len() as int), p@),
        decreases hosts@.len() - i,
    {
        assert(hosts@.subrange(i as int, hosts@.len() as int).drop_first() =~= hosts@.subrange(i + 1, hosts@.len() as int));
        if str_equal(hosts[i].name.as_str(), p) {
            return Some(i);
        }
        i = i + 1;
    }
    None
}

/// The type a lifted node gets: a symbolic link whose source links to a
/// directory (its source is listed in `dir_links`) becomes a directory so
/// that it is walked; any other node keeps its type.
pub open spec fn upgraded_type(n: Node, dir_links: Seq<String>) -> NodeFileType {
    if n.file_type == NodeFileType::Symlink && (n.module_source matches Some(mp) && crate::text::texts(dir_links).contains(mp@)) {
        NodeFileType::Directory
    } else {
        n.file_type
    }
}

/// `c` is node `orig` taken out of `system`, whole, with its type upgraded.
pub open spec fn lifted_from(c: Node, orig: Node, dir_links: Seq<String>) -> bool {
    &&& c.name == orig.name
    &&& c.children == orig.children
    &&& c.module_source == orig.module_source
    &&& c.replace == orig.replace
    &&& c.skip == orig.skip
    &&& c.file_type == upgraded_type(orig, dir_links)
}

/// Moves the first child `p` of `system`, when it exists and the host
/// allows it, to the top level.
fn lift(root: &mut Node, system: &mut Node, hosts: &Vec<PartitionHost>, p: &str, requires_link: bool, dir_links: &Vec<String>)
    ensures
        final(root).name == old(root).name,
        final(root).file_type == old(root).file_type,
        final(system).name == old(system).name,
        ({
            let k = child_index(old(system).children@, p@);
            if liftable(hosts@, p@, requires_link) && k >= 0 {
                &&& final(system).children@ == old(system).children@.remove(k)
                &&& final(root).children@.len() == old(root).children@.len() + 1
                &&& final(root).children@.subrange(0, old(root).children@.len() as int) == old(root).children@
                &&& final(root).children@.last().name@ == p@
                &&& lifted_from(final(root).children@.last(), old(system).children@[k], dir_links@)
            } else {
                &&& final(system).children == old(system).children
                &&& final(root).children == old(root).children
            }
        }),
{
    proof {
        lemma_child_index_bounds(system.children@, p@);
    }
    let h = match find_host(hosts, p) {
        Some(h) => h,
        None => {
            return;
        },
    };
    if !hosts[h].root_is_dir || (requires_link && !hosts[h].system_entry_is_symlink) {
        return;
    }
    match find_child(&system.children, p) {
        Some(k) => {
            let ghost kids = system.children@;
            let mut child = system.children.remove(k);
            let ghost orig = child;
            if child.file_type == NodeFileType::Symlink {
                match &child.module_source {
                    Some(mp) => {
                        if crate::text::contains_text(dir_links, mp.as_str()) {
                            child.file_type = NodeFileType::Directory;
                        }
                    },
                    None => {},
                }
            }
            assert(lifted_from(child, orig, dir_links@));
            let ghost pre = root.children@;
            root.children.push(child);
            assert(root.children@.subrange(0, pre.len() as int) =~= pre);
        },
        None => {},
    }
}

/// The builtin partitions that may move to the top level.
pub open spec fn builtin_lift(p: Seq<char>) -> bool {
    p == "vendor"@ || p == "system_ext"@ || p == "product"@ || p == "odm"@
}

/// Some child is named `nm`.
pub open spec fn has_child(children: Seq<Node>, nm: Seq<char>) -> bool {
    exists|j: int| 0 <= j < children.len() && children[j].name@ == nm
}

/// The user's extra partitions that are lifted, in order: those that are not
/// builtin and not `system`.
pub open spec fn extra_order(extras: Seq<String>) -> Seq<(Seq<char>, bool)>
    decreases extras.len(),
{
    if extras.len() == 0 {
        Seq::empty()
    } else {
        let prev = extra_order(extras.drop_last());
        let e = extras.last()@;
        if !builtin_lift(e) && e != "system"@ {
            prev.push((e, false))
        } else {
            prev
        }
    }
}

/// The partitions tried in order, each with whether `/system/<p>` must be a
/// link: `vendor`, `system_ext` and `product` need it, `odm` and the user's
/// extra partitions do not.
pub open spec fn lift_order(extras: Seq<String>) -> Seq<(Seq<char>, bool)> {
    seq![("vendor"@, true), ("system_ext"@, true), ("product"@, true), ("odm"@, false)] + extra_order(extras)
}

pub open spec fn order_view(v: Seq<(String, bool)>) -> Seq<(Seq<char>, bool)> {
    v.map_values(|x: (String, bool)| (x.0@, x.1))
}

fn lift_order_of(extras: &Vec<String>) -> (r: Vec<(String, bool)>)
    ensures
        order_view(r@) == lift_order(extras@),
{
    proof {
        reveal_strlit("vendor");
        reveal_strlit("system_ext");
        reveal_strlit("product");
        reveal_strlit("odm");
        reveal_strlit("system");
    }
    let mut r: Vec<(String, bool)> = Vec::new();
    r.push(("vendor".to_owned(), true));
    r.push(("system_ext".to_owned(), true));
    r.push(("product".to_owned(), true));
    r.push(("odm".to_owned(), false));
    let ghost head = order_view(r@);
    assert(head =~= seq![("vendor"@, true), ("system_ext"@, true), ("product"@, true), ("odm"@, false)]);
    let mut j: usize = 0;
    while j < extras.len()
        invariant
            j <= extras@.len(),
            order_view(r@) == head + extra_order(extras@.subrange(0, j as int)),
        decreases extras@.len() - j,
    {
        assert(extras@.subrange(0, j + 1).drop_last() =~= extras@.subrange(0, j as int));
        let p = extras[j].as_str();
        let builtin = str_equal(p, "vendor") || str_equal(p, "system_ext") || str_equal(p, "product") || str_equal(p, "odm");
        if !builtin && !str_equal(p, "system") {
            let ghost before = order_view(r@);
            r.push((extras[j].clone(), false));
            assert(order_view(r@) =~= before.push((p@, false)));
        }
        j = j + 1;
    }
    assert(extras@.subrange(0, j as int) =~= extras@);
    r
}

proof fn lemma_extra_order_names(extras: Seq<String>)
    ensures
        forall|t: int| 0 <= t < extra_order(extras).len() ==> crate::text::texts(extras).contains(#[trigger] extra_order(extras)[t].0)
            && extra_order(extras)[t].0 != "system"@ && !extra_order(extras)[t].1,
    decreases extras.len(),
{
    if extras.len() > 0 {
        lemma_extra_order_names(extras.drop_last());
        let prev = extra_order(extras.drop_last());
        assert forall|t: int| 0 <= t < extra_order(extras).len() implies crate::text::texts(extras).contains(#[trigger] extra_order(extras)[t].0)
            && extra_order(extras)[t].0 != "system"@ && !extra_order(extras)[t].1 by {
            if t < prev.len() {
                assert(extra_order(extras)[t] == prev[t]);
                let i = choose|i: int| 0 <= i < crate::text::texts(extras.drop_last()).len() && crate::text::texts(extras.drop_last())[i] == prev[t].0;
                assert(crate::text::texts(extras)[i] == prev[t].0);
            } else {
                assert(crate::text::texts(extras)[extras.len() - 1] == extras.last()@);
            }
        }
    }
}

/// The partitions lifted out of `system` in order: the builtin ones that
/// need `/system/<p>` to be a link, `odm`, then the user's extra ones.
pub open spec fn lift_candidate(extras: Seq<String>, p: Seq<char>) -> bool {
    p == "vendor"@ || p == "system_ext"@ || p == "product"@ || p == "odm"@ || (crate::text::texts(extras).contains(p)
        && p != "system"@)
}

/// `c` is a node of `s0`, lifted whole.
pub open spec fn lifted_out_of(s0: Seq<Node>, c: Node, dir_links: Seq<String>) -> bool {
    exists|j: int| 0 <= j < s0.len() && lifted_from(c, #[trigger] s0[j], dir_links)
}

/// `c` is a node of `s0`, unchanged.
pub open spec fn left_in(s0: Seq<Node>, c: Node) -> bool {
    exists|j: int| 0 <= j < s0.len() && c == #[trigger] s0[j]
}

/// Some node of `cs` is named `nm`.
pub open spec fn named_in(cs: Seq<Node>, nm: Seq<char>) -> bool {
    exists|i: int| 0 <= i < cs.len() && (#[trigger] cs[i]).name@ == nm
}

/// Builds the top of the magic-mount tree from the merged `system` tree:
/// each partition of `lift_order` that the host mounts at the top level
/// (see `liftable`) moves, whole, out of `system` to the root, which then
/// takes what is left of `system` last. Nothing is built when no module
/// contributed a file (`has_file`).
pub fn attach_partitions(
    system: Node,
    has_file: bool,
    hosts: &Vec<PartitionHost>,
    extras: &Vec<String>,
    dir_links: &Vec<String>,
) -> (r: Option<Node>)
    requires
        system.name@ == "system"@,
    ensures
        r.is_some() == has_file,
        r matches Some(root) ==> {
            let lifted = root.children@.subrange(0, root.children@.len() - 1);
            let rest = root.children@.last();
            &&& root.name@.len() == 0
            &&& root.file_type == NodeFileType::Directory
            &&& root.children@.len() >= 1
            &&& rest.name@ == "system"@
            &&& forall|i: int| 0 <= i < lifted.len() ==> #[trigger] lift_candidate(extras@, lifted[i].name@)
                && lifted_out_of(system.children@, lifted[i], dir_links@)
            &&& forall|i: int| 0 <= i < rest.children@.len() ==> #[trigger] left_in(system.children@, rest.children@[i])
            &&& rest.children@.len() + lifted.len() == system.children@.len()
            &&& forall|t: int| 0 <= t < lift_order(extras@).len() && liftable(hosts@, lift_order(extras@)[t].0, lift_order(extras@)[t].1)
                && #[trigger] has_child(system.children@, lift_order(extras@)[t].0) ==> named_in(lifted, lift_order(extras@)[t].0)
        },
{
    if !has_file {
        return None;
    }
    proof {
        reveal_strlit("vendor");
        reveal_strlit("system_ext");
        reveal_strlit("product");
        reveal_strlit("odm");
        reveal_strlit("system");
        lemma_extra_order_names(extras@);
    }
    let ghost s0 = system.children@;
    let order = lift_order_of(extras);
    let ghost ov = order_view(order@);
    let mut root = Node::new_root(String::new());
    let mut system = system;
    assert forall|i: int| 0 <= i < system.children@.len() implies #[trigger] left_in(s0, system.children@[i]) by {
        assert(system.children@[i] == s0[i]);
    }
    let mut t: usize = 0;
    while t < order.len()
        invariant
            t <= order@.len(),
            ov == order_view(order@),
            ov == lift_order(extras@),
            forall|u: int| 4 <= u < ov.len() ==> crate::text::texts(extras@).contains(#[trigger] ov[u].0) && ov[u].0 != "system"@,
            root.name@.len() == 0,
            root.file_type == NodeFileType::Directory,
            system.name@ == "system"@,
            forall|i: int| 0 <= i < root.children@.len() ==> #[trigger] lift_candidate(extras@, root.children@[i].name@)
                && lifted_out_of(s0, root.children@[i], dir_links@),
            forall|i: int| 0 <= i < system.children@.len() ==> #[trigger] left_in(s0, system.children@[i]),
            system.children@.len() + root.children@.len() == s0.len(),
            forall|nm: Seq<char>| #[trigger] has_child(s0, nm) && !has_child(system.children@, nm) ==> named_in(root.children@, nm),
            forall|u: int| 0 <= u < t && liftable(hosts@, ov[u].0, ov[u].1) && #[trigger] has_child(s0, ov[u].0)
                ==> named_in(root.children@, ov[u].0),
        decreases order@.len() - t,
    {
        let p = order[t].0.as_str();
        let need = order[t].1;
        assert(ov[t as int] == (p@, need));
        proof {
            if t >= 4 {
                assert(crate::text::texts(extras@).contains(ov[t as int].0));
            } else {
                assert(ov[t as int].0 == "vendor"@ || ov[t as int].0 == "system_ext"@ || ov[t as int].0 == "product"@
                    || ov[t as int].0 == "odm"@);
            }
        }
        let ghost sys0 = system.children@;
        let ghost root0 = root.children@;
        lift(&mut root, &mut system, hosts, p, need, dir_links);
        proof {
            let k = child_index(sys0, p@);
            lemma_child_index_bounds(sys0, p@);
            assert forall|i: int| 0 <= i < root0.len() implies #[trigger] root.children@[i] == root0[i] by {
                if root.children@.len() != root0.len() {
                    assert(root.children@.subrange(0, root0.len() as int)[i] == root0[i]);
                }
            }
            assert forall|nm: Seq<char>| named_in(root0, nm) implies #[trigger] named_in(root.children@, nm) by {
                let i = choose|i: int| 0 <= i < root0.len() && (#[trigger] root0[i]).name@ == nm;
                assert(root.children@[i] == root0[i]);
            }
            if liftable(hosts@, p@, need) && k >= 0 {
                let last = root.children@.len() - 1;
                assert(root.children@[last] == root.children@.last());
                assert(left_in(s0, sys0[k]));
                let j0 = choose|j: int| 0 <= j < s0.len() && sys0[k] == #[trigger] s0[j];
                assert(lifted_from(root.children@[last], s0[j0], dir_links@));
                assert(named_in(root.children@, p@)) by {
                    assert(root.children@[last].name@ == p@);
                }
                assert forall|i: int| 0 <= i < root.children@.len() implies #[trigger] lift_candidate(extras@, root.children@[i].name@)
                    && lifted_out_of(s0, root.children@[i], dir_links@) by {
                    if i < root0.len() {
                        assert(root.children@[i] == root0[i]);
                    } else {
                        assert(i == last);
                    }
                }
                assert forall|i: int| 0 <= i < system.children@.len() implies #[trigger] left_in(s0, system.children@[i]) by {
                    if i < k {
                        assert(system.children@[i] == sys0[i]);
                    } else {
                        assert(system.children@[i] == sys0[i + 1]);
                    }
                }
                assert forall|nm: Seq<char>| #[trigger] has_child(s0, nm) && !has_child(system.children@, nm) implies named_in(root.children@, nm) by {
                    if nm == p@ {
                    } else if has_child(sys0, nm) {
                        let j = choose|j: int| 0 <= j < sys0.len() && sys0[j].name@ == nm;
                        if j < k {
                            assert(system.children@[j] == sys0[j]);
                        } else {
                            assert(j != k);
                            assert(system.children@[j - 1] == sys0[j]);
                        }
                    }
                }
            } else {
                if liftable(hosts@, p@, need) && has_child(s0, p@) {
                    assert(!has_child(sys0, p@)) by {
                        if has_child(sys0, p@) {
                            let j = choose|j: int| 0 <= j < sys0.len() && sys0[j].name@ == p@;
                        }
                    }
                }
            }
            assert forall|u: int| 0 <= u < t + 1 && liftable(hosts@, ov[u].0, ov[u].1) && #[trigger] has_child(s0, ov[u].0)
                implies named_in(root.children@, ov[u].0) by {
                if u < t {
                    assert(named_in(root0, ov[u].0));
                } else if !(liftable(hosts@, p@, need) && k >= 0) {
                    assert(!has_child(sys0, p@)) by {
                        if has_child(sys0, p@) {
                            let j = choose|j: int| 0 <= j < sys0.len() && sys0[j].name@ == p@;
                        }
                    }
                    assert(named_in(root0, p@));
                }
            }
        }
        t = t + 1;
    }
    let ghost lifted = root.children@;
    root.children.push(system);
    assert(root.children@.subrange(0, root.children@.len() - 1) =~= lifted);
    Some(root)
}

} // verus!
