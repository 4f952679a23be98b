use vstd::prelude::*;
use crate::text::{is_under, lemma_push_contains, path_under, sorted_unique, strictly_ascending, texts};

verus! {

/// `lower1:lower2:...:` for a list of directories.
pub open spec fn colon_prefix(s: Seq<Seq<char>>) -> Seq<char>
    decreases s.len(),
{
    if s.len() == 0 {
        Seq::empty()
    } else {
        colon_prefix(s.drop_last()) + s.last() + seq![':']
    }
}

/// The `lowerdir` option of an overlay: the layers, leftmost first, then
/// the lowest directory.
pub fn lowerdir_config(lowers: &Vec<String>, lowest: &str) -> (r: String)
    ensures
        r@ == colon_prefix(texts(lowers@)) + lowest@,
{
    proof {
        reveal_strlit(":");
    }
    let mut r = String::new();
    let mut i: usize = 0;
    while i < lowers.len()
        invariant
            i <= lowers@.len(),
            r@ == colon_prefix(texts(lowers@.subrange(0, i as int))),
        decreases lowers@.len() - i,
    {
        assert(texts(lowers@.subrange(0, i + 1)).drop_last() =~= texts(lowers@.subrange(0, i as int)));
        let ghost prev = r@;
        r.append(lowers[i].as_str());
        r.append(":");
        proof {
            reveal_strlit(":");
        }
        assert(":"@ =~= seq![':']);
        assert(texts(lowers@.subrange(0, i + 1)).last() == lowers@[i as int]@);
        assert(r@ =~= prev + lowers@[i as int]@ + seq![':']);
        i = i + 1;
    }
    assert(lowers@.subrange(0, i as int) =~= lowers@);
    r.append(lowest);
    r
}

/// The data string of a legacy overlay mount.
pub fn legacy_mount_data(lowerdir: &str, upperdir: Option<&str>, workdir: Option<&str>) -> (r: String)
    ensures
        (upperdir.is_some() && workdir.is_some()) ==> r@ == "lowerdir="@ + lowerdir@ + ",upperdir="@ + upperdir.unwrap()@
            + ",workdir="@ + workdir.unwrap()@,
        !(upperdir.is_some() && workdir.is_some()) ==> r@ == "lowerdir="@ + lowerdir@,
{
    let mut r = "lowerdir=".to_owned();
    r.append(lowerdir);
    match (upperdir, workdir) {
        (Some(u), Some(w)) => {
            r.append(",upperdir=");
            r.append(u);
            r.append(",workdir=");
            r.append(w);
        },
        _ => {},
    }
    r
}

/// The mount points strictly below `target`, sorted, each once.
pub fn child_mount_points(target: &str, mounts: &Vec<String>) -> (r: Vec<String>)
    ensures
        strictly_ascending(texts(r@)),
        forall|s: Seq<char>| #[trigger] texts(r@).contains(s) <==> (texts(mounts@).contains(s) && path_under(s, target@)
            && s != target@),
{
    let mut raw: Vec<String> = Vec::new();
    let mut i: usize = 0;
    while i < mounts.len()
        invariant
            i <= mounts@.len(),
            forall|s: Seq<char>| #[trigger] texts(raw@).contains(s) <==> (texts(mounts@.subrange(0, i as int)).contains(s)
                && path_under(s, target@) && s != target@),
        decreases mounts@.len() - i,
    {
        let m = mounts[i].as_str();
        assert(texts(mounts@.subrange(0, i + 1)) =~= texts(mounts@.subrange(0, i as int)).push(m@));
        proof {
            lemma_push_contains(texts(mounts@.subrange(0, i as int)), m@);
        }
        if is_under(m, target) && !crate::inventory::str_equal(m, target) {
            let ghost before = texts(raw@);
            raw.push(mounts[i].clone());
            assert(texts(raw@) =~= before.push(m@));
            proof {
                lemma_push_contains(before, m@);
            }
        }
        i = i + 1;
    }
    assert(mounts@.subrange(0, i as int) =~= mounts@);
    let r = sorted_unique(&raw);
    assert forall|s: Seq<char>| #[trigger] texts(r@).contains(s) <==> texts(raw@).contains(s) by {
        assert(texts(r@).to_set().contains(s) == texts(raw@).to_set().contains(s));
    }
    r
}

/// What a module root holds at the path of a child mount point.
#[derive(Clone, Copy, Debug, PartialEq, Eq, Structural)]
pub enum LowerKind {
    Absent,
    Directory,
    /// Something other than a directory.
    Other,
}

/// How a mount point inside an overlaid partition is dealt with.
#[derive(Clone, Debug)]
pub enum ChildMount {
    /// No module touches it: bind the host's own subtree back over it.
    BindStock,
    /// It cannot be overlaid: leave it as it is.
    Leave,
    /// Overlay these directories, leftmost first, over the host's subtree.
    Overlay(Vec<String>),
}

/// The layers of a child overlay: the module directories at the child's
/// relative path, in order.
pub open spec fn child_layers(roots: Seq<String>, kinds: Seq<LowerKind>, relative: Seq<char>, n: int) -> Seq<Seq<char>>
    decreases n,
{
    if n <= 0 {
        Seq::empty()
    } else {
        let prev = child_layers(roots, kinds, relative, n - 1);
        if kinds[n - 1] == LowerKind::Directory {
            prev.push(roots[n - 1]@ + relative)
        } else {
            prev
        }
    }
}

/// Decides how the mount point at `relative` below an overlaid partition is
/// handled; `kinds[i]` is what module root `i` holds there, `stock_is_dir`
/// whether the host's own entry is a directory.
pub fn mount_overlay_child(relative: &str, module_roots: &Vec<String>, kinds: &Vec<LowerKind>, stock_is_dir: bool) -> (r: ChildMount)
    requires
        kinds@.len() == module_roots@.len(),
    ensures
        (forall|i: int| 0 <= i < kinds@.len() ==> kinds@[i] == LowerKind::Absent) ==> r is BindStock,
        !(forall|i: int| 0 <= i < kinds@.len() ==> kinds@[i] == LowerKind::Absent) && (!stock_is_dir || exists|i: int|
            0 <= i < kinds@.len() && kinds@[i] == LowerKind::Other) ==> r is Leave,
        !(forall|i: int| 0 <= i < kinds@.len() ==> kinds@[i] == LowerKind::Absent) && stock_is_dir && (forall|i: int|
            0 <= i < kinds@.len() ==> kinds@[i] != LowerKind::Other) ==> (r matches ChildMount::Overlay(l)
            && texts(l@) == child_layers(module_roots@, kinds@, relative@, kinds@.len() as int) && l@.len() > 0),
{
    let mut any = false;
    let mut other = false;
    let mut i: usize = 0;
    while i < kinds.len()
        invariant
            i <= kinds@.len(),
            any == exists|j: int| 0 <= j < i && kinds@[j] != LowerKind::Absent,
            other == exists|j: int| 0 <= j < i && kinds@[j] == LowerKind::Other,
        decreases kinds@.len() - i,
    {
        if kinds[i] != LowerKind::Absent {
            any = true;
        }
        if kinds[i] == LowerKind::Other {
            other = true;
        }
        i = i + 1;
    }
    if !any {
        return ChildMount::BindStock;
    }
    if !stock_is_dir || other {
        return ChildMount::Leave;
    }
    let mut layers: Vec<String> = Vec::new();
    let mut k: usize = 0;
    while k < kinds.len()
        invariant
            k <= kinds@.len(),
            kinds@.len() == module_roots@.len(),
            texts(layers@) == child_layers(module_roots@, kinds@, relative@, k as int),
            (exists|j: int| 0 <= j < k && kinds@[j] == LowerKind::Directory) ==> layers@.len() > 0,
        decreases kinds@.len() - k,
    {
        if kinds[k] == LowerKind::Directory {
            let mut p = module_roots[k].clone();
            p.append(relative);
            let ghost before = texts(layers@);
            layers.push(p);
            assert(texts(layers@) =~= before.push(module_roots@[k as int]@ + relative@));
        }
        k = k + 1;
    }
    ChildMount::Overlay(layers)
}

} // verus!
