use vstd::prelude::*;
use crate::planner::{MountPlan, OverlayOperation};
use crate::text::{contains_text, lemma_push_contains, lemma_text_lt_total, text_less, text_lt, texts};

verus! {

/// A file that more than one module places at the same path of a partition.
#[derive(Clone, Debug)]
pub struct ConflictEntry {
    pub partition: String,
    pub relative_path: String,
    /// The modules that ship the file, in layer order.
    pub contending_modules: Vec<String>,
}

#[derive(Clone, Debug)]
pub struct ConflictReport {
    pub details: Vec<ConflictEntry>,
}

/// The ids of the layers of `op` whose file listing holds `path`, in layer order.
pub open spec fn contenders(layers: Seq<crate::planner::Layer>, files: Seq<Vec<String>>, path: Seq<char>) -> Seq<Seq<char>>
    decreases layers.len(),
{
    if layers.len() == 0 || files.len() == 0 {
        Seq::empty()
    } else {
        let prev = contenders(layers.drop_last(), files.drop_last(), path);
        if texts(files.last()@).contains(path) {
            prev.push(layers.last().module_id@)
        } else {
            prev
        }
    }
}

/// `e` is for the partition of an overlay before the `k`-th.
pub open spec fn from_earlier_op(ops: Seq<OverlayOperation>, k: int, e: ConflictEntry) -> bool {
    exists|k0: int| 0 <= k0 < k && e.partition@ == (#[trigger] ops[k0]).partition_name@
}

/// `e` is for the partition of `op` and one of its first `j` listed paths.
pub open spec fn from_this_op(op: OverlayOperation, paths: Seq<Seq<char>>, j: int, e: ConflictEntry) -> bool {
    e.partition@ == op.partition_name@ && exists|j0: int| 0 <= j0 < j && e.relative_path@ == #[trigger] paths[j0]
}

/// Some layer of the overlay lists `path`.
pub open spec fn listed(files: Seq<Vec<String>>, path: Seq<char>) -> bool {
    exists|l: int| 0 <= l < files.len() && #[trigger] texts(files[l]@).contains(path)
}

/// `e` reports the conflict at `path` in overlay `op`, whose layers list `files`.
pub open spec fn entry_for(e: ConflictEntry, op: OverlayOperation, files: Seq<Vec<String>>, path: Seq<char>) -> bool {
    &&& e.partition@ == op.partition_name@
    &&& e.relative_path@ == path
    &&& texts(e.contending_modules@) == contenders(op.lowerdirs@, files, path)
    &&& contenders(op.lowerdirs@, files, path).len() > 1
}

/// Order of entries by partition, then by relative path.
pub open spec fn entry_lt(a: ConflictEntry, b: ConflictEntry) -> bool {
    text_lt(a.partition@, b.partition@) || (a.partition@ == b.partition@ && text_lt(
        a.relative_path@,
        b.relative_path@,
    ))
}

/// Strictly ascending by partition, then path: sorted, and no two entries
/// for the same partition and path.
pub open spec fn entries_sorted(s: Seq<ConflictEntry>) -> bool {
    forall|i: int| 0 <= i < s.len() - 1 ==> entry_lt(#[trigger] s[i], s[i + 1])
}

/// Two entries for the same partition and path.
pub open spec fn same_key(a: ConflictEntry, b: ConflictEntry) -> bool {
    a.partition@ == b.partition@ && a.relative_path@ == b.relative_path@
}

/// A report sorted entry by entry is sorted between any two entries: the
/// order by partition, then path, holds for every pair, so no two entries
/// share a partition and a path.
pub proof fn lemma_report_sorted_pairwise(d: Seq<ConflictEntry>)
    requires
        entries_sorted(d),
    ensures
        forall|i: int, j: int| 0 <= i < j < d.len() ==> #[trigger] entry_lt(d[i], d[j]),
        forall|i: int, j: int| 0 <= i < j < d.len() ==> !same_key(#[trigger] d[i], #[trigger] d[j]),
{
    assert forall|i: int, j: int| 0 <= i < j < d.len() implies #[trigger] entry_lt(d[i], d[j]) by {
        lemma_entry_lt_chain(d, i, j);
    }
    assert forall|i: int, j: int| 0 <= i < j < d.len() implies !same_key(#[trigger] d[i], #[trigger] d[j]) by {
        lemma_entry_lt_chain(d, i, j);
        lemma_text_lt_total(d[i].partition@, d[j].partition@);
        lemma_text_lt_total(d[i].relative_path@, d[j].relative_path@);
        crate::text::lemma_text_lt_total(d[i].partition@, d[i].partition@);
        crate::text::lemma_text_lt_total(d[i].relative_path@, d[i].relative_path@);
    }
}

proof fn lemma_entry_lt_chain(d: Seq<ConflictEntry>, i: int, j: int)
    requires
        entries_sorted(d),
        0 <= i < j < d.len(),
    ensures
        entry_lt(d[i], d[j]),
    decreases j - i,
{
    if j > i + 1 {
        lemma_entry_lt_chain(d, i, j - 1);
        assert(entry_lt(d[j - 1], d[j]));
        let (a, b, c) = (d[i], d[j - 1], d[j]);
        if text_lt(a.partition@, b.partition@) && text_lt(b.partition@, c.partition@) {
            crate::text::lemma_text_lt_transitive(a.partition@, b.partition@, c.partition@);
        } else if a.partition@ == b.partition@ && b.partition@ == c.partition@ {
            crate::text::lemma_text_lt_transitive(a.relative_path@, b.relative_path@, c.relative_path@);
        }
    }
}

proof fn lemma_entry_lt_total(a: ConflictEntry, b: ConflictEntry)
    requires
        !same_key(a, b),
    ensures
        entry_lt(a, b) || entry_lt(b, a),
{
    lemma_text_lt_total(a.partition@, b.partition@);
    lemma_text_lt_total(a.relative_path@, b.relative_path@);
}

/// `e` reports some conflict of overlay `op`.
pub open spec fn reports_conflict_of(e: ConflictEntry, op: OverlayOperation, files: Seq<Vec<String>>) -> bool {
    exists|path: Seq<char>| #[trigger] entry_for(e, op, files, path)
}

/// `e` reports some conflict of some overlay of `ops`.
pub open spec fn reports_conflict(ops: Seq<OverlayOperation>, listing: Seq<Vec<Vec<String>>>, e: ConflictEntry) -> bool {
    exists|k: int| 0 <= k < ops.len() && #[trigger] reports_conflict_of(e, ops[k], listing[k]@)
}

/// Some entry of `d` reports the conflict at `path` of overlay `op`.
pub open spec fn has_entry(d: Seq<ConflictEntry>, op: OverlayOperation, files: Seq<Vec<String>>, path: Seq<char>) -> bool {
    exists|i: int| 0 <= i < d.len() && #[trigger] entry_for(d[i], op, files, path)
}

/// `d` reports exactly the conflicts of `ops`, sorted: every entry is one,
/// and each path listed by more than one layer of an overlay has an entry.
pub open spec fn report_exact(ops: Seq<OverlayOperation>, listing: Seq<Vec<Vec<String>>>, d: Seq<ConflictEntry>) -> bool {
    &&& entries_sorted(d)
    &&& forall|i: int| 0 <= i < d.len() ==> #[trigger] reports_conflict(ops, listing, d[i])
    &&& forall|k: int, path: Seq<char>| 0 <= k < ops.len() && contenders(ops[k].lowerdirs@, listing[k]@, path).len() > 1
        ==> #[trigger] has_entry(d, ops[k], listing[k]@, path)
}

pub proof fn lemma_contender_listed(layers: Seq<crate::planner::Layer>, files: Seq<Vec<String>>, path: Seq<char>)
    ensures
        contenders(layers, files, path).len() > 0 ==> listed(files, path),
    decreases layers.len(),
{
    if layers.len() > 0 && files.len() > 0 {
        lemma_contender_listed(layers.drop_last(), files.drop_last(), path);
        if listed(files.drop_last(), path) {
            let l = choose|l: int| 0 <= l < files.drop_last().len() && #[trigger] texts(files.drop_last()[l]@).contains(path);
            assert(texts(files[l]@).contains(path));
        }
        if texts(files.last()@).contains(path) {
            assert(texts(files[files.len() - 1]@).contains(path));
        }
    }
}

fn entry_less(a: &ConflictEntry, b: &ConflictEntry) -> (r: bool)
    ensures
        r == entry_lt(*a, *b),
{
    text_less(a.partition.as_str(), b.partition.as_str()) || (crate::inventory::str_equal(
        a.partition.as_str(),
        b.partition.as_str(),
    ) && text_less(a.relative_path.as_str(), b.relative_path.as_str()))
}

fn insert_entry(d: &mut Vec<ConflictEntry>, e: ConflictEntry) -> (p: usize)
    requires
        entries_sorted(old(d)@),
        forall|i: int| 0 <= i < old(d)@.len() ==> !same_key(#[trigger] old(d)@[i], e),
    ensures
        p <= old(d)@.len(),
        final(d)@ == old(d)@.insert(p as int, e),
        entries_sorted(final(d)@),
{
    let mut p: usize = 0;
    while p < d.len() && !entry_less(&e, &d[p])
        invariant
            p <= d@.len(),
            forall|q: int| 0 <= q < p ==> !entry_lt(e, #[trigger] d@[q]),
        decreases d@.len() - p,
    {
        p = p + 1;
    }
    let ghost old_d = d@;
    proof {
        if p > 0 {
            lemma_entry_lt_total(old_d[p - 1], e);
        }
    }
    d.insert(p, e);
    assert forall|i: int| 0 <= i < d@.len() - 1 implies entry_lt(#[trigger] d@[i], d@[i + 1]) by {
        if i + 1 < p {
            assert(entry_lt(old_d[i], old_d[i + 1]));
        } else if i + 1 == p {
            assert(d@[i] == old_d[i]);
        } else if i >= p + 1 {
            let q = i - 1;
            assert(entry_lt(old_d[q], old_d[q + 1]));
        }
    }
    p
}

fn contenders_of(layers: &Vec<crate::planner::Layer>, files: &Vec<Vec<String>>, path: &str) -> (r: Vec<String>)
    requires
        layers@.len() == files@.len(),
    ensures
        texts(r@) == contenders(layers@, files@, path@),
{
    let mut r: Vec<String> = Vec::new();
    let mut l: usize = 0;
    while l < layers.len()
        invariant
            l <= layers@.len(),
            layers@.len() == files@.len(),
            texts(r@) == contenders(layers@.subrange(0, l as int), files@.subrange(0, l as int), path@),
        decreases layers@.len() - l,
    {
        assert(layers@.subrange(0, l + 1).drop_last() =~= layers@.subrange(0, l as int));
        assert(files@.subrange(0, l + 1).drop_last() =~= files@.subrange(0, l as int));
        if contains_text(&files[l], path) {
            let ghost before = texts(r@);
            r.push(layers[l].module_id.clone());
            assert(texts(r@) =~= before.push(layers@[l as int].module_id@));
        }
        l = l + 1;
    }
    assert(layers@.subrange(0, l as int) =~= layers@);
    assert(files@.subrange(0, l as int) =~= files@);
    r
}

/// Every path that some layer lists, once each.
fn listed_paths(files: &Vec<Vec<String>>) -> (r: Vec<String>)
    ensures
        texts(r@).no_duplicates(),
        forall|p: Seq<char>| #[trigger] texts(r@).contains(p) <==> listed(files@, p),
{
    let mut r: Vec<String> = Vec::new();
    let mut l: usize = 0;
    while l < files.len()
        invariant
            l <= files@.len(),
            texts(r@).no_duplicates(),
            forall|p: Seq<char>| #[trigger] texts(r@).contains(p) <==> listed(files@.subrange(0, l as int), p),
        decreases files@.len() - l,
    {
        let fs = &files[l];
        let mut j: usize = 0;
        while j < fs.len()
            invariant
                l < files@.len(),
                *fs == files@[l as int],
                j <= fs@.len(),
                texts(r@).no_duplicates(),
                forall|p: Seq<char>| #[trigger] texts(r@).contains(p) <==> (listed(files@.subrange(0, l as int), p)
                    || texts(fs@.subrange(0, j as int)).contains(p)),
            decreases fs@.len() - j,
        {
            assert(texts(fs@.subrange(0, j + 1)) =~= texts(fs@.subrange(0, j as int)).push(fs@[j as int]@));
            proof {
                lemma_push_contains(texts(fs@.subrange(0, j as int)), fs@[j as int]@);
            }
            if !contains_text(&r, fs[j].as_str()) {
                let ghost before = texts(r@);
                r.push(fs[j].clone());
                assert(texts(r@) =~= before.push(fs@[j as int]@));
                proof {
                    lemma_push_contains(before, fs@[j as int]@);
                }
            }
            j = j + 1;
        }
        assert(fs@.subrange(0, j as int) =~= fs@);
        assert forall|p: Seq<char>| #[trigger] texts(r@).contains(p) <==> listed(files@.subrange(0, l + 1), p) by {
            let sub = files@.subrange(0, l + 1);
            if listed(files@.subrange(0, l as int), p) {
                let l0 = choose|l0: int| 0 <= l0 < l && #[trigger] texts(files@.subrange(0, l as int)[l0]@).contains(p);
                assert(texts(sub[l0]@).contains(p));
            }
            if texts(fs@).contains(p) {
                assert(texts(sub[l as int]@).contains(p));
            }
            if listed(sub, p) {
                let l0 = choose|l0: int| 0 <= l0 < l + 1 && #[trigger] texts(sub[l0]@).contains(p);
                if l0 < l {
                    assert(texts(files@.subrange(0, l as int)[l0]@).contains(p));
                }
            }
        }
        l = l + 1;
    }
    assert(files@.subrange(0, l as int) =~= files@);
    r
}

impl MountPlan {
    /// Reports each file path that more than one layer of an overlay ships,
    /// sorted by partition and then by path. `listing[k][l]` holds the
    /// relative paths of the regular files under layer `l` of overlay `k`.
    pub fn analyze_conflicts(&self, listing: &Vec<Vec<Vec<String>>>) -> (r: ConflictReport)
        requires
            listing@.len() == self.overlay_ops@.len(),
            forall|k: int| 0 <= k < listing@.len() ==> #[trigger] listing@[k]@.len() == self.overlay_ops@[k].lowerdirs@.len(),
            forall|k1: int, k2: int| 0 <= k1 < k2 < self.overlay_ops@.len() ==> #[trigger] self.overlay_ops@[k1].partition_name@
                != #[trigger] self.overlay_ops@[k2].partition_name@,
        ensures
            report_exact(self.overlay_ops@, listing@, r.details@),
    {
        let ghost ops = self.overlay_ops@;
        let mut d: Vec<ConflictEntry> = Vec::new();
        let mut k: usize = 0;
        while k < self.overlay_ops.len()
            invariant
                k <= ops.len(),
                ops == self.overlay_ops@,
                listing@.len() == ops.len(),
                forall|k0: int| 0 <= k0 < listing@.len() ==> #[trigger] listing@[k0]@.len() == ops[k0].lowerdirs@.len(),
                entries_sorted(d@),
                forall|k1: int, k2: int| 0 <= k1 < k2 < ops.len() ==> #[trigger] ops[k1].partition_name@ != #[trigger] ops[k2].partition_name@,
                forall|i: int| 0 <= i < d@.len() ==> #[trigger] from_earlier_op(ops, k as int, d@[i]),
                forall|i: int| 0 <= i < d@.len() ==> #[trigger] reports_conflict(ops, listing@, d@[i]),
                forall|k0: int, path: Seq<char>| 0 <= k0 < k && contenders(ops[k0].lowerdirs@, listing@[k0]@, path).len() > 1
                    ==> #[trigger] has_entry(d@, ops[k0], listing@[k0]@, path),
            decreases ops.len() - k,
        {
            let op = &self.overlay_ops[k];
            let files = &listing[k];
            assert(files@.len() == op.lowerdirs@.len());
            let paths = listed_paths(files);
            let mut j: usize = 0;
            while j < paths.len()
                invariant
                    k < ops.len(),
                    ops == self.overlay_ops@,
                    *op == ops[k as int],
                    *files == listing@[k as int],
                    files@.len() == op.lowerdirs@.len(),
                    listing@.len() == ops.len(),
                    j <= paths@.len(),
                    texts(paths@).no_duplicates(),
                    forall|k1: int, k2: int| 0 <= k1 < k2 < ops.len() ==> #[trigger] ops[k1].partition_name@ != #[trigger] ops[k2].partition_name@,
                    forall|i: int| 0 <= i < d@.len() ==> #[trigger] from_earlier_op(ops, k as int, d@[i]) || from_this_op(
                        *op,
                        texts(paths@),
                        j as int,
                        d@[i],
                    ),
                    forall|p: Seq<char>| #[trigger] texts(paths@).contains(p) <==> listed(files@, p),
                    entries_sorted(d@),
                    forall|i: int| 0 <= i < d@.len() ==> #[trigger] reports_conflict(ops, listing@, d@[i]),
                    forall|k0: int, path: Seq<char>| 0 <= k0 < k && contenders(ops[k0].lowerdirs@, listing@[k0]@, path).len() > 1
                        ==> #[trigger] has_entry(d@, ops[k0], listing@[k0]@, path),
                    forall|j0: int| 0 <= j0 < j && contenders(op.lowerdirs@, files@, #[trigger] texts(paths@)[j0]).len() > 1
                        ==> has_entry(d@, *op, files@, texts(paths@)[j0]),
                decreases paths@.len() - j,
            {
                let who = contenders_of(&op.lowerdirs, files, paths[j].as_str());
                if who.len() > 1 {
                    let e = ConflictEntry {
                        partition: op.partition_name.clone(),
                        relative_path: paths[j].clone(),
                        contending_modules: who,
                    };
                    assert(entry_for(e, *op, files@, texts(paths@)[j as int]));
                    assert(reports_conflict_of(e, ops[k as int], listing@[k as int]@));
                    let ghost old_d = d@;
                    assert forall|i: int| 0 <= i < old_d.len() implies !same_key(#[trigger] old_d[i], e) by {
                        if from_earlier_op(ops, k as int, old_d[i]) {
                            let k0 = choose|k0: int| 0 <= k0 < k && old_d[i].partition@ == (#[trigger] ops[k0]).partition_name@;
                            assert(ops[k0].partition_name@ != ops[k as int].partition_name@);
                        } else {
                            let j0 = choose|j0: int| 0 <= j0 < j && old_d[i].relative_path@ == #[trigger] texts(paths@)[j0];
                            assert(texts(paths@)[j0] != texts(paths@)[j as int]);
                        }
                    }
                    let p = insert_entry(&mut d, e);
                    assert forall|i: int| 0 <= i < d@.len() implies #[trigger] from_earlier_op(ops, k as int, d@[i]) || from_this_op(
                        *op,
                        texts(paths@),
                        j + 1,
                        d@[i],
                    ) by {
                        if i < p {
                            assert(d@[i] == old_d[i]);
                        } else if i > p {
                            assert(d@[i] == old_d[i - 1]);
                        } else {
                            assert(d@[i] == e);
                            assert(e.relative_path@ == texts(paths@)[j as int]);
                        }
                    }
                    assert forall|i: int| 0 <= i < d@.len() implies #[trigger] reports_conflict(ops, listing@, d@[i]) by {
                        if i < p {
                            assert(d@[i] == old_d[i]);
                        } else if i > p {
                            assert(d@[i] == old_d[i - 1]);
                        } else {
                            assert(d@[i] == e);
                        }
                    }
                    assert forall|k0: int, path: Seq<char>| 0 <= k0 < k && contenders(ops[k0].lowerdirs@, listing@[k0]@, path).len() > 1
                        implies #[trigger] has_entry(d@, ops[k0], listing@[k0]@, path) by {
                        assert(has_entry(old_d, ops[k0], listing@[k0]@, path));
                        let i = choose|i: int| 0 <= i < old_d.len() && #[trigger] entry_for(old_d[i], ops[k0], listing@[k0]@, path);
                        if i < p {
                            assert(d@[i] == old_d[i]);
                        } else {
                            assert(d@[i + 1] == old_d[i]);
                        }
                    }
                    assert forall|j0: int| 0 <= j0 < j + 1 && contenders(op.lowerdirs@, files@, #[trigger] texts(paths@)[j0]).len() > 1
                        implies has_entry(d@, *op, files@, texts(paths@)[j0]) by {
                        if j0 < j {
                            assert(has_entry(old_d, *op, files@, texts(paths@)[j0]));
                            let i = choose|i: int| 0 <= i < old_d.len() && #[trigger] entry_for(old_d[i], *op, files@, texts(paths@)[j0]);
                            if i < p {
                                assert(d@[i] == old_d[i]);
                            } else {
                                assert(d@[i + 1] == old_d[i]);
                            }
                        } else {
                            assert(d@[p as int] == e);
                        }
                    }
                }
                assert forall|i: int| 0 <= i < d@.len() implies #[trigger] from_earlier_op(ops, k as int, d@[i]) || from_this_op(
                    *op,
                    texts(paths@),
                    j + 1,
                    d@[i],
                ) by {
                    if !from_earlier_op(ops, k as int, d@[i]) && from_this_op(*op, texts(paths@), j as int, d@[i]) {
                        let j0 = choose|j0: int| 0 <= j0 < j && d@[i].relative_path@ == #[trigger] texts(paths@)[j0];
                        assert(0 <= j0 < j + 1);
                    }
                }
                j = j + 1;
            }
            assert forall|i: int| 0 <= i < d@.len() implies #[trigger] from_earlier_op(ops, k + 1, d@[i]) by {
                if from_earlier_op(ops, k as int, d@[i]) {
                    let k0 = choose|k0: int| 0 <= k0 < k && d@[i].partition@ == (#[trigger] ops[k0]).partition_name@;
                    assert(0 <= k0 < k + 1);
                } else {
                    assert(d@[i].partition@ == ops[k as int].partition_name@);
                }
            }
            assert forall|k0: int, path: Seq<char>| 0 <= k0 < k + 1 && contenders(ops[k0].lowerdirs@, listing@[k0]@, path).len() > 1
                implies #[trigger] has_entry(d@, ops[k0], listing@[k0]@, path) by {
                if k0 == k {
                    lemma_contender_listed(op.lowerdirs@, files@, path);
                    assert(texts(paths@).contains(path));
                    let j0 = choose|j0: int| 0 <= j0 < texts(paths@).len() && texts(paths@)[j0] == path;
                    assert(contenders(op.lowerdirs@, files@, texts(paths@)[j0]).len() > 1);
                }
            }
            k = k + 1;
        }
        ConflictReport { details: d }
    }
}

} // verus!
