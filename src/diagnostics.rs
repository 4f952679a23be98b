use vstd::prelude::*;
use crate::planner::MountPlan;

verus! {

#[derive(Clone, Copy, Debug, PartialEq, Eq, Structural)]
pub enum DiagnosticLevel {
    Info,
    Warning,
    Critical,
}

/// One finding about a plan before it is carried out.
#[derive(Clone, Debug)]
pub struct DiagnosticIssue {
    pub level: DiagnosticLevel,
    /// The partition or module the finding is about.
    pub context: String,
    pub message: String,
}

/// An absolute symbolic link inside a layer whose target is missing.
#[derive(Clone, Debug)]
pub struct DeadLink {
    pub module_id: String,
    pub link: String,
    pub target: String,
}

pub open spec fn missing_target_message(target: Seq<char>) -> Seq<char> {
    "Target mount point does not exist: "@ + target
}

pub open spec fn dead_link_message(link: Seq<char>, target: Seq<char>) -> Seq<char> {
    "Dead absolute symlink: "@ + link + " -> "@ + target
}

/// The partition and message of each overlay whose target is missing, in
/// overlay order.
pub open spec fn missing_targets(ops: Seq<crate::planner::OverlayOperation>, exists: Seq<bool>) -> Seq<(Seq<char>, Seq<char>)>
    decreases ops.len(),
{
    if ops.len() == 0 {
        Seq::empty()
    } else {
        let prev = missing_targets(ops.drop_last(), exists);
        if !exists[ops.len() - 1] {
            prev.push((ops.last().partition_name@, missing_target_message(ops.last().target@)))
        } else {
            prev
        }
    }
}

/// The findings about `plan`: a critical one for each overlay whose target
/// is missing (`target_exists[k]` for overlay `k`), in overlay order, then a
/// warning for each dead link.
pub fn diagnose_plan(plan: &MountPlan, target_exists: &Vec<bool>, dead_links: &Vec<DeadLink>) -> (r: Vec<DiagnosticIssue>)
    requires
        target_exists@.len() == plan.overlay_ops@.len(),
    ensures
        r@.len() == missing_targets(plan.overlay_ops@, target_exists@).len() + dead_links@.len(),
        forall|i: int| 0 <= i < r@.len() - dead_links@.len() ==> {
            let issue = #[trigger] r@[i];
            &&& issue.level == DiagnosticLevel::Critical
            &&& (issue.context@, issue.message@) == missing_targets(plan.overlay_ops@, target_exists@)[i]
        },
        forall|i: int| 0 <= i < dead_links@.len() ==> {
            let issue = #[trigger] r@[r@.len() - dead_links@.len() + i];
            &&& issue.level == DiagnosticLevel::Warning
            &&& issue.context@ == dead_links@[i].module_id@
            &&& issue.message@ == dead_link_message(dead_links@[i].link@, dead_links@[i].target@)
        },
{
    let mut r: Vec<DiagnosticIssue> = Vec::new();
    let mut k: usize = 0;
    while k < plan.overlay_ops.len()
        invariant
            k <= plan.overlay_ops@.len(),
            target_exists@.len() == plan.overlay_ops@.len(),
            r@.len() == missing_targets(plan.overlay_ops@.subrange(0, k as int), target_exists@).len(),
            forall|i: int| 0 <= i < r@.len() ==> {
                let issue = #[trigger] r@[i];
                &&& issue.level == DiagnosticLevel::Critical
                &&& (issue.context@, issue.message@) == missing_targets(plan.overlay_ops@.subrange(0, k as int), target_exists@)[i]
            },
        decreases plan.overlay_ops@.len() - k,
    {
        let ghost before = missing_targets(plan.overlay_ops@.subrange(0, k as int), target_exists@);
        assert(plan.overlay_ops@.subrange(0, k + 1).drop_last() =~= plan.overlay_ops@.subrange(0, k as int));
        if !target_exists[k] {
            let op = &plan.overlay_ops[k];
            let mut message = "Target mount point does not exist: ".to_owned();
            message.append(op.target.as_str());
            r.push(DiagnosticIssue { level: DiagnosticLevel::Critical, context: op.partition_name.clone(), message });
        }
        k = k + 1;
    }
    assert(plan.overlay_ops@.subrange(0, k as int) =~= plan.overlay_ops@);
    let n0 = r.len();
    let mut j: usize = 0;
    while j < dead_links.len()
        invariant
            j <= dead_links@.len(),
            r@.len() == n0 + j,
            n0 == missing_targets(plan.overlay_ops@, target_exists@).len(),
            forall|i: int| 0 <= i < n0 ==> {
                let issue = #[trigger] r@[i];
                &&& issue.level == DiagnosticLevel::Critical
                &&& (issue.context@, issue.message@) == missing_targets(plan.overlay_ops@, target_exists@)[i]
            },
            forall|i: int| 0 <= i < j ==> {
                let issue = #[trigger] r@[n0 + i];
                &&& issue.level == DiagnosticLevel::Warning
                &&& issue.context@ == dead_links@[i].module_id@
                &&& issue.message@ == dead_link_message(dead_links@[i].link@, dead_links@[i].target@)
            },
        decreases dead_links@.len() - j,
    {
        let d = &dead_links[j];
        let mut message = "Dead absolute symlink: ".to_owned();
        message.append(d.link.as_str());
        message.append(" -> ");
        message.append(d.target.as_str());
        r.push(DiagnosticIssue { level: DiagnosticLevel::Warning, context: d.module_id.clone(), message });
        assert(r@[n0 + j as int].message@ == dead_link_message(d.link@, d.target@));
        j = j + 1;
    }
    assert forall|i: int| 0 <= i < dead_links@.len() implies {
        let issue = #[trigger] r@[r@.len() - dead_links@.len() + i];
        &&& issue.level == DiagnosticLevel::Warning
        &&& issue.context@ == dead_links@[i].module_id@
        &&& issue.message@ == dead_link_message(dead_links@[i].link@, dead_links@[i].target@)
    } by {
        assert(r@.len() - dead_links@.len() + i == n0 + i);
    }
    r
}

} // verus!
