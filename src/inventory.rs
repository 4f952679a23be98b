use vstd::prelude::*;
use crate::text::{text_less, text_lt, lemma_text_lt_total};

verus! {

/// How the content of a module partition is composed over the host.
#[derive(Clone, Copy, Debug, PartialEq, Eq, Structural)]
pub enum MountMode {
    /// Stacked under an overlay filesystem together with other modules.
    Overlay,
    /// Composed by the tmpfs and bind-mount tree algorithm.
    Magic,
    /// Injected directly by the kernel-side driver.
    Hymo,
    /// Left out.
    Ignore,
}

/// A mode for one path of a module.
#[derive(Clone, Debug)]
pub struct PathRule {
    pub path: String,
    pub mode: MountMode,
}

/// The mount policy of one module: a mode per path and a mode for the rest.
#[derive(Clone, Debug)]
pub struct ModuleRules {
    pub default_mode: MountMode,
    /// Later entries take precedence over earlier entries for the same path.
    pub paths: Vec<PathRule>,
}

/// The path-to-mode map that a list of entries denotes, later entries winning.
pub open spec fn path_map(s: Seq<PathRule>) -> Map<Seq<char>, MountMode>
    decreases s.len(),
{
    if s.len() == 0 {
        Map::empty()
    } else {
        path_map(s.drop_last()).insert(s.last().path@, s.last().mode)
    }
}

/// The mode that rules with this default and path map assign to `p`.
pub open spec fn mode_for(default_mode: MountMode, m: Map<Seq<char>, MountMode>, p: Seq<char>) -> MountMode {
    if m.contains_key(p) {
        m[p]
    } else {
        default_mode
    }
}

/// Rules read from the module itself overlaid by the user's own rules.
pub open spec fn layered_default(internal: Option<ModuleRules>, user: Option<ModuleRules>) -> MountMode {
    match user {
        Some(u) => u.default_mode,
        None => match internal {
            Some(i) => i.default_mode,
            None => MountMode::Overlay,
        },
    }
}

pub open spec fn layered_paths(internal: Option<ModuleRules>, user: Option<ModuleRules>) -> Map<Seq<char>, MountMode> {
    let base = match internal {
        Some(i) => path_map(i.paths@),
        None => Map::empty(),
    };
    match user {
        Some(u) => base.union_prefer_right(path_map(u.paths@)),
        None => base,
    }
}

pub proof fn lemma_path_map_append(a: Seq<PathRule>, b: Seq<PathRule>)
    ensures
        path_map(a + b) == path_map(a).union_prefer_right(path_map(b)),
    decreases b.len(),
{
    if b.len() == 0 {
        assert(a + b =~= a);
        assert(path_map(a).union_prefer_right(path_map(b)) =~= path_map(a));
    } else {
        lemma_path_map_append(a, b.drop_last());
        assert((a + b).drop_last() =~= a + b.drop_last());
        assert(path_map(a + b) =~= path_map(a).union_prefer_right(path_map(b)));
    }
}

impl ModuleRules {
    /// The rules of a module that ships none: everything overlaid.
    pub fn new() -> (r: Self)
        ensures
            r.default_mode == MountMode::Overlay,
            r.paths@.len() == 0,
    {
        ModuleRules { default_mode: MountMode::Overlay, paths: Vec::new() }
    }

    pub open spec fn path_modes(&self) -> Map<Seq<char>, MountMode> {
        path_map(self.paths@)
    }

    /// The mode for `relative_path`: its own entry if it has one, else the default.
    pub fn get_mode(&self, relative_path: &str) -> (r: MountMode)
        ensures
            r == mode_for(self.default_mode, self.path_modes(), relative_path@),
    {
        let mut i: usize = self.paths.len();
        assert(self.paths@.subrange(0, i as int) =~= self.paths@);
        while i > 0
            invariant
                i <= self.paths@.len(),
                forall|j: int| i <= j < self.paths@.len() ==> #[trigger] self.paths@[j].path@ != relative_path@,
                mode_for(self.default_mode, self.path_modes(), relative_path@) == mode_for(
                    self.default_mode,
                    path_map(self.paths@.subrange(0, i as int)),
                    relative_path@,
                ),
            decreases i,
        {
            let ghost pre = self.paths@.subrange(0, i as int);
            assert(pre.drop_last() =~= self.paths@.subrange(0, i - 1));
            if str_equal(self.paths[i - 1].path.as_str(), relative_path) {
                return self.paths[i - 1].mode;
            }
            i = i - 1;
        }
        self.default_mode
    }

    /// Lays the user's rules over these: the user's default replaces this
    /// default and the user's path entries win over these on the same path.
    pub fn merge_user(&mut self, user: ModuleRules)
        ensures
            final(self).default_mode == user.default_mode,
            final(self).path_modes() == old(self).path_modes().union_prefer_right(user.path_modes()),
    {
        self.default_mode = user.default_mode;
        let mut more = user.paths;
        let ghost a = self.paths@;
        let ghost b = more@;
        self.paths.append(&mut more);
        proof {
            lemma_path_map_append(a, b);
        }
    }

    /// The effective rules of a module from its own rule file and the user's
    /// override file, each present when it could be read and parsed.
    pub fn layered(internal: Option<ModuleRules>, user: Option<ModuleRules>) -> (r: Self)
        ensures
            r.default_mode == layered_default(internal, user),
            r.path_modes() == layered_paths(internal, user),
    {
        let mut rules = match internal {
            Some(i) => i,
            None => ModuleRules::new(),
        };
        proof {
            if internal.is_none() {
                assert(rules.path_modes() =~= Map::empty());
            }
        }
        match user {
            Some(u) => rules.merge_user(u),
            None => {},
        }
        rules
    }
}

/// Character-by-character equality of two strings.
pub fn str_equal(a: &str, b: &str) -> (r: bool)
    ensures
        r == (a@ == b@),
{
    let la = a.unicode_len();
    let lb = b.unicode_len();
    if la != lb {
        return false;
    }
    let mut i: usize = 0;
    while i < la
        invariant
            i <= la,
            la == a@.len(),
            lb == b@.len(),
            la == lb,
            a@.subrange(0, i as int) == b@.subrange(0, i as int),
        decreases la - i,
    {
        if a.get_char(i) != b.get_char(i) {
            assert(a@[i as int] != b@[i as int]);
            return false;
        }
        assert(a@.subrange(0, i + 1) =~= a@.subrange(0, i as int).push(a@[i as int]));
        assert(b@.subrange(0, i + 1) =~= b@.subrange(0, i as int).push(b@[i as int]));
        i = i + 1;
    }
    assert(a@ =~= a@.subrange(0, la as int));
    assert(b@ =~= b@.subrange(0, lb as int));
    true
}

/// A module admitted by the inventory.
#[derive(Clone, Debug)]
pub struct Module {
    pub id: String,
    pub source_path: String,
    pub rules: ModuleRules,
}

/// What the inventory learns of one direct entry of the module root.
#[derive(Clone, Debug)]
pub struct ModuleEntry {
    pub name: String,
    pub path: String,
    pub is_dir: bool,
    pub has_disable: bool,
    pub has_remove: bool,
    pub has_skip_mount: bool,
    /// The module's own rule file, when present and readable.
    pub internal_rules: Option<ModuleRules>,
    /// The user's override rule file, when present and readable.
    pub user_rules: Option<ModuleRules>,
}

/// Names under the module root that are never modules.
pub open spec fn reserved_name(n: Seq<char>) -> bool {
    n == "meta-hybrid"@ || n == "lost+found"@ || n == ".git"@ || n == ".idea"@ || n == ".vscode"@
}

/// Whether an entry becomes a module: a directory, not reserved, with none
/// of the marker files that exclude a module.
pub open spec fn admitted(e: ModuleEntry) -> bool {
    e.is_dir && !reserved_name(e.name@) && !e.has_disable && !e.has_remove && !e.has_skip_mount
}

/// `m` is the module that entry `e` becomes.
pub open spec fn module_from(m: Module, e: ModuleEntry) -> bool {
    &&& m.id@ == e.name@
    &&& m.source_path@ == e.path@
    &&& m.rules.default_mode == layered_default(e.internal_rules, e.user_rules)
    &&& m.rules.path_modes() == layered_paths(e.internal_rules, e.user_rules)
}

/// Module ids in descending order, equal ids adjacent.
pub open spec fn ids_descending(s: Seq<Module>) -> bool {
    forall|i: int| 0 <= i < s.len() - 1 ==> !text_lt(#[trigger] s[i].id@, s[i + 1].id@)
}

/// `m` comes from an admitted entry of `all` at or after `lo`.
pub open spec fn from_admitted(m: Module, all: Seq<ModuleEntry>, lo: int) -> bool {
    exists|j: int| lo <= j < all.len() && admitted(all[j]) && module_from(m, #[trigger] all[j])
}

/// Some module of `r` comes from `e`.
pub open spec fn covers(r: Seq<Module>, e: ModuleEntry) -> bool {
    exists|i: int| 0 <= i < r.len() && module_from(#[trigger] r[i], e)
}

/// `r` is what the inventory makes of `entries`: a module for each admitted
/// entry and for nothing else, in descending order of id.
pub open spec fn scanned(entries: Seq<ModuleEntry>, r: Seq<Module>) -> bool {
    &&& ids_descending(r)
    &&& forall|i: int| 0 <= i < r.len() ==> #[trigger] from_admitted(r[i], entries, 0)
    &&& forall|j: int| 0 <= j < entries.len() && admitted(entries[j]) ==> #[trigger] covers(r, entries[j])
    &&& r.len() == admitted_count(entries)
}

/// How many entries are admitted: one module each.
pub open spec fn admitted_count(entries: Seq<ModuleEntry>) -> nat
    decreases entries.len(),
{
    if entries.len() == 0 {
        0
    } else {
        admitted_count(entries.drop_last()) + if admitted(entries.last()) { 1nat } else { 0nat }
    }
}

/// Whether one entry of the module root becomes a module.
pub fn is_admitted(e: &ModuleEntry) -> (r: bool)
    ensures
        r == admitted(*e),
{
    proof {
        reveal_strlit("meta-hybrid");
        reveal_strlit("lost+found");
        reveal_strlit(".git");
        reveal_strlit(".idea");
        reveal_strlit(".vscode");
    }
    let n = e.name.as_str();
    let reserved = str_equal(n, "meta-hybrid") || str_equal(n, "lost+found") || str_equal(n, ".git")
        || str_equal(n, ".idea") || str_equal(n, ".vscode");
    e.is_dir && !reserved && !e.has_disable && !e.has_remove && !e.has_skip_mount
}

/// Inserts `m` into a list in descending order of id, after the modules
/// whose ids are not below it; returns where it went.
fn insert_descending(r: &mut Vec<Module>, m: Module) -> (p: usize)
    requires
        ids_descending(old(r)@),
    ensures
        p <= old(r)@.len(),
        final(r)@ == old(r)@.insert(p as int, m),
        ids_descending(final(r)@),
{
    let mut p: usize = 0;
    while p < r.len() && !text_less(r[p].id.as_str(), m.id.as_str())
        invariant
            p <= r@.len(),
            forall|q: int| 0 <= q < p ==> !text_lt(#[trigger] r@[q].id@, m.id@),
        decreases r@.len() - p,
    {
        p = p + 1;
    }
    let ghost old_r = r@;
    proof {
        if p < old_r.len() {
            lemma_text_lt_total(old_r[p as int].id@, m.id@);
        }
    }
    r.insert(p, m);
    assert forall|i: int| 0 <= i < r@.len() - 1 implies !text_lt(#[trigger] r@[i].id@, r@[i + 1].id@) by {
        if i + 1 < p {
            assert(!text_lt(old_r[i].id@, old_r[i + 1].id@));
        } else if i >= p + 1 {
            let q = i - 1;
            assert(!text_lt(old_r[q].id@, old_r[q + 1].id@));
        }
    }
    p
}

/// Turns the entries of the module root into the list of active modules:
/// non-directories, reserved names and modules carrying a `disable`,
/// `remove` or `skip_mount` marker are left out, and the rest come in
/// descending order of id with their layered rules.
pub fn scan(entries: Vec<ModuleEntry>) -> (r: Vec<Module>)
    ensures
        scanned(entries@, r@),
{
    let ghost all = entries@;
    let mut rest = entries;
    let mut r: Vec<Module> = Vec::new();
    while rest.len() > 0
        invariant
            rest@.len() <= all.len(),
            rest@ == all.subrange(0, rest@.len() as int),
            ids_descending(r@),
            admitted_count(all) == admitted_count(rest@) + r@.len(),
            forall|i: int| 0 <= i < r@.len() ==> #[trigger] from_admitted(r@[i], all, rest@.len() as int),
            forall|j: int| rest@.len() <= j < all.len() && admitted(all[j]) ==> #[trigger] covers(r@, all[j]),
        decreases rest@.len(),
    {
        let k: usize = rest.len() - 1;
        let ghost before_pop = rest@;
        let e = rest.pop().unwrap();
        assert(before_pop.drop_last() =~= rest@);
        assert(before_pop.last() == e);
        assert(e == all[k as int]);
        assert(rest@ =~= all.subrange(0, k as int));
        if is_admitted(&e) {
            let m = Module {
                id: e.name,
                source_path: e.path,
                rules: ModuleRules::layered(e.internal_rules, e.user_rules),
            };
            assert(module_from(m, all[k as int]));
            let ghost old_r = r@;
            let p = insert_descending(&mut r, m);
            assert forall|i: int| 0 <= i < r@.len() implies #[trigger] from_admitted(r@[i], all, k as int) by {
                if i < p {
                    assert(r@[i] == old_r[i]);
                    assert(from_admitted(old_r[i], all, k + 1));
                } else if i > p {
                    assert(r@[i] == old_r[i - 1]);
                    assert(from_admitted(old_r[i - 1], all, k + 1));
                } else {
                    assert(module_from(r@[i], all[k as int]));
                }
            }
            assert forall|j: int| k <= j < all.len() && admitted(all[j]) implies #[trigger] covers(r@, all[j]) by {
                if j > k {
                    assert(covers(old_r, all[j]));
                    let i0 = choose|i0: int| 0 <= i0 < old_r.len() && module_from(#[trigger] old_r[i0], all[j]);
                    if i0 < p {
                        assert(r@[i0] == old_r[i0]);
                    } else {
                        assert(r@[i0 + 1] == old_r[i0]);
                    }
                } else {
                    assert(r@[p as int] == m);
                }
            }
        } else {
            assert forall|i: int| 0 <= i < r@.len() implies #[trigger] from_admitted(r@[i], all, k as int) by {
                assert(from_admitted(r@[i], all, k + 1));
            }
        }
    }
    r
}

} // verus!
