use vstd::prelude::*;
use crate::text::texts;

verus! {

/// `t` occurs in `s` starting at `i`.
pub open spec fn occurs_at(s: Seq<char>, t: Seq<char>, i: int) -> bool {
    0 <= i && i + t.len() <= s.len() && s.subrange(i, i + t.len()) == t
}

/// `t` occurs somewhere in `s`.
pub open spec fn contains_seq(s: Seq<char>, t: Seq<char>) -> bool {
    exists|i: int| #[trigger] occurs_at(s, t, i)
}

/// Whether `t` occurs in `s`.
pub fn contains_str(s: &str, t: &str) -> (r: bool)
    ensures
        r == contains_seq(s@, t@),
{
    let ls = s.unicode_len();
    let lt = t.unicode_len();
    if lt > ls {
        assert forall|i: int| !#[trigger] occurs_at(s@, t@, i) by {}
        return false;
    }
    if lt == 0 {
        assert(s@.subrange(0, 0) =~= t@);
        assert(occurs_at(s@, t@, 0));
        return true;
    }
    let mut i: usize = 0;
    while i <= ls - lt
        invariant
            ls == s@.len(),
            lt == t@.len(),
            lt <= ls,
            lt >= 1,
            i <= ls - lt + 1,
            forall|k: int| 0 <= k < i ==> !#[trigger] occurs_at(s@, t@, k),
        decreases ls - lt + 1 - i,
    {
        let mut j: usize = 0;
        let mut same = true;
        while j < lt && same
            invariant
                j <= lt,
                i + lt <= ls,
                ls == s@.len(),
                lt == t@.len(),
                lt >= 1,
                same ==> s@.subrange(i as int, i + j) == t@.subrange(0, j as int),
                !same ==> !occurs_at(s@, t@, i as int),
            decreases lt - j,
        {
            if s.get_char(i + j) != t.get_char(j) {
                same = false;
                assert(s@.subrange(i as int, i + lt)[j as int] != t@[j as int]);
                j = lt;
            } else {
                assert(s@.subrange(i as int, i + j + 1) =~= s@.subrange(i as int, i + j).push(s@[i + j]));
                assert(t@.subrange(0, j + 1) =~= t@.subrange(0, j as int).push(t@[j as int]));
                j = j + 1;
            }
        }
        if same {
            assert(t@.subrange(0, lt as int) =~= t@);
            assert(occurs_at(s@, t@, i as int));
            return true;
        }
        i = i + 1;
    }
    assert forall|k: int| !#[trigger] occurs_at(s@, t@, k) by {
        if 0 <= k && k + t@.len() <= s@.len() {
            assert(k < i);
        }
    }
    false
}

/// The index of the first name that holds `a` and, when `b` is given, `b` too.
pub open spec fn first_match(names: Seq<Seq<char>>, a: Seq<char>, b: Option<Seq<char>>, i: int) -> bool {
    &&& 0 <= i < names.len()
    &&& contains_seq(names[i], a)
    &&& (b matches Some(x) ==> contains_seq(names[i], x))
    &&& forall|j: int| 0 <= j < i ==> !(contains_seq(#[trigger] names[j], a) && (b matches Some(x) ==> contains_seq(names[j], x)))
}

fn find_first(names: &Vec<String>, a: &str, b: Option<&str>) -> (r: Option<usize>)
    ensures
        r matches Some(i) ==> first_match(texts(names@), a@, match b { Some(x) => Some(x@), None => None }, i as int),
        r.is_none() ==> forall|j: int| 0 <= j < names@.len() ==> !(contains_seq(#[trigger] texts(names@)[j], a@) && (b matches Some(x)
            ==> contains_seq(texts(names@)[j], x@))),
{
    let ghost bv = match b { Some(x) => Some(x@), None => None };
    let mut i: usize = 0;
    while i < names.len()
        invariant
            i <= names@.len(),
            bv == match b { Some(x) => Some(x@), None => None::<Seq<char>> },
            forall|j: int| 0 <= j < i ==> !(contains_seq(#[trigger] texts(names@)[j], a@) && (bv matches Some(x) ==> contains_seq(
                texts(names@)[j],
                x,
            ))),
        decreases names@.len() - i,
    {
        let n = names[i].as_str();
        let ok = contains_str(n, a) && match b {
            Some(x) => contains_str(n, x),
            None => true,
        };
        if ok {
            return Some(i);
        }
        i = i + 1;
    }
    None
}

/// The index of the first `.` of `s` at or after `k`, or the length of `s`.
pub open spec fn dot_from(s: Seq<char>, k: int) -> int
    decreases s.len() - k,
{
    if k >= s.len() {
        s.len() as int
    } else if s[k] == '.' {
        k
    } else {
        dot_from(s, k + 1)
    }
}

/// The leading `major.minor` of a kernel release: up to the second `.`;
/// nothing when there is no `.` at all.
pub open spec fn kernel_short_of(release: Seq<char>) -> Option<Seq<char>> {
    let d1 = dot_from(release, 0);
    if d1 >= release.len() {
        None
    } else {
        Some(release.subrange(0, dot_from(release, d1 + 1)))
    }
}

proof fn lemma_dot_from_bounds(s: Seq<char>, k: int)
    requires
        0 <= k,
    ensures
        k <= dot_from(s, k) <= s.len() || (k > s.len() && dot_from(s, k) == s.len()),
    decreases s.len() - k,
{
    if k < s.len() && s[k] != '.' {
        lemma_dot_from_bounds(s, k + 1);
    }
}

fn find_dot(s: &str, k: usize) -> (r: usize)
    requires
        k <= s@.len(),
    ensures
        r as int == dot_from(s@, k as int),
{
    let n = s.unicode_len();
    let mut i = k;
    while i < n && s.get_char(i) != '.'
        invariant
            k <= i <= n,
            n == s@.len(),
            dot_from(s@, k as int) == dot_from(s@, i as int),
        decreases n - i,
    {
        i = i + 1;
    }
    i
}

pub fn kernel_short(release: &str) -> (r: Option<String>)
    ensures
        r.is_some() == kernel_short_of(release@).is_some(),
        r matches Some(v) ==> v@ == kernel_short_of(release@).unwrap(),
{
    let n = release.unicode_len();
    let d1 = find_dot(release, 0);
    proof {
        lemma_dot_from_bounds(release@, 0);
    }
    if d1 >= n {
        return None;
    }
    let d2 = find_dot(release, d1 + 1);
    proof {
        lemma_dot_from_bounds(release@, d1 + 1);
    }
    Some(release.substring_char(0, d2).to_owned())
}

/// Picks the stealth kernel module to load for kernel `kernel_short`
/// (`major.minor`) on Android `android_version`: the first whose file name
/// holds both the kernel version and `android<version>`, else the first
/// that holds the kernel version.
pub fn pick_kernel_module(names: &Vec<String>, kernel_short: &str, android_version: &str) -> (r: Option<usize>)
    ensures
        r matches Some(i) ==> i < names@.len() && contains_seq(names@[i as int]@, kernel_short@),
        r.is_none() ==> forall|j: int| 0 <= j < names@.len() ==> !contains_seq(#[trigger] names@[j]@, kernel_short@),
        android_version@.len() > 0 && (exists|j: int| 0 <= j < names@.len() && contains_seq(#[trigger] names@[j]@, kernel_short@)
            && contains_seq(names@[j]@, "android"@ + android_version@)) ==> (r matches Some(i) && first_match(
            texts(names@),
            kernel_short@,
            Some("android"@ + android_version@),
            i as int,
        )),
        (android_version@.len() == 0 || forall|j: int| 0 <= j < names@.len() ==> !(contains_seq(#[trigger] names@[j]@, kernel_short@)
            && contains_seq(names@[j]@, "android"@ + android_version@))) ==> (r.is_none() || (r matches Some(i) && first_match(
            texts(names@),
            kernel_short@,
            None,
            i as int,
        ))),
{
    if android_version.unicode_len() > 0 {
        let mut pattern = "android".to_owned();
        pattern.append(android_version);
        match find_first(names, kernel_short, Some(pattern.as_str())) {
            Some(i) => {
                assert(texts(names@)[i as int] == names@[i as int]@);
                return Some(i);
            },
            None => {
                assert forall|j: int| 0 <= j < names@.len() implies !(contains_seq(#[trigger] names@[j]@, kernel_short@)
                    && contains_seq(names@[j]@, "android"@ + android_version@)) by {
                    assert(texts(names@)[j] == names@[j]@);
                }
            },
        }
    }
    let r = find_first(names, kernel_short, None);
    proof {
        if r.is_some() {
            assert(texts(names@)[r.unwrap() as int] == names@[r.unwrap() as int]@);
        } else {
            assert forall|j: int| 0 <= j < names@.len() implies !contains_seq(#[trigger] names@[j]@, kernel_short@) by {
                assert(texts(names@)[j] == names@[j]@);
            }
        }
    }
    r
}

/// A kernel symbol address that can be handed to the module: present and
/// not masked to zero.
pub fn usable_symbol_address(addr: &str) -> (r: bool)
    ensures
        r == (addr@.len() > 0 && addr@ != "0x0000000000000000"@),
{
    addr.unicode_len() > 0 && !crate::inventory::str_equal(addr, "0x0000000000000000")
}

} // verus!
