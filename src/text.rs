use vstd::prelude::*;

verus! {

/// Lexicographic order on character sequences; it agrees with `Ord` on `str`,
/// which compares UTF-8 bytes and so orders by code point.
pub open spec fn text_lt(a: Seq<char>, b: Seq<char>) -> bool
    decreases a.len(),
{
    if a.len() == 0 {
        b.len() > 0
    } else if b.len() == 0 {
        false
    } else if a[0] != b[0] {
        (a[0] as int) < (b[0] as int)
    } else {
        text_lt(a.drop_first(), b.drop_first())
    }
}

/// The character sequences of a list of strings.
pub open spec fn texts(v: Seq<String>) -> Seq<Seq<char>> {
    v.map_values(|s: String| s@)
}

/// Each element is strictly below the next: sorted and free of duplicates.
pub open spec fn strictly_ascending(s: Seq<Seq<char>>) -> bool {
    forall|i: int| 0 <= i < s.len() - 1 ==> #[trigger] text_lt(s[i], s[i + 1])
}

pub proof fn lemma_text_lt_total(a: Seq<char>, b: Seq<char>)
    ensures
        a != b ==> text_lt(a, b) || text_lt(b, a),
        !(text_lt(a, b) && text_lt(b, a)),
    decreases a.len(),
{
    if a.len() > 0 && b.len() > 0 && a[0] == b[0] {
        lemma_text_lt_total(a.drop_first(), b.drop_first());
        if a != b {
            assert(a =~= seq![a[0]] + a.drop_first());
            assert(b =~= seq![b[0]] + b.drop_first());
        }
    } else if a.len() > 0 && b.len() > 0 {
        assert((a[0] as int) != (b[0] as int));
    } else if a.len() == 0 && b.len() == 0 {
        assert(a =~= b);
    }
}

pub proof fn lemma_text_lt_transitive(a: Seq<char>, b: Seq<char>, c: Seq<char>)
    requires
        text_lt(a, b),
        text_lt(b, c),
    ensures
        text_lt(a, c),
    decreases a.len(),
{
    if a.len() > 0 && b.len() > 0 && c.len() > 0 && a[0] == b[0] && b[0] == c[0] {
        lemma_text_lt_transitive(a.drop_first(), b.drop_first(), c.drop_first());
    }
}

pub proof fn lemma_push_contains<A>(s: Seq<A>, x: A)
    ensures
        forall|p: A| #[trigger] s.push(x).contains(p) <==> (s.contains(p) || p == x),
{
    assert forall|p: A| #[trigger] s.push(x).contains(p) <==> (s.contains(p) || p == x) by {
        if s.contains(p) {
            let j = choose|j: int| 0 <= j < s.len() && s[j] == p;
            assert(s.push(x)[j] == p);
        }
        if p == x {
            assert(s.push(x)[s.len() as int] == p);
        }
        if s.push(x).contains(p) {
            let j = choose|j: int| 0 <= j < s.len() + 1 && s.push(x)[j] == p;
            if j < s.len() {
                assert(s[j] == p);
            }
        }
    }
}

/// Exact comparison of two strings under `text_lt`.
pub fn text_less(a: &str, b: &str) -> (r: bool)
    ensures
        r == text_lt(a@, b@),
{
    let la = a.unicode_len();
    let lb = b.unicode_len();
    let mut i: usize = 0;
    assert(a@.subrange(0, la as int) =~= a@);
    assert(b@.subrange(0, lb as int) =~= b@);
    while i < la && i < lb
        invariant
            i <= la,
            i <= lb,
            la == a@.len(),
            lb == b@.len(),
            text_lt(a@, b@) == text_lt(
                a@.subrange(i as int, la as int),
                b@.subrange(i as int, lb as int),
            ),
        decreases la - i,
    {
        let ca = a.get_char(i);
        let cb = b.get_char(i);
        if ca != cb {
            return (ca as u32) < (cb as u32);
        }
        assert(a@.subrange(i as int, la as int).drop_first() =~= a@.subrange(i + 1, la as int));
        assert(b@.subrange(i as int, lb as int).drop_first() =~= b@.subrange(i + 1, lb as int));
        i = i + 1;
    }
    i == la && i < lb
}

/// Inserts `x` into a strictly ascending list, keeping it strictly ascending;
/// nothing changes when `x` is already present.
pub fn insert_ascending(v: &mut Vec<String>, x: String)
    requires
        strictly_ascending(texts(old(v)@)),
    ensures
        strictly_ascending(texts(final(v)@)),
        texts(final(v)@).to_set() == texts(old(v)@).to_set().insert(x@),
        final(v)@.len() <= old(v)@.len() + 1,
{
    let ghost before = texts(v@);
    let mut i: usize = 0;
    while i < v.len() && text_less(v[i].as_str(), x.as_str())
        invariant
            i <= v.len(),
            texts(v@) == before,
            strictly_ascending(before),
            forall|j: int| 0 <= j < i ==> #[trigger] text_lt(before[j], x@),
        decreases v.len() - i,
    {
        i = i + 1;
    }
    if i < v.len() && v[i] == x {
        assert(texts(v@).to_set() =~= before.to_set().insert(x@)) by {
            assert(before[i as int] == x@);
        }
        return;
    }
    proof {
        if i < v.len() {
            assert(before[i as int] == v@[i as int]@);
            lemma_text_lt_total(before[i as int], x@);
        }
    }
    let ghost xv = x@;
    v.insert(i, x);
    let ghost after = texts(v@);
    assert(after =~= before.insert(i as int, xv));
    assert(strictly_ascending(after)) by {
        assert forall|j: int| 0 <= j < after.len() - 1 implies #[trigger] text_lt(after[j], after[j + 1]) by {
            if j + 1 < i {
                assert(after[j] == before[j] && after[j + 1] == before[j + 1]);
                assert(text_lt(before[j], before[j + 1]));
            } else if j + 1 == i {
                assert(after[j] == before[j] && after[j + 1] == xv);
            } else if j == i {
                assert(after[j] == xv && after[j + 1] == before[j]);
            } else {
                let k = j - 1;
                assert(after[j] == before[k] && after[j + 1] == before[k + 1]);
                assert(text_lt(before[k], before[k + 1]));
            }
        }
    }
    assert(after.to_set() =~= before.to_set().insert(xv)) by {
        assert forall|y: Seq<char>| after.to_set().contains(y) implies before.to_set().insert(xv).contains(y) by {
            let k = choose|k: int| 0 <= k < after.len() && after[k] == y;
            if k < i {
                assert(before[k] == y);
            } else if k > i {
                assert(before[k - 1] == y);
            }
        }
        assert forall|y: Seq<char>| before.to_set().insert(xv).contains(y) implies after.to_set().contains(y) by {
            if y == xv {
                assert(after[i as int] == y);
            } else {
                let k = choose|k: int| 0 <= k < before.len() && before[k] == y;
                if k < i {
                    assert(after[k] == y);
                } else {
                    assert(after[k + 1] == y);
                }
            }
        }
    }
}

/// The distinct strings of `items`, in ascending order.
pub fn sorted_unique(items: &Vec<String>) -> (r: Vec<String>)
    ensures
        strictly_ascending(texts(r@)),
        texts(r@).to_set() == texts(items@).to_set(),
{
    let mut r: Vec<String> = Vec::new();
    let mut i: usize = 0;
    while i < items.len()
        invariant
            i <= items.len(),
            strictly_ascending(texts(r@)),
            texts(r@).to_set() == texts(items@.subrange(0, i as int)).to_set(),
        decreases items.len() - i,
    {
        insert_ascending(&mut r, items[i].clone());
        assert(texts(items@.subrange(0, i + 1)) =~= texts(items@.subrange(0, i as int)).push(
            items@[i as int]@,
        ));
        proof {
            texts(items@.subrange(0, i as int)).lemma_push_to_set_commute(items@[i as int]@);
        }
        i = i + 1;
    }
    assert(items@.subrange(0, items.len() as int) =~= items@);
    r
}

/// The decimal digit for `d < 10`.
pub open spec fn digit_char(d: nat) -> char {
    if d == 0 {
        '0'
    } else if d == 1 {
        '1'
    } else if d == 2 {
        '2'
    } else if d == 3 {
        '3'
    } else if d == 4 {
        '4'
    } else if d == 5 {
        '5'
    } else if d == 6 {
        '6'
    } else if d == 7 {
        '7'
    } else if d == 8 {
        '8'
    } else {
        '9'
    }
}

/// The decimal notation of `n`, without leading zeros.
pub open spec fn decimal(n: nat) -> Seq<char>
    decreases n,
{
    if n < 10 {
        seq![digit_char(n)]
    } else {
        decimal(n / 10).push(digit_char(n % 10))
    }
}

fn digit_str(d: u64) -> (r: &'static str)
    requires
        d < 10,
    ensures
        r@ == seq![digit_char(d as nat)],
{
    proof {
        reveal_strlit("0");
        reveal_strlit("1");
        reveal_strlit("2");
        reveal_strlit("3");
        reveal_strlit("4");
        reveal_strlit("5");
        reveal_strlit("6");
        reveal_strlit("7");
        reveal_strlit("8");
        reveal_strlit("9");
    }
    if d == 0 {
        "0"
    } else if d == 1 {
        "1"
    } else if d == 2 {
        "2"
    } else if d == 3 {
        "3"
    } else if d == 4 {
        "4"
    } else if d == 5 {
        "5"
    } else if d == 6 {
        "6"
    } else if d == 7 {
        "7"
    } else if d == 8 {
        "8"
    } else {
        "9"
    }
}

/// Appends the decimal notation of `n` to `out`.
pub fn push_decimal(out: &mut String, n: u64)
    ensures
        final(out)@ == old(out)@ + decimal(n as nat),
    decreases n,
{
    if n < 10 {
        out.append(digit_str(n));
    } else {
        push_decimal(out, n / 10);
        out.append(digit_str(n % 10));
        assert(decimal(n as nat) =~= decimal((n / 10) as nat) + seq![digit_char((n % 10) as nat)]);
    }
}

/// `dir` followed by a separator and `name`.
pub open spec fn joined(dir: Seq<char>, name: Seq<char>) -> Seq<char> {
    dir + seq!['/'] + name
}

/// The path `name` under `dir`.
pub fn join_path(dir: &str, name: &str) -> (r: String)
    ensures
        r@ == joined(dir@, name@),
{
    proof {
        reveal_strlit("/");
    }
    let mut r = dir.to_owned();
    r.append("/");
    r.append(name);
    r
}

/// The absolute path `/<name>`.
pub fn root_path(name: &str) -> (r: String)
    ensures
        r@ == seq!['/'] + name@,
{
    proof {
        reveal_strlit("/");
    }
    let mut r = "/".to_owned();
    r.append(name);
    r
}

/// `prefix` is a prefix of `s`.
pub open spec fn has_prefix(s: Seq<char>, prefix: Seq<char>) -> bool {
    prefix.len() <= s.len() && s.subrange(0, prefix.len() as int) == prefix
}

/// `path` is `dir` itself or lies beneath it.
pub open spec fn path_under(path: Seq<char>, dir: Seq<char>) -> bool {
    path == dir || (has_prefix(path, dir) && dir.len() > 0 && (dir.last() == '/' || (path.len()
        > dir.len() && path[dir.len() as int] == '/')))
}

/// Whether `s` begins with `prefix`.
pub fn starts_with(s: &str, prefix: &str) -> (r: bool)
    ensures
        r == has_prefix(s@, prefix@),
{
    let ls = s.unicode_len();
    let lp = prefix.unicode_len();
    if lp > ls {
        return false;
    }
    let mut i: usize = 0;
    while i < lp
        invariant
            i <= lp,
            lp <= ls,
            ls == s@.len(),
            lp == prefix@.len(),
            s@.subrange(0, i as int) == prefix@.subrange(0, i as int),
        decreases lp - i,
    {
        if s.get_char(i) != prefix.get_char(i) {
            assert(s@.subrange(0, lp as int)[i as int] != prefix@[i as int]);
            return false;
        }
        assert(s@.subrange(0, i + 1) =~= s@.subrange(0, i as int).push(s@[i as int]));
        assert(prefix@.subrange(0, i + 1) =~= prefix@.subrange(0, i as int).push(prefix@[i as int]));
        i = i + 1;
    }
    assert(prefix@ =~= prefix@.subrange(0, lp as int));
    true
}

/// Whether `path` is `dir` itself or lies beneath it.
pub fn is_under(path: &str, dir: &str) -> (r: bool)
    ensures
        r == path_under(path@, dir@),
{
    let lp = path.unicode_len();
    let ld = dir.unicode_len();
    let pre = starts_with(path, dir);
    if pre && lp == ld {
        assert(path@ =~= path@.subrange(0, ld as int));
        return true;
    }
    proof {
        if path@ == dir@ {
            assert(path@.subrange(0, ld as int) =~= path@);
        }
    }
    if !pre || ld == 0 {
        return false;
    }
    if dir.get_char(ld - 1) == '/' {
        return true;
    }
    lp > ld && path.get_char(ld) == '/'
}

/// Whether some element of `v` equals `s`.
pub fn contains_text(v: &Vec<String>, s: &str) -> (r: bool)
    ensures
        r == texts(v@).contains(s@),
{
    let mut i: usize = 0;
    while i < v.len()
        invariant
            i <= v@.len(),
            forall|j: int| 0 <= j < i ==> #[trigger] v@[j]@ != s@,
        decreases v@.len() - i,
    {
        if crate::inventory::str_equal(v[i].as_str(), s) {
            assert(texts(v@)[i as int] == s@);
            return true;
        }
        i = i + 1;
    }
    assert(!texts(v@).contains(s@)) by {
        if texts(v@).contains(s@) {
            let j = choose|j: int| 0 <= j < texts(v@).len() && texts(v@)[j] == s@;
            assert(v@[j]@ == s@);
        }
    }
    false
}

} // verus!
