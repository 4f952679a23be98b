use vstd::prelude::*;
use crate::text::{decimal, push_decimal};
use vstd::multiset::Multiset;

verus! {

/// Snapshot retention settings.
#[derive(Clone, Copy, Debug)]
pub struct GranaryConfig {
    /// How many snapshots to keep at most; 0 keeps any number.
    pub max_backups: usize,
    /// How many days a snapshot other than the newest is kept; 0 keeps it forever.
    pub retention_days: u64,
}

/// The effective configuration of a run.
#[derive(Clone, Debug)]
pub struct Config {
    pub moduledir: String,
    pub tempdir: Option<String>,
    pub mountsource: String,
    pub verbose: bool,
    pub partitions: Vec<String>,
    pub force_ext4: bool,
    pub enable_nuke: bool,
    pub disable_umount: bool,
    pub granary: GranaryConfig,
}

/// One snapshot of the configuration and the runtime state.
#[derive(Clone, Debug)]
pub struct Silo {
    pub id: String,
    /// Creation time, in seconds since the Unix epoch.
    pub timestamp: u64,
    pub label: String,
    pub reason: String,
    pub config_snapshot: Config,
    /// The configuration file's text, kept so that comments survive a restore.
    pub raw_config: Option<String>,
    /// The state file's text.
    pub raw_state: Option<String>,
}

/// The id of the snapshot taken at `timestamp`.
pub open spec fn silo_id_of(timestamp: u64) -> Seq<char> {
    seq!['s', 'i', 'l', 'o', '_'] + decimal(timestamp as nat)
}

pub fn silo_id(timestamp: u64) -> (r: String)
    ensures
        r@ == silo_id_of(timestamp),
{
    proof {
        reveal_strlit("silo_");
    }
    let mut r = "silo_".to_owned();
    assert(r@ =~= seq!['s', 'i', 'l', 'o', '_']);
    push_decimal(&mut r, timestamp);
    r
}

/// Snapshots newest first; equal times in any order.
pub open spec fn newest_first(s: Seq<Silo>) -> bool {
    forall|i: int| 0 <= i < s.len() - 1 ==> #[trigger] s[i].timestamp >= s[i + 1].timestamp
}

/// Orders snapshots by descending timestamp.
pub fn sort_silos(silos: Vec<Silo>) -> (r: Vec<Silo>)
    ensures
        newest_first(r@),
        r@.to_multiset() == silos@.to_multiset(),
{
    broadcast use vstd::seq_lib::group_to_multiset_ensures, vstd::multiset::group_multiset_axioms;

    let ghost all = silos@;
    let mut rest = silos;
    let mut r: Vec<Silo> = Vec::new();
    assert(r@.to_multiset() =~= Multiset::empty());
    assert(rest@ =~= all.subrange(0, rest@.len() as int));
    while rest.len() > 0
        invariant
            rest@.len() <= all.len(),
            rest@ == all.subrange(0, rest@.len() as int),
            newest_first(r@),
            r@.to_multiset().add(rest@.to_multiset()) == all.to_multiset(),
        decreases rest@.len(),
    {
        let ghost before = rest@;
        let s = rest.pop().unwrap();
        assert(before =~= rest@.push(s));
        assert(rest@ =~= all.subrange(0, rest@.len() as int));
        let mut p: usize = 0;
        while p < r.len() && r[p].timestamp >= s.timestamp
            invariant
                p <= r@.len(),
                forall|q: int| 0 <= q < p ==> #[trigger] r@[q].timestamp >= s.timestamp,
            decreases r@.len() - p,
        {
            p = p + 1;
        }
        let ghost old_r = r@;
        r.insert(p, s);
        assert forall|i: int| 0 <= i < r@.len() - 1 implies #[trigger] r@[i].timestamp >= r@[i + 1].timestamp by {
            if i + 1 < p {
                assert(old_r[i].timestamp >= old_r[i + 1].timestamp);
            } else if i >= p + 1 {
                let q = i - 1;
                assert(old_r[q].timestamp >= old_r[q + 1].timestamp);
            }
        }
        assert(r@ =~= old_r.insert(p as int, s));
        proof {
            vstd::seq_lib::to_multiset_insert(old_r, p as int, s);
            vstd::seq_lib::to_multiset_build(rest@, s);
        }
        assert(r@.to_multiset() == old_r.to_multiset().insert(s));
        assert(before.to_multiset() == rest@.to_multiset().insert(s));
        assert(r@.to_multiset().add(rest@.to_multiset()) =~= all.to_multiset());
    }
    assert(rest@.to_multiset() =~= Multiset::empty());
    r
}

/// The time before which a snapshot has expired.
pub open spec fn expiration(now: u64, retention_days: u64) -> int {
    if retention_days > 0 {
        let span = retention_days * 86400;
        if span >= now { 0 } else { now - span }
    } else {
        0
    }
}

/// Whether pruning deletes the snapshot at position `i` of a newest-first
/// listing: it is beyond the count to keep, or it has expired and is not the
/// newest.
pub open spec fn doomed(s: Seq<Silo>, i: int, g: GranaryConfig, now: u64) -> bool {
    (g.max_backups > 0 && i >= g.max_backups) || (g.retention_days > 0 && s[i].timestamp < expiration(now, g.retention_days)
        && i > 0)
}

/// The ids of the snapshots that pruning deletes, in listing order.
pub open spec fn doomed_ids(s: Seq<Silo>, n: int, g: GranaryConfig, now: u64) -> Seq<Seq<char>>
    decreases n,
{
    if n <= 0 {
        Seq::empty()
    } else {
        let prev = doomed_ids(s, n - 1, g, now);
        if doomed(s, n - 1, g, now) {
            prev.push(s[n - 1].id@)
        } else {
            prev
        }
    }
}

/// The ids of the snapshots to delete from a newest-first listing, given the
/// retention settings and the time now.
pub fn silos_to_prune(silos: &Vec<Silo>, g: GranaryConfig, now: u64) -> (r: Vec<String>)
    ensures
        crate::text::texts(r@) == doomed_ids(silos@, silos@.len() as int, g, now),
{
    let days = g.retention_days;
    let expiration_ts: u64 = if days == 0 {
        0
    } else if days > now / 86400 {
        assert(days * 86400 >= now) by (nonlinear_arith)
            requires
                days > now / 86400,
        {
        }
        0
    } else {
        assert(days * 86400 <= now) by (nonlinear_arith)
            requires
                days <= now / 86400,
        {
        }
        now - days * 86400
    };
    let mut r: Vec<String> = Vec::new();
    let mut i: usize = 0;
    while i < silos.len()
        invariant
            i <= silos@.len(),
            expiration_ts as int == expiration(now, g.retention_days),
            crate::text::texts(r@) == doomed_ids(silos@, i as int, g, now),
        decreases silos@.len() - i,
    {
        let by_count = g.max_backups > 0 && i >= g.max_backups;
        let by_age = g.retention_days > 0 && silos[i].timestamp < expiration_ts && i > 0;
        if by_count || by_age {
            let ghost before = crate::text::texts(r@);
            r.push(silos[i].id.clone());
            assert(crate::text::texts(r@) =~= before.push(silos@[i as int].id@));
        }
        i = i + 1;
    }
    r
}

/// How many snapshots of a listing of `n` pruning keeps.
pub open spec fn kept_count(s: Seq<Silo>, n: int, g: GranaryConfig, now: u64) -> nat
    decreases n,
{
    if n <= 0 {
        0
    } else {
        kept_count(s, n - 1, g, now) + if doomed(s, n - 1, g, now) { 0nat } else { 1nat }
    }
}

proof fn lemma_kept_count_bound(s: Seq<Silo>, n: int, g: GranaryConfig, now: u64)
    requires
        g.max_backups > 0,
    ensures
        kept_count(s, n, g, now) <= g.max_backups,
        0 <= n <= g.max_backups ==> kept_count(s, n, g, now) <= n,
    decreases n,
{
    if n > 0 {
        lemma_kept_count_bound(s, n - 1, g, now);
    }
}

/// Pruning a newest-first listing keeps at most `max_backups` snapshots
/// when that is set, and never deletes the newest one.
pub proof fn lemma_prune_keeps_newest(s: Seq<Silo>, g: GranaryConfig, now: u64)
    requires
        newest_first(s),
    ensures
        g.max_backups > 0 ==> kept_count(s, s.len() as int, g, now) <= g.max_backups,
        s.len() > 0 ==> !doomed(s, 0, g, now),
        s.len() > 0 ==> !doomed_ids(s, s.len() as int, g, now).contains(s[0].id@) || exists|i: int|
            0 < i < s.len() && (#[trigger] s[i]).id@ == s[0].id@,
{
    if g.max_backups > 0 {
        lemma_kept_count_bound(s, s.len() as int, g, now);
    }
    if s.len() > 0 {
        lemma_doomed_ids_from(s, s.len() as int, g, now);
    }
}

proof fn lemma_doomed_ids_from(s: Seq<Silo>, n: int, g: GranaryConfig, now: u64)
    requires
        n <= s.len(),
    ensures
        forall|x: Seq<char>| #[trigger] doomed_ids(s, n, g, now).contains(x) ==> exists|i: int|
            0 <= i < n && doomed(s, i, g, now) && s[i].id@ == x,
    decreases n,
{
    if n > 0 {
        lemma_doomed_ids_from(s, n - 1, g, now);
        let prev = doomed_ids(s, n - 1, g, now);
        if doomed(s, n - 1, g, now) {
            crate::text::lemma_push_contains(prev, s[n - 1].id@);
        }
    }
}

/// Unicode white space, as `char::is_whitespace` and `str::trim` take it.
pub open spec fn is_space(c: char) -> bool {
    let v = c as int;
    (9 <= v <= 13) || v == 32 || v == 0x85 || v == 0xA0 || v == 0x1680 || (0x2000 <= v <= 0x200A) || v == 0x2028
        || v == 0x2029 || v == 0x202F || v == 0x205F || v == 0x3000
}

pub open spec fn trim_front(s: Seq<char>) -> Seq<char>
    decreases s.len(),
{
    if s.len() > 0 && is_space(s[0]) {
        trim_front(s.drop_first())
    } else {
        s
    }
}

pub open spec fn trim_back(s: Seq<char>) -> Seq<char>
    decreases s.len(),
{
    if s.len() > 0 && is_space(s.last()) {
        trim_back(s.drop_last())
    } else {
        s
    }
}

pub open spec fn is_digit(c: char) -> bool {
    48 <= (c as int) <= 57
}

pub open spec fn digit_value(c: char) -> nat {
    (c as int - 48) as nat
}

/// The number that a string of decimal digits denotes.
pub open spec fn digits_value(s: Seq<char>) -> nat
    decreases s.len(),
{
    if s.len() == 0 {
        0
    } else {
        digits_value(s.drop_last()) * 10 + digit_value(s.last())
    }
}

/// A number in the counter file: optional surrounding whitespace, an
/// optional `+`, then decimal digits.
pub open spec fn counter_digits(s: Seq<char>) -> Seq<char> {
    let t = trim_back(trim_front(s));
    if t.len() > 0 && t[0] == '+' {
        t.drop_first()
    } else {
        t
    }
}

/// The count that a counter file holds: its number when that is a valid
/// `u8`, else 0.
pub open spec fn counter_value(s: Seq<char>) -> nat {
    let d = counter_digits(s);
    if d.len() > 0 && (forall|i: int| 0 <= i < d.len() ==> #[trigger] is_digit(d[i])) && digits_value(d) <= 255 {
        digits_value(d)
    } else {
        0
    }
}

/// Reads a boot counter from the text of the counter file.
pub fn parse_counter(content: &str) -> (r: u8)
    ensures
        r as nat == counter_value(content@),
{
    let s = content;
    let n = s.unicode_len();
    let mut a: usize = 0;
    assert(s@.subrange(0, n as int) =~= s@);
    while a < n && is_space_char(s.get_char(a))
        invariant
            a <= n,
            n == s@.len(),
            trim_front(s@) == trim_front(s@.subrange(a as int, n as int)),
        decreases n - a,
    {
        assert(s@.subrange(a as int, n as int).drop_first() =~= s@.subrange(a + 1, n as int));
        a = a + 1;
    }
    proof {
        if a == 0 {
            assert(s@.subrange(0, n as int) =~= s@);
        }
    }
    let ghost front = s@.subrange(a as int, n as int);
    assert(trim_front(s@) == front);
    let mut b: usize = n;
    while b > a && is_space_char(s.get_char(b - 1))
        invariant
            a <= b <= n,
            n == s@.len(),
            front == s@.subrange(a as int, n as int),
            trim_back(front) == trim_back(s@.subrange(a as int, b as int)),
        decreases b,
    {
        assert(s@.subrange(a as int, b as int).drop_last() =~= s@.subrange(a as int, b - 1));
        b = b - 1;
    }
    let ghost t = s@.subrange(a as int, b as int);
    assert(trim_back(front) == t);
    let mut i: usize = a;
    if i < b && s.get_char(i) == '+' {
        i = i + 1;
    }
    let ghost d = s@.subrange(i as int, b as int);
    assert(counter_digits(s@) == d) by {
        if t.len() > 0 && t[0] == '+' {
            assert(t.drop_first() =~= d);
        } else {
            assert(t =~= d);
        }
    }
    if i == b {
        return 0;
    }
    let mut v: u32 = 0;
    let mut j: usize = i;
    while j < b
        invariant
            i <= j <= b,
            b <= n,
            n == s@.len(),
            d == s@.subrange(i as int, b as int),
            counter_digits(s@) == d,
            s@ == content@,
            v as nat == digits_value(s@.subrange(i as int, j as int)),
            v <= 255,
            forall|k: int| i <= k < j ==> #[trigger] is_digit(s@[k]),
        decreases b - j,
    {
        let c = s.get_char(j);
        assert(s@.subrange(i as int, j + 1).drop_last() =~= s@.subrange(i as int, j as int));
        let cv = c as u32;
        if cv < 48 || cv > 57 {
            assert(d[j - i] == c);
            assert(!is_digit(d[j - i]));
            return 0;
        }
        let dv = cv - 48;
        let w = v * 10 + dv;
        if w > 255 {
            proof {
                assert(s@.subrange(i as int, j + 1).last() == c);
                assert(digits_value(s@.subrange(i as int, j + 1)) == w);
                lemma_digits_value_grows(d, j - i + 1);
                assert(d.subrange(0, j - i + 1) =~= s@.subrange(i as int, j + 1));
            }
            return 0;
        }
        v = w;
        j = j + 1;
    }
    assert(d =~= s@.subrange(i as int, j as int));
    v as u8
}

/// A digit string is at least the value of any of its prefixes.
proof fn lemma_digits_value_grows(d: Seq<char>, m: int)
    requires
        0 <= m <= d.len(),
    ensures
        digits_value(d) >= digits_value(d.subrange(0, m)),
    decreases d.len(),
{
    if m < d.len() {
        assert(d.drop_last().subrange(0, m) =~= d.subrange(0, m));
        lemma_digits_value_grows(d.drop_last(), m);
    } else {
        assert(d.subrange(0, m) =~= d);
    }
}

fn is_space_char(c: char) -> (r: bool)
    ensures
        r == is_space(c),
{
    let v = c as u32;
    (9 <= v && v <= 13) || v == 32 || v == 0x85 || v == 0xA0 || v == 0x1680 || (0x2000 <= v && v <= 0x200A) || v == 0x2028
        || v == 0x2029 || v == 0x202F || v == 0x205F || v == 0x3000
}

/// How many unfinished boots in a row trigger a restore.
pub const RATOON_THRESHOLD: u8 = 3;

/// The count after this boot, from the counter file's text if it exists.
pub open spec fn next_count(previous: Option<Seq<char>>) -> nat {
    let c = match previous {
        Some(t) => counter_value(t),
        None => 0,
    };
    if c >= 255 { 255 } else { c + 1 }
}

/// What the watchdog does at the start of a boot.
#[derive(Clone, Copy, Debug, PartialEq, Eq, Structural)]
pub enum RatoonAction {
    /// Go on with the boot.
    Proceed,
    /// Restore the newest snapshot before going on.
    Restore,
}

pub open spec fn action_for(count: nat) -> RatoonAction {
    if count >= 3 { RatoonAction::Restore } else { RatoonAction::Proceed }
}

/// The watchdog's step at process entry: the count to write back and what
/// to do. A missing or unreadable counter counts as 0.
pub fn engage_ratoon_protocol(previous: Option<&str>) -> (r: (u8, RatoonAction))
    ensures
        r.0 as nat == next_count(match previous { Some(t) => Some(t@), None => None }),
        r.1 == action_for(r.0 as nat),
{
    let c: u8 = match previous {
        Some(t) => parse_counter(t),
        None => 0,
    };
    let count: u8 = if c == 255 { 255 } else { c + 1 };
    let action = if count >= RATOON_THRESHOLD { RatoonAction::Restore } else { RatoonAction::Proceed };
    (count, action)
}

/// The text written to the counter file for `count`.
pub fn counter_text(count: u8) -> (r: String)
    ensures
        r@ == decimal(count as nat),
{
    let mut r = String::new();
    push_decimal(&mut r, count as u64);
    r
}

/// What follows a restore attempt. The counter is deleted in either case so
/// that a failing restore cannot repeat forever.
#[derive(Clone, Debug)]
pub struct RatoonOutcome {
    /// The restore failed: every module gets a `disable` marker.
    pub disable_all_modules: bool,
    /// The notice to leave for the user when the restore succeeded.
    pub rescue_notice: Option<String>,
}

pub open spec fn rescue_notice_text(id: Seq<char>) -> Seq<char> {
    "System recovered from bootloop by restoring snapshot: "@ + id
}

/// The outcome of the restore: `restored` holds the id of the snapshot put
/// back, or nothing when no snapshot could be restored.
pub fn ratoon_outcome(restored: Option<&str>) -> (r: RatoonOutcome)
    ensures
        r.disable_all_modules == restored.is_none(),
        restored.is_some() ==> r.rescue_notice.is_some() && r.rescue_notice.unwrap()@ == rescue_notice_text(restored.unwrap()@),
        restored.is_none() ==> r.rescue_notice.is_none(),
{
    match restored {
        Some(id) => {
            let mut notice = "System recovered from bootloop by restoring snapshot: ".to_owned();
            notice.append(id);
            RatoonOutcome { disable_all_modules: false, rescue_notice: Some(notice) }
        },
        None => RatoonOutcome { disable_all_modules: true, rescue_notice: None },
    }
}

/// The snapshot that a restore puts back: the newest of a newest-first listing.
pub fn latest_silo(silos: &Vec<Silo>) -> (r: Option<&Silo>)
    ensures
        silos@.len() == 0 <==> r.is_none(),
        r.is_some() ==> *r.unwrap() == silos@[0],
{
    if silos.len() == 0 {
        None
    } else {
        Some(&silos[0])
    }
}

proof fn lemma_count_of_digit(n: nat)
    requires
        1 <= n <= 9,
    ensures
        counter_value(decimal(n)) == n,
{
    let d = decimal(n);
    assert(d =~= seq![crate::text::digit_char(n)]);
    assert(trim_front(d) == d);
    assert(trim_back(d) == d);
    assert(d.drop_last() =~= Seq::<char>::empty());
    if n == 1 {
        assert(('1' as int) == 49);
    } else if n == 2 {
        assert(('2' as int) == 50);
    } else if n == 3 {
        assert(('3' as int) == 51);
    } else if n == 4 {
        assert(('4' as int) == 52);
    } else if n == 5 {
        assert(('5' as int) == 53);
    } else if n == 6 {
        assert(('6' as int) == 54);
    } else if n == 7 {
        assert(('7' as int) == 55);
    } else if n == 8 {
        assert(('8' as int) == 56);
    } else {
        assert(('9' as int) == 57);
    }
    assert(digit_value(d.last()) == n);
    assert(digits_value(d.drop_last()) == 0);
    assert(digits_value(d) == digits_value(d.drop_last()) * 10 + digit_value(d.last()));
    assert(digits_value(d) == n);
}

/// Three boots in a row that never finish: the counter file goes from
/// absent to 1 and 2, and the third boot restores; a restore that finds a
/// snapshot then leaves the modules enabled and a notice naming it, and the
/// counter is deleted.
pub proof fn lemma_third_unfinished_boot_restores(newest: Seq<char>)
    ensures
        next_count(None) == 1,
        action_for(next_count(None)) == RatoonAction::Proceed,
        next_count(Some(decimal(1))) == 2,
        action_for(next_count(Some(decimal(1)))) == RatoonAction::Proceed,
        next_count(Some(decimal(2))) == 3,
        action_for(next_count(Some(decimal(2)))) == RatoonAction::Restore,
{
    lemma_count_of_digit(1);
    lemma_count_of_digit(2);
}

} // verus!
