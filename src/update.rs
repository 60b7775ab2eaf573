//! Update tuples, their `(key, value, time)` order, and the sorted merges and
//! consolidations that batches are built from.
use vstd::prelude::*;
use crate::frontier::in_advance;

verus! {

broadcast use vstd::seq_lib::group_to_multiset_ensures;

/// One change to a collection: `diff` copies of `(key, val)` at `time`.
#[derive(Clone, Copy, Debug, PartialEq, Eq)]
pub struct Update {
    pub key: u64,
    pub val: u64,
    pub time: u64,
    pub diff: i64,
}

/// `a` comes no later than `b` in `(key, value, time)` order.
pub open spec fn upd_le(a: Update, b: Update) -> bool {
    a.key < b.key || (a.key == b.key && (a.val < b.val || (a.val == b.val && a.time <= b.time)))
}

pub open spec fn sorted(s: Seq<Update>) -> bool {
    forall|i: int, j: int| 0 <= i < j < s.len() ==> upd_le(#[trigger] s[i], #[trigger] s[j])
}

/// What `u` contributes to the net count of `(k, v, t)`.
pub open spec fn share_of(u: Update, k: u64, v: u64, t: u64) -> int {
    if u.key == k && u.val == v && u.time == t {
        u.diff as int
    } else {
        0
    }
}

/// The net count of `(k, v, t)` over all updates of `s`.
pub open spec fn net(s: Seq<Update>, k: u64, v: u64, t: u64) -> int
    decreases s.len(),
{
    if s.len() == 0 {
        0
    } else {
        net(s.drop_last(), k, v, t) + share_of(s.last(), k, v, t)
    }
}

pub proof fn lemma_net_push(s: Seq<Update>, u: Update, k: u64, v: u64, t: u64)
    ensures
        net(s.push(u), k, v, t) == net(s, k, v, t) + share_of(u, k, v, t),
{
    assert(s.push(u).drop_last() =~= s);
}

pub proof fn lemma_net_append(a: Seq<Update>, b: Seq<Update>, k: u64, v: u64, t: u64)
    ensures
        net(a + b, k, v, t) == net(a, k, v, t) + net(b, k, v, t),
    decreases b.len(),
{
    if b.len() == 0 {
        assert(a + b =~= a);
    } else {
        assert((a + b).drop_last() =~= a + b.drop_last());
        lemma_net_append(a, b.drop_last(), k, v, t);
    }
}

/// The least time of a frontier (zero for the empty frontier).
pub open spec fn min_of(f: Seq<u64>) -> u64
    decreases f.len(),
{
    if f.len() == 0 {
        0
    } else if f.len() == 1 {
        f[0]
    } else {
        let m = min_of(f.drop_last());
        if f.last() < m {
            f.last()
        } else {
            m
        }
    }
}

/// The time `t` advanced by frontier `f`: the least time in advance of `f`
/// that is not less than `t`. An empty frontier leaves times as they are.
pub open spec fn advance_time(t: u64, f: Seq<u64>) -> u64 {
    if f.len() == 0 || min_of(f) <= t {
        t
    } else {
        min_of(f)
    }
}

pub open spec fn advance_update(u: Update, f: Seq<u64>) -> Update {
    Update { time: advance_time(u.time, f), ..u }
}

pub open spec fn advanced(s: Seq<Update>, f: Seq<u64>) -> Seq<Update> {
    s.map_values(|u: Update| advance_update(u, f))
}

/// Every time of `s` is left as it is when advanced by `f`.
pub open spec fn settled(s: Seq<Update>, f: Seq<u64>) -> bool {
    forall|x: int| 0 <= x < s.len() ==> advance_time((#[trigger] s[x]).time, f) == s[x].time
}

pub fn update_le(a: &Update, b: &Update) -> (r: bool)
    ensures
        r == upd_le(*a, *b),
{
    a.key < b.key || (a.key == b.key && (a.val < b.val || (a.val == b.val && a.time <= b.time)))
}

/// Whether `s` is in `(key, value, time)` order.
pub fn is_sorted(s: &Vec<Update>) -> (r: bool)
    ensures
        r == sorted(s@),
{
    let n = s.len();
    if n == 0 {
        return true;
    }
    let mut i: usize = 1;
    while i < n
        invariant
            1 <= i <= n,
            n == s@.len(),
            forall|a: int| 0 < a < i ==> upd_le(#[trigger] s@[a - 1], s@[a]),
        decreases n - i,
    {
        if !update_le(&s[i - 1], &s[i]) {
            return false;
        }
        i = i + 1;
    }
    assert forall|a: int, b: int| 0 <= a < b < s@.len() implies upd_le(
        #[trigger] s@[a],
        #[trigger] s@[b],
    ) by {
        lemma_chain_le(s@, a, b);
    }
    true
}

proof fn lemma_chain_le(s: Seq<Update>, a: int, b: int)
    requires
        0 <= a < b < s.len(),
        forall|x: int| 0 < x < s.len() ==> upd_le(#[trigger] s[x - 1], s[x]),
    ensures
        upd_le(s[a], s[b]),
    decreases b - a,
{
    if a + 1 < b {
        lemma_chain_le(s, a, b - 1);
        assert(upd_le(s[b - 1], s[b]));
    } else {
        assert(upd_le(s[b - 1], s[b]));
    }
}

pub proof fn lemma_advanced_push(s: Seq<Update>, u: Update, g: Seq<u64>)
    ensures
        advanced(s.push(u), g) == advanced(s, g).push(advance_update(u, g)),
{
    assert(advanced(s.push(u), g) =~= advanced(s, g).push(advance_update(u, g)));
}

pub proof fn lemma_advanced_append(a: Seq<Update>, b: Seq<Update>, g: Seq<u64>)
    ensures
        advanced(a + b, g) == advanced(a, g) + advanced(b, g),
{
    assert(advanced(a + b, g) =~= advanced(a, g) + advanced(b, g));
}

/// Merges two sorted runs into one sorted run holding every update of both.
pub fn merge_sorted(a: &Vec<Update>, b: &Vec<Update>) -> (r: Vec<Update>)
    requires
        sorted(a@),
        sorted(b@),
    ensures
        sorted(r@),
        r@.len() == a@.len() + b@.len(),
        r@.to_multiset() == a@.to_multiset().add(b@.to_multiset()),
        forall|k: u64, v: u64, t: u64|
            #[trigger] net(r@, k, v, t) == net(a@, k, v, t) + net(b@, k, v, t),
        forall|g: Seq<u64>, k: u64, v: u64, t: u64|
            #[trigger] net(advanced(r@, g), k, v, t) == net(advanced(a@, g), k, v, t) + net(
                advanced(b@, g),
                k,
                v,
                t,
            ),
        forall|x: int| 0 <= x < r@.len() ==> a@.contains(#[trigger] r@[x]) || b@.contains(r@[x]),
{
    let mut r: Vec<Update> = Vec::new();
    let mut i: usize = 0;
    let mut j: usize = 0;
    while i < a.len() || j < b.len()
        invariant
            i <= a@.len(),
            j <= b@.len(),
            sorted(a@),
            sorted(b@),
            sorted(r@),
            r@.len() == i + j,
            r@.to_multiset() == a@.subrange(0, i as int).to_multiset().add(
                b@.subrange(0, j as int).to_multiset(),
            ),
            forall|k: u64, v: u64, t: u64|
                #[trigger] net(r@, k, v, t) == net(a@.subrange(0, i as int), k, v, t) + net(
                    b@.subrange(0, j as int),
                    k,
                    v,
                    t,
                ),
            forall|g: Seq<u64>, k: u64, v: u64, t: u64|
                #[trigger] net(advanced(r@, g), k, v, t) == net(
                    advanced(a@.subrange(0, i as int), g),
                    k,
                    v,
                    t,
                ) + net(advanced(b@.subrange(0, j as int), g), k, v, t),
            forall|x: int|
                0 <= x < r@.len() ==> a@.contains(#[trigger] r@[x]) || b@.contains(r@[x]),
            forall|x: int, y: int|
                0 <= x < r@.len() && i <= y < a@.len() ==> upd_le(#[trigger] r@[x], #[trigger] a@[y]),
            forall|x: int, y: int|
                0 <= x < r@.len() && j <= y < b@.len() ==> upd_le(#[trigger] r@[x], #[trigger] b@[y]),
        decreases a@.len() + b@.len() - i - j,
    {
        let take_a = j >= b.len() || (i < a.len() && update_le(&a[i], &b[j]));
        let ghost r0 = r@;
        if take_a {
            let u = a[i];
            assert(a@.contains(a@[i as int]));
            r.push(u);
            assert(a@.subrange(0, i + 1) =~= a@.subrange(0, i as int).push(u));
            assert forall|k: u64, v: u64, t: u64|
                #[trigger] net(r@, k, v, t) == net(a@.subrange(0, i + 1), k, v, t) + net(
                    b@.subrange(0, j as int),
                    k,
                    v,
                    t,
                ) by {
                lemma_net_push(r0, u, k, v, t);
                lemma_net_push(a@.subrange(0, i as int), u, k, v, t);
            }
            assert forall|g: Seq<u64>, k: u64, v: u64, t: u64|
                #[trigger] net(advanced(r@, g), k, v, t) == net(
                    advanced(a@.subrange(0, i + 1), g),
                    k,
                    v,
                    t,
                ) + net(advanced(b@.subrange(0, j as int), g), k, v, t) by {
                lemma_advanced_push(r0, u, g);
                lemma_advanced_push(a@.subrange(0, i as int), u, g);
                lemma_net_push(advanced(r0, g), advance_update(u, g), k, v, t);
                lemma_net_push(advanced(a@.subrange(0, i as int), g), advance_update(u, g), k, v, t);
            }
            i = i + 1;
        } else {
            let u = b[j];
            assert(b@.contains(b@[j as int]));
            r.push(u);
            assert(b@.subrange(0, j + 1) =~= b@.subrange(0, j as int).push(u));
            assert forall|k: u64, v: u64, t: u64|
                #[trigger] net(r@, k, v, t) == net(a@.subrange(0, i as int), k, v, t) + net(
                    b@.subrange(0, j + 1),
                    k,
                    v,
                    t,
                ) by {
                lemma_net_push(r0, u, k, v, t);
                lemma_net_push(b@.subrange(0, j as int), u, k, v, t);
            }
            assert forall|g: Seq<u64>, k: u64, v: u64, t: u64|
                #[trigger] net(advanced(r@, g), k, v, t) == net(
                    advanced(a@.subrange(0, i as int), g),
                    k,
                    v,
                    t,
                ) + net(advanced(b@.subrange(0, j + 1), g), k, v, t) by {
                lemma_advanced_push(r0, u, g);
                lemma_advanced_push(b@.subrange(0, j as int), u, g);
                lemma_net_push(advanced(r0, g), advance_update(u, g), k, v, t);
                lemma_net_push(advanced(b@.subrange(0, j as int), g), advance_update(u, g), k, v, t);
            }
            j = j + 1;
        }
    }
    assert(a@.subrange(0, a@.len() as int) =~= a@);
    assert(b@.subrange(0, b@.len() as int) =~= b@);
    r
}

/// The least time of frontier `f`, or zero where `f` is empty.
pub fn frontier_min(f: &Vec<u64>) -> (m: u64)
    ensures
        m == min_of(f@),
{
    if f.len() == 0 {
        return 0;
    }
    let mut m = f[0];
    let mut i: usize = 1;
    while i < f.len()
        invariant
            1 <= i <= f@.len(),
            m == min_of(f@.subrange(0, i as int)),
        decreases f@.len() - i,
    {
        assert(f@.subrange(0, i + 1).drop_last() =~= f@.subrange(0, i as int));
        if f[i] < m {
            m = f[i];
        }
        i = i + 1;
    }
    assert(f@.subrange(0, f@.len() as int) =~= f@);
    m
}

/// Each update of `s` with its time advanced by frontier `f`.
pub fn advance_all(s: &Vec<Update>, f: &Vec<u64>) -> (r: Vec<Update>)
    requires
        sorted(s@),
    ensures
        r@ == advanced(s@, f@),
        sorted(r@),
        settled(r@, f@),
{
    let m = frontier_min(f);
    let mut r: Vec<Update> = Vec::new();
    let mut i: usize = 0;
    while i < s.len()
        invariant
            i <= s@.len(),
            m == min_of(f@),
            r@ =~= advanced(s@, f@).subrange(0, i as int),
        decreases s@.len() - i,
    {
        let u = s[i];
        let t = if f.len() == 0 || m <= u.time {
            u.time
        } else {
            m
        };
        r.push(Update { time: t, ..u });
        i = i + 1;
    }
    assert(r@ =~= advanced(s@, f@));
    r
}

/// Sums the diffs of equal `(key, value, time)` runs of a sorted sequence and
/// drops updates whose diff is zero. Where a sum would not fit an `i64`, the
/// two parts stay apart.
pub fn consolidate(s: &Vec<Update>) -> (r: Vec<Update>)
    requires
        sorted(s@),
    ensures
        sorted(r@),
        forall|k: u64, v: u64, t: u64| #[trigger] net(r@, k, v, t) == net(s@, k, v, t),
        forall|x: int| 0 <= x < r@.len() ==> (#[trigger] r@[x]).diff != 0,
        forall|g: Seq<u64>| settled(s@, g) ==> #[trigger] settled(r@, g),
{
    let mut r: Vec<Update> = Vec::new();
    let mut i: usize = 0;
    while i < s.len()
        invariant
            i <= s@.len(),
            sorted(s@),
            sorted(r@),
            forall|k: u64, v: u64, t: u64|
                #[trigger] net(r@, k, v, t) == net(s@.subrange(0, i as int), k, v, t),
            forall|x: int| 0 <= x < r@.len() ==> (#[trigger] r@[x]).diff != 0,
            forall|g: Seq<u64>| settled(s@, g) ==> #[trigger] settled(r@, g),
            forall|x: int, y: int|
                0 <= x < r@.len() && i <= y < s@.len() ==> upd_le(#[trigger] r@[x], #[trigger] s@[y]),
        decreases s@.len() - i,
    {
        let u = s[i];
        assert(s@[i as int].time == u.time);
        let ghost r0 = r@;
        let ghost s0 = s@.subrange(0, i as int);
        assert(s@.subrange(0, i + 1) =~= s0.push(u));
        let n = r.len();
        if u.diff == 0 {
            assert forall|k: u64, v: u64, t: u64|
                #[trigger] net(r@, k, v, t) == net(s@.subrange(0, i + 1), k, v, t) by {
                lemma_net_push(s0, u, k, v, t);
            }
        } else if n > 0 && r[n - 1].key == u.key && r[n - 1].val == u.val && r[n - 1].time
            == u.time {
            let last = r[n - 1];
            assert(r0 =~= r0.drop_last().push(last));
            match last.diff.checked_add(u.diff) {
                Some(d) => {
                    if d == 0 {
                        r.pop();
                        assert forall|k: u64, v: u64, t: u64|
                            #[trigger] net(r@, k, v, t) == net(s@.subrange(0, i + 1), k, v, t) by {
                            lemma_net_push(s0, u, k, v, t);
                            lemma_net_push(r0.drop_last(), last, k, v, t);
                        }
                    } else {
                        let w = Update { diff: d, ..u };
                        r.set(n - 1, w);
                        assert(r@ =~= r0.drop_last().push(w));
                        assert forall|k: u64, v: u64, t: u64|
                            #[trigger] net(r@, k, v, t) == net(s@.subrange(0, i + 1), k, v, t) by {
                            lemma_net_push(s0, u, k, v, t);
                            lemma_net_push(r0.drop_last(), last, k, v, t);
                            lemma_net_push(r0.drop_last(), w, k, v, t);
                        }
                    }
                },
                None => {
                    r.push(u);
                    assert forall|k: u64, v: u64, t: u64|
                        #[trigger] net(r@, k, v, t) == net(s@.subrange(0, i + 1), k, v, t) by {
                        lemma_net_push(s0, u, k, v, t);
                        lemma_net_push(r0, u, k, v, t);
                    }
                },
            }
        } else {
            r.push(u);
            assert forall|k: u64, v: u64, t: u64|
                #[trigger] net(r@, k, v, t) == net(s@.subrange(0, i + 1), k, v, t) by {
                lemma_net_push(s0, u, k, v, t);
                lemma_net_push(r0, u, k, v, t);
            }
        }
        assert forall|x: int| 0 <= x < r@.len() implies #[trigger] r@[x] == r0[x] || r@[x].time
            == u.time by {}
        assert forall|g: Seq<u64>| settled(s@, g) implies #[trigger] settled(r@, g) by {
            assert(settled(r0, g));
            assert(advance_time(s@[i as int].time, g) == s@[i as int].time);
            assert forall|x: int| 0 <= x < r@.len() implies advance_time(
                (#[trigger] r@[x]).time,
                g,
            ) == r@[x].time by {
                if r@[x] == r0[x] {
                    assert(advance_time(r0[x].time, g) == r0[x].time);
                }
            }
        }
        i = i + 1;
    }
    assert(s@.subrange(0, s@.len() as int) =~= s@);
    r
}

/// Merges two sorted runs with every time advanced by frontier `f`, then
/// consolidates the result.
pub fn merge_advanced(a: &Vec<Update>, b: &Vec<Update>, f: &Vec<u64>) -> (r: Vec<Update>)
    requires
        sorted(a@),
        sorted(b@),
    ensures
        sorted(r@),
        forall|k: u64, v: u64, t: u64|
            #[trigger] net(r@, k, v, t) == net(advanced(a@, f@), k, v, t) + net(
                advanced(b@, f@),
                k,
                v,
                t,
            ),
        forall|x: int| 0 <= x < r@.len() ==> (#[trigger] r@[x]).diff != 0,
        advanced(r@, f@) == r@,
{
    let aa = advance_all(a, f);
    let bb = advance_all(b, f);
    let m = merge_sorted(&aa, &bb);
    let r = consolidate(&m);
    assert forall|k: u64, v: u64, t: u64|
        #[trigger] net(r@, k, v, t) == net(advanced(a@, f@), k, v, t) + net(
            advanced(b@, f@),
            k,
            v,
            t,
        ) by {
        assert(net(r@, k, v, t) == net(m@, k, v, t));
        assert(net(m@, k, v, t) == net(aa@, k, v, t) + net(bb@, k, v, t));
    }
    assert(settled(m@, f@)) by {
        assert forall|x: int| 0 <= x < m@.len() implies advance_time(
            (#[trigger] m@[x]).time,
            f@,
        ) == m@[x].time by {
            assert(aa@.contains(m@[x]) || bb@.contains(m@[x]));
        }
    }
    assert(settled(r@, f@));
    assert(advanced(r@, f@) =~= r@);
    r
}

proof fn lemma_min_le(f: Seq<u64>, i: int)
    requires
        0 <= i < f.len(),
    ensures
        min_of(f) <= f[i],
    decreases f.len(),
{
    if f.len() > 1 && i < f.len() - 1 {
        lemma_min_le(f.drop_last(), i);
    }
}

proof fn lemma_min_in(f: Seq<u64>)
    requires
        f.len() > 0,
    ensures
        in_advance(f, min_of(f)),
    decreases f.len(),
{
    if f.len() == 1 {
        assert(f[0] <= min_of(f));
    } else {
        lemma_min_in(f.drop_last());
        let i = choose|i: int| 0 <= i < f.drop_last().len() && f.drop_last()[i] <= min_of(
            f.drop_last(),
        );
        assert(f[i] == f.drop_last()[i]);
        if f.last() < min_of(f.drop_last()) {
            assert(f[f.len() - 1] <= min_of(f));
        } else {
            assert(f[i] <= min_of(f));
        }
    }
}

/// Advancing times moves updates only away from the times that the frontier
/// does not reach, and only onto its least time.
proof fn lemma_net_advanced(s: Seq<Update>, f: Seq<u64>, k: u64, v: u64, t: u64)
    ensures
        (in_advance(f, t) && t != min_of(f)) || f.len() == 0 ==> net(advanced(s, f), k, v, t)
            == net(s, k, v, t),
        f.len() > 0 && !in_advance(f, t) ==> net(advanced(s, f), k, v, t) == 0,
    decreases s.len(),
{
    if f.len() > 0 && in_advance(f, t) {
        let i = choose|i: int| 0 <= i < f.len() && f[i] <= t;
        lemma_min_le(f, i);
    }
    if f.len() > 0 && !in_advance(f, t) {
        lemma_min_in(f);
    }
    if s.len() > 0 {
        assert(advanced(s, f).drop_last() =~= advanced(s.drop_last(), f));
        lemma_net_advanced(s.drop_last(), f, k, v, t);
    }
}

/// The net count of `(k, v)` over the updates of `s` at times that frontier `f`
/// does not reach.
pub open spec fn net_dominated(s: Seq<Update>, f: Seq<u64>, k: u64, v: u64) -> int
    decreases s.len(),
{
    if s.len() == 0 {
        0
    } else {
        let u = s.last();
        net_dominated(s.drop_last(), f, k, v) + if u.key == k && u.val == v && !in_advance(
            f,
            u.time,
        ) {
            u.diff as int
        } else {
            0
        }
    }
}

/// Advancing by a non-empty frontier gathers at its least time what was there
/// and all that stood at times the frontier does not reach.
proof fn lemma_net_gathered(s: Seq<Update>, f: Seq<u64>, k: u64, v: u64)
    requires
        f.len() > 0,
    ensures
        net(advanced(s, f), k, v, min_of(f)) == net(s, k, v, min_of(f)) + net_dominated(
            s,
            f,
            k,
            v,
        ),
    decreases s.len(),
{
    lemma_min_in(f);
    if s.len() > 0 {
        let u = s.last();
        assert(advanced(s, f).drop_last() =~= advanced(s.drop_last(), f));
        lemma_net_gathered(s.drop_last(), f, k, v);
        if in_advance(f, u.time) {
            let i = choose|i: int| 0 <= i < f.len() && f[i] <= u.time;
            lemma_min_le(f, i);
        }
    }
}

/// A merge that consolidates by frontier `f` keeps the net count of every
/// `(key, value, time)` whose time is in advance of `f` and is not its least
/// time, and leaves nothing at a time that `f` does not reach: those counts
/// are summed, per key and value, into the count at the least time of `f`.
pub proof fn lemma_consolidated_merge(
    a: Seq<Update>,
    b: Seq<Update>,
    r: Seq<Update>,
    f: Seq<u64>,
    k: u64,
    v: u64,
    t: u64,
)
    requires
        forall|k: u64, v: u64, t: u64|
            #[trigger] net(r, k, v, t) == net(advanced(a, f), k, v, t) + net(
                advanced(b, f),
                k,
                v,
                t,
            ),
    ensures
        in_advance(f, t) && t != min_of(f) ==> net(r, k, v, t) == net(a, k, v, t) + net(
            b,
            k,
            v,
            t,
        ),
        f.len() > 0 && !in_advance(f, t) ==> net(r, k, v, t) == 0,
        f.len() > 0 ==> net(r, k, v, min_of(f)) == net(a, k, v, min_of(f)) + net(
            b,
            k,
            v,
            min_of(f),
        ) + net_dominated(a, f, k, v) + net_dominated(b, f, k, v),
{
    if f.len() > 0 {
        lemma_net_gathered(a, f, k, v);
        lemma_net_gathered(b, f, k, v);
        assert(net(r, k, v, min_of(f)) == net(advanced(a, f), k, v, min_of(f)) + net(
            advanced(b, f),
            k,
            v,
            min_of(f),
        ));
    }
    lemma_net_advanced(a, f, k, v, t);
    lemma_net_advanced(b, f, k, v, t);
    assert(net(r, k, v, t) == net(advanced(a, f), k, v, t) + net(advanced(b, f), k, v, t));
}

} // verus!
