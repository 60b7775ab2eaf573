//! Frontiers of totally ordered `u64` times, and the dominance tests on them.
use vstd::prelude::*;

verus! {

/// Some time of frontier `f` is less than or equal to `t`.
pub open spec fn in_advance(f: Seq<u64>, t: u64) -> bool {
    exists|i: int| 0 <= i < f.len() && f[i] <= t
}

/// Every time of `g` is in advance of frontier `f`: `g` is dominated by `f`.
pub open spec fn frontier_le(f: Seq<u64>, g: Seq<u64>) -> bool {
    forall|j: int| 0 <= j < g.len() ==> in_advance(f, #[trigger] g[j])
}

/// Whether some time of `f` is less than or equal to `t`.
pub fn time_in_advance(f: &Vec<u64>, t: u64) -> (r: bool)
    ensures
        r == in_advance(f@, t),
{
    let mut i: usize = 0;
    while i < f.len()
        invariant
            i <= f@.len(),
            forall|x: int| 0 <= x < i ==> f@[x] > t,
        decreases f@.len() - i,
    {
        if f[i] <= t {
            return true;
        }
        i = i + 1;
    }
    false
}

/// Whether every time of `g` is in advance of `f`.
pub fn frontier_dominates(f: &Vec<u64>, g: &Vec<u64>) -> (r: bool)
    ensures
        r == frontier_le(f@, g@),
{
    let mut j: usize = 0;
    while j < g.len()
        invariant
            j <= g@.len(),
            forall|x: int| 0 <= x < j ==> in_advance(f@, #[trigger] g@[x]),
        decreases g@.len() - j,
    {
        if !time_in_advance(f, g[j]) {
            return false;
        }
        j = j + 1;
    }
    true
}

/// Whether two frontiers hold the same times in the same order.
pub fn frontier_eq(f: &Vec<u64>, g: &Vec<u64>) -> (r: bool)
    ensures
        r == (f@ == g@),
{
    if f.len() != g.len() {
        return false;
    }
    let mut i: usize = 0;
    while i < f.len()
        invariant
            i <= f@.len(),
            f@.len() == g@.len(),
            forall|x: int| 0 <= x < i ==> f@[x] == g@[x],
        decreases f@.len() - i,
    {
        if f[i] != g[i] {
            return false;
        }
        i = i + 1;
    }
    assert(f@ =~= g@);
    true
}

/// Dominance between frontiers is transitive.
pub proof fn lemma_frontier_le_trans(a: Seq<u64>, b: Seq<u64>, c: Seq<u64>)
    requires
        frontier_le(a, b),
        frontier_le(b, c),
    ensures
        frontier_le(a, c),
{
    assert forall|j: int| 0 <= j < c.len() implies in_advance(a, #[trigger] c[j]) by {
        assert(in_advance(b, c[j]));
        let i = choose|i: int| 0 <= i < b.len() && b[i] <= c[j];
        assert(in_advance(a, b[i]));
    }
}

} // verus!
