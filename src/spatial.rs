//! The spatial index: agents ordered along the x axis, queried strip by strip.
use vstd::prelude::*;
use crate::model::{Agent, all_wf, LIMIT};
use crate::arith::lemma_component_within;

verus! {

broadcast use vstd::seq_lib::group_to_multiset_ensures;

/// Agent `b` lies within distance `r` of the point `(cx, cy)`.
pub open spec fn within(b: Agent, cx: int, cy: int, r: int) -> bool {
    (b.x - cx) * (b.x - cx) + (b.y - cy) * (b.y - cy) <= r * r
}

/// The entries an index over `agents` starts from: each agent's x coordinate
/// beside its position in `agents`.
pub open spec fn keyed(agents: Seq<Agent>) -> Seq<(i64, usize)> {
    Seq::new(agents.len(), |i: int| (agents[i].x, i as usize))
}

/// Index over the agents of one snapshot, rebuilt each step.
pub struct SpatialIndex {
    entries: Vec<(i64, usize)>,
}

impl SpatialIndex {
    pub closed spec fn entries(self) -> Seq<(i64, usize)> {
        self.entries@
    }

    /// The index holds each agent of `agents` once, ordered by x.
    pub open spec fn indexes(self, agents: Seq<Agent>) -> bool {
        let e = self.entries();
        &&& e.len() == agents.len()
        &&& e.no_duplicates()
        &&& forall|k: int|
            0 <= k < e.len() ==> (#[trigger] e[k]).1 < agents.len() && e[k].0 == agents[e[k].1 as int].x
        &&& forall|i: int| 0 <= i < agents.len() ==> e.contains(#[trigger] keyed(agents)[i])
        &&& forall|k: int, l: int| 0 <= k < l < e.len() ==> (#[trigger] e[k]).0 <= (#[trigger] e[l]).0
    }
}

/// Relies on slice::sort_unstable: the same elements, in ascending order;
/// pairs compare by their first component first.
#[verifier::external_body]
fn sort_pairs(v: &mut Vec<(i64, usize)>)
    ensures
        final(v)@.to_multiset() == old(v)@.to_multiset(),
        forall|k: int, l: int|
            0 <= k < l < final(v)@.len() ==> (#[trigger] final(v)@[k]).0 <= (#[trigger] final(v)@[l]).0,
{
    v.sort_unstable();
}

impl SpatialIndex {
    /// Builds the index over the snapshot `agents`.
    pub fn build(agents: &Vec<Agent>) -> (r: SpatialIndex)
        ensures
            r.indexes(agents@),
    {
        let mut v: Vec<(i64, usize)> = Vec::new();
        let mut i: usize = 0;
        while i < agents.len()
            invariant
                i <= agents@.len(),
                v@ == keyed(agents@).take(i as int),
            decreases agents@.len() - i,
        {
            v.push((agents[i].x, i));
            i = i + 1;
            assert(v@ =~= keyed(agents@).take(i as int));
        }
        let ghost src = keyed(agents@);
        assert(v@ =~= src);
        sort_pairs(&mut v);
        proof {
            assert(v@.len() == v@.to_multiset().len());
            assert(src.len() == src.to_multiset().len());
            assert(src.no_duplicates());
            src.lemma_multiset_has_no_duplicates();
            assert forall|x: (i64, usize)| v@.to_multiset().contains(x) implies v@.to_multiset().count(x) == 1 by {
                assert(src.to_multiset().contains(x));
            }
            v@.lemma_multiset_has_no_duplicates_conv();
            assert forall|k: int| 0 <= k < v@.len() implies (#[trigger] v@[k]).1 < agents@.len() && v@[k].0
                == agents@[v@[k].1 as int].x by {
                assert(v@.contains(v@[k]));
                assert(v@.to_multiset().count(v@[k]) > 0);
                assert(src.contains(v@[k]));
            }
            assert forall|i: int| 0 <= i < agents@.len() implies v@.contains(#[trigger] keyed(agents@)[i]) by {
                assert(src.contains(src[i]));
                assert(src.to_multiset().count(src[i]) > 0);
            }
        }
        let r = SpatialIndex { entries: v };
        assert(r.entries() == v@);
        r
    }

    /// The agents of the snapshot `agents` within distance `radius` of
    /// `(cx, cy)`, each once, in no particular order.
    pub fn query_within(&self, agents: &Vec<Agent>, cx: i64, cy: i64, radius: u64) -> (r: Vec<usize>)
        requires
            self.indexes(agents@),
            all_wf(agents@),
            -LIMIT <= cx <= LIMIT,
            -LIMIT <= cy <= LIMIT,
            radius <= LIMIT,
        ensures
            r@.no_duplicates(),
            forall|m: int|
                0 <= m < r@.len() ==> (#[trigger] r@[m]) < agents@.len() && within(
                    agents@[r@[m] as int],
                    cx as int,
                    cy as int,
                    radius as int,
                ),
            forall|i: int|
                0 <= i < agents@.len() && within(agents@[i], cx as int, cy as int, radius as int)
                    ==> r@.contains(i as usize),
    {
        let ghost e = self.entries();
        let n = self.entries.len();
        let lo: i64 = cx - radius as i64;
        let hi: i64 = cx + radius as i64;
        let mut a: usize = 0;
        let mut b: usize = n;
        while a < b
            invariant
                e == self.entries@,
                self.indexes(agents@),
                n == e.len(),
                a <= b <= n,
                forall|k: int| 0 <= k < a ==> (#[trigger] e[k]).0 < lo,
                forall|k: int| b <= k < n ==> (#[trigger] e[k]).0 >= lo,
            decreases b - a,
        {
            let mid = a + (b - a) / 2;
            if self.entries[mid].0 < lo {
                assert forall|k: int| 0 <= k < mid + 1 implies (#[trigger] e[k]).0 < lo by {
                    if k < mid {
                        assert(e[k].0 <= e[mid as int].0);
                    }
                }
                a = mid + 1;
            } else {
                b = mid;
            }
        }
        let start = a;
        let mut result: Vec<usize> = Vec::new();
        let ghost mut pos: Seq<int> = Seq::empty();
        let mut k: usize = start;
        while k < n && self.entries[k].0 <= hi
            invariant
                e == self.entries@,
                self.indexes(agents@),
                all_wf(agents@),
                -LIMIT <= cx <= LIMIT,
                -LIMIT <= cy <= LIMIT,
                radius <= LIMIT,
                lo == cx - radius,
                hi == cx + radius,
                n == e.len(),
                start <= k <= n,
                forall|j: int| 0 <= j < start ==> (#[trigger] e[j]).0 < lo,
                pos.len() == result@.len(),
                result@.no_duplicates(),
                forall|m: int|
                    0 <= m < pos.len() ==> start <= #[trigger] pos[m] < k && e[pos[m]].1 == result@[m],
                forall|m: int|
                    0 <= m < result@.len() ==> (#[trigger] result@[m]) < agents@.len() && within(
                        agents@[result@[m] as int],
                        cx as int,
                        cy as int,
                        radius as int,
                    ),
                forall|j: int|
                    start <= j < k && within(agents@[e[j].1 as int], cx as int, cy as int, radius as int)
                        ==> result@.contains(#[trigger] e[j].1),
            decreases n - k,
        {
            let (x, idx) = self.entries[k];
            assert(e[k as int].1 < agents@.len());
            let other = agents[idx];
            assert(other.wf());
            let dx: i128 = other.x as i128 - cx as i128;
            let dy: i128 = other.y as i128 - cy as i128;
            let rr: i128 = radius as i128;
            assert(dx * dx <= 4 * LIMIT * LIMIT && dy * dy <= 4 * LIMIT * LIMIT && rr * rr <= LIMIT * LIMIT
                && 0 <= dx * dx && 0 <= dy * dy) by (nonlinear_arith)
                requires
                    -2 * LIMIT <= dx <= 2 * LIMIT,
                    -2 * LIMIT <= dy <= 2 * LIMIT,
                    0 <= rr <= LIMIT,
            ;
            let ghost before = result@;
            if dx * dx + dy * dy <= rr * rr {
                proof {
                    assert forall|m: int| 0 <= m < result@.len() implies result@[m] != idx by {
                        let p = pos[m];
                        assert(e[p] != e[k as int]);
                        assert(e[p].0 == agents@[e[p].1 as int].x);
                    }
                    pos = pos.push(k as int);
                }
                result.push(idx);
                assert(result@.last() == idx);
            }
            proof {
                assert forall|j: int|
                    start <= j < k + 1 && within(agents@[e[j].1 as int], cx as int, cy as int, radius as int)
                    implies result@.contains(#[trigger] e[j].1) by {
                    if j < k {
                        assert(before.contains(e[j].1));
                        let w = choose|w: int| 0 <= w < before.len() && before[w] == e[j].1;
                        assert(result@[w] == before[w]);
                    } else {
                        assert(result@[result@.len() - 1] == idx);
                    }
                }
            }
            k = k + 1;
        }
        proof {
            assert forall|i: int|
                0 <= i < agents@.len() && within(agents@[i], cx as int, cy as int, radius as int)
                implies result@.contains(i as usize) by {
                let ki = choose|ki: int| 0 <= ki < e.len() && e[ki] == keyed(agents@)[i];
                assert(e.contains(keyed(agents@)[i]));
                let b = agents@[i];
                assert(b.wf());
                assert((b.x - cx) * (b.x - cx) + (b.y - cy) * (b.y - cy) <= (radius as int) * (radius as int));
                lemma_component_within(b.x - cx, b.y - cy, radius as int);
                assert(e[ki].0 == b.x);
                if ki >= k {
                    assert(k < n);
                    assert(e[k as int].0 <= e[ki].0);
                }
                assert(e[ki].1 == i);
            }
        }
        result
    }
}

} // verus!
