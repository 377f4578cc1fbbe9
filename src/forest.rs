use vstd::prelude::*;
use crate::branch::{name_lt, sorted_by_name, Branch};
use crate::resolve::ParentRelation;

verus! {

/// For each branch (by index), the branches whose parent it is, in
/// ascending index order.
pub struct ChildrenForest {
    pub children: Vec<Vec<usize>>,
}

impl ChildrenForest {
    pub open spec fn kids(&self, p: int) -> Seq<usize> {
        self.children@[p]@
    }
}

/// The forest and the roots built from a parent relation.
pub struct ChildrenAndRoots {
    pub forest: ChildrenForest,
    pub roots: Vec<usize>,
}

pub open spec fn strictly_increasing(s: Seq<usize>) -> bool {
    forall|i: int, j: int| 0 <= i < j < s.len() ==> s[i] < s[j]
}

/// `s` lists, in ascending order, exactly the branches whose entry in `rel`
/// is `target`.
pub open spec fn lists_where(s: Seq<usize>, rel: Seq<Option<usize>>, target: Option<usize>) -> bool {
    &&& strictly_increasing(s)
    &&& forall|i: int| 0 <= i < s.len() ==> s[i] < rel.len()
    &&& forall|c: int| 0 <= c < rel.len() ==> (s.contains(c as usize) <==> #[trigger] rel[c] == target)
}

/// `f` holds, for each branch, its children under `rel`, ascending.
pub open spec fn is_forest_of(rel: Seq<Option<usize>>, f: ChildrenForest) -> bool {
    &&& f.children@.len() == rel.len()
    &&& forall|p: int| 0 <= p < rel.len() ==>
        #[trigger] lists_where(f.kids(p), rel, Some(p as usize))
}

/// `roots` lists, ascending, the branches that have no parent under `rel`.
pub open spec fn is_roots_of(rel: Seq<Option<usize>>, roots: Seq<usize>) -> bool {
    lists_where(roots, rel, None)
}

/// Every child list has an entry per branch and names branches of the set.
pub open spec fn forest_wf(f: ChildrenForest, n: nat) -> bool {
    &&& f.children@.len() == n
    &&& forall|p: int, i: int| 0 <= p < n && 0 <= i < f.kids(p).len() ==> #[trigger] f.kids(p)[i] < n
}

/// A forest built from a relation over `n` branches names only those branches.
pub proof fn lemma_forest_of_is_wf(rel: Seq<Option<usize>>, f: ChildrenForest)
    requires
        is_forest_of(rel, f),
    ensures
        forest_wf(f, rel.len()),
{
    assert forall|p: int, i: int| 0 <= p < rel.len() && 0 <= i < f.kids(p).len() implies #[trigger] f.kids(p)[i] < rel.len() by {
        assert(lists_where(f.kids(p), rel, Some(p as usize)));
    }
}

/// The branches whose entry in `rel` is `parent`, ascending.
fn collect_where(rel: &Vec<Option<usize>>, parent: Option<usize>) -> (r: Vec<usize>)
    ensures
        lists_where(r@, rel@, parent),
{
    let n = rel.len();
    let mut r: Vec<usize> = Vec::new();
    let mut c: usize = 0;
    while c < n
        invariant
            n == rel@.len(),
            c <= n,
            strictly_increasing(r@),
            forall|i: int| 0 <= i < r@.len() ==> r@[i] < c,
            forall|k: int| 0 <= k < c ==> (r@.contains(k as usize) <==> rel@[k] == parent),
        decreases n - c,
    {
        let hit = match (rel[c], parent) {
            (Some(x), Some(y)) => x == y,
            (None, None) => true,
            _ => false,
        };
        let ghost old_r = r@;
        if hit {
            r.push(c);
        }
        assert forall|k: int| 0 <= k <= c implies (r@.contains(k as usize) <==> rel@[k] == parent) by {
            if k < c {
                if r@.contains(k as usize) && !old_r.contains(k as usize) {
                    assert(r@.last() == c);
                }
                if old_r.contains(k as usize) {
                    let w = choose|w: int| 0 <= w < old_r.len() && old_r[w] == k as usize;
                    assert(r@[w] == k as usize);
                }
            } else if hit {
                assert(r@[r@.len() - 1] == c);
            }
        }
        c = c + 1;
    }
    r
}

/// Builds, from the parent relation, each branch's sorted list of children
/// and the sorted list of branches without a parent.
pub fn build_children_and_roots(branches: &Vec<Branch>, relation: &ParentRelation) -> (r: ChildrenAndRoots)
    requires
        relation.parent_of@.len() == branches@.len(),
    ensures
        is_forest_of(relation.parent_of@, r.forest),
        is_roots_of(relation.parent_of@, r.roots@),
{
    let rel = &relation.parent_of;
    let n = rel.len();
    let mut children: Vec<Vec<usize>> = Vec::new();
    let mut p: usize = 0;
    while p < n
        invariant
            n == rel@.len(),
            p <= n,
            children@.len() == p,
            forall|q: int| 0 <= q < p ==>
                #[trigger] lists_where(children@[q]@, rel@, Some(q as usize)),
        decreases n - p,
    {
        let kids = collect_where(rel, Some(p));
        children.push(kids);
        p = p + 1;
    }
    let roots = collect_where(rel, None);
    let forest = ChildrenForest { children };
    assert(forall|q: int| 0 <= q < n ==> forest.kids(q) == children@[q]@);
    ChildrenAndRoots { forest, roots }
}

/// In a branch set sorted by name, every child list and the root list are
/// sorted by name too.
pub proof fn lemma_lists_sorted_by_name(
    bs: Seq<Branch>,
    rel: Seq<Option<usize>>,
    f: ChildrenForest,
    roots: Seq<usize>,
)
    requires
        sorted_by_name(bs),
        rel.len() == bs.len(),
        is_forest_of(rel, f),
        is_roots_of(rel, roots),
    ensures
        forall|p: int, i: int, j: int|
            0 <= p < bs.len() && 0 <= i < j < f.kids(p).len() ==> name_lt(
                bs[#[trigger] f.kids(p)[i] as int].name@,
                bs[#[trigger] f.kids(p)[j] as int].name@,
            ),
        forall|i: int, j: int|
            0 <= i < j < roots.len() ==> name_lt(bs[#[trigger] roots[i] as int].name@, bs[#[trigger] roots[j] as int].name@),
{
    assert forall|p: int, i: int, j: int|
        0 <= p < bs.len() && 0 <= i < j < f.kids(p).len() implies name_lt(
            bs[#[trigger] f.kids(p)[i] as int].name@,
            bs[#[trigger] f.kids(p)[j] as int].name@,
        ) by {
        assert(lists_where(f.kids(p), rel, Some(p as usize)));
        let a = f.kids(p)[i] as int;
        let b = f.kids(p)[j] as int;
        assert(a < b);
        assert(name_lt(bs[a].name@, bs[b].name@));
    }
    assert forall|i: int, j: int| 0 <= i < j < roots.len() implies name_lt(
        bs[#[trigger] roots[i] as int].name@,
        bs[#[trigger] roots[j] as int].name@,
    ) by {
        let a = roots[i] as int;
        let b = roots[j] as int;
        assert(name_lt(bs[a].name@, bs[b].name@));
    }
}

} // verus!
