use vstd::prelude::*;
use crate::branch::{Branch, CommitId};

verus! {

/// The answers of the common-ancestor oracle for a branch set:
/// `bases[i][j]` is the best common ancestor of the tips of branches `i`
/// and `j`, or `None` where their histories share no commit.
pub struct AncestorTable {
    pub bases: Vec<Vec<Option<CommitId>>>,
}

impl AncestorTable {
    /// The answer for the pair `(i, j)`, as a commit view.
    pub open spec fn base(&self, i: int, j: int) -> Option<Seq<u8>> {
        match self.bases@[i]@[j] {
            Some(c) => Some(c@),
            None => None,
        }
    }

    /// The table is square, with one row and one column per branch.
    pub open spec fn wf(&self, n: nat) -> bool {
        &&& self.bases@.len() == n
        &&& forall|i: int| 0 <= i < n ==> #[trigger] self.bases@[i]@.len() == n
    }
}

/// The parent found for each branch, by index into the branch set.
pub struct ParentRelation {
    pub parent_of: Vec<Option<usize>>,
}

pub open spec fn as_int(o: Option<usize>) -> Option<int> {
    match o {
        Some(p) => Some(p as int),
        None => None,
    }
}

/// The table reports the tip of `a` as the common ancestor of `a` and `b`:
/// `a`'s tip is reachable from `b`'s tip.
pub open spec fn reaches(bs: Seq<Branch>, t: AncestorTable, a: int, b: int) -> bool {
    t.base(a, b) == Some(bs[a].tip@)
}

/// Branch `k` is an ancestor candidate of branch `c`: another branch, at
/// another tip, whose tip is reachable from `c`'s.
pub open spec fn is_candidate(bs: Seq<Branch>, t: AncestorTable, c: int, k: int) -> bool {
    &&& k != c
    &&& bs[k].tip@ != bs[c].tip@
    &&& reaches(bs, t, k, c)
}

/// The nearest ancestor of `c` among the first `k` branches: candidates are
/// taken in order; a later one replaces the current choice only when the
/// current choice's tip, being a different commit, is reachable from it.
pub open spec fn nearest_among(bs: Seq<Branch>, t: AncestorTable, c: int, k: int) -> Option<int>
    decreases k,
{
    if k <= 0 {
        None
    } else {
        let prev = nearest_among(bs, t, c, k - 1);
        let p = k - 1;
        if !is_candidate(bs, t, c, p) {
            prev
        } else {
            match prev {
                None => Some(p),
                Some(b) => if bs[b].tip@ != bs[p].tip@ && reaches(bs, t, b, p) {
                    Some(p)
                } else {
                    prev
                },
            }
        }
    }
}

/// The nearest ancestor branch of `c` in the whole set, if any.
pub open spec fn nearest_parent(bs: Seq<Branch>, t: AncestorTable, c: int) -> Option<int> {
    nearest_among(bs, t, c, bs.len() as int)
}

/// The parent relation that the resolver owes for `bs` and `t`.
pub open spec fn resolves_to(bs: Seq<Branch>, t: AncestorTable, rel: Seq<Option<usize>>) -> bool {
    &&& rel.len() == bs.len()
    &&& forall|c: int| 0 <= c < bs.len() ==> #[trigger] as_int(rel[c]) == nearest_parent(bs, t, c)
}

proof fn lemma_nearest_among_is_candidate(bs: Seq<Branch>, t: AncestorTable, c: int, k: int)
    ensures
        nearest_among(bs, t, c, k) matches Some(p) ==> 0 <= p < k && is_candidate(bs, t, c, p),
    decreases k,
{
    if k > 0 {
        lemma_nearest_among_is_candidate(bs, t, c, k - 1);
    }
}

/// A branch is never its own parent, nor the parent of a branch at the same
/// tip; a parent's tip is reachable from its child's.
pub proof fn lemma_parent_at_other_tip(bs: Seq<Branch>, t: AncestorTable, c: int)
    ensures
        nearest_parent(bs, t, c) matches Some(p) ==> {
            &&& 0 <= p < bs.len()
            &&& p != c
            &&& bs[p].tip@ != bs[c].tip@
            &&& reaches(bs, t, p, c)
        },
{
    lemma_nearest_among_is_candidate(bs, t, c, bs.len() as int);
}

/// Resolving twice on the same branch set and oracle answers gives the same
/// parent relation.
pub proof fn lemma_resolve_deterministic(
    bs: Seq<Branch>,
    t: AncestorTable,
    r1: Seq<Option<usize>>,
    r2: Seq<Option<usize>>,
)
    requires
        resolves_to(bs, t, r1),
        resolves_to(bs, t, r2),
    ensures
        r1 == r2,
{
    assert forall|c: int| 0 <= c < r1.len() implies r1[c] == r2[c] by {
        assert(as_int(r1[c]) == as_int(r2[c]));
    }
    assert(r1 =~= r2);
}

fn reaches_exec(branches: &Vec<Branch>, table: &AncestorTable, a: usize, b: usize) -> (r: bool)
    requires
        table.wf(branches.len() as nat),
        a < branches.len(),
        b < branches.len(),
    ensures
        r == reaches(branches@, *table, a as int, b as int),
{
    match &table.bases[a][b] {
        Some(x) => x.same(&branches[a].tip),
        None => false,
    }
}

/// The nearest ancestor branch of branch `c`.
pub fn nearest_parent_of(branches: &Vec<Branch>, table: &AncestorTable, c: usize) -> (r: Option<usize>)
    requires
        table.wf(branches.len() as nat),
        c < branches.len(),
    ensures
        as_int(r) == nearest_parent(branches@, *table, c as int),
{
    let n = branches.len();
    let mut best: Option<usize> = None;
    let mut k: usize = 0;
    while k < n
        invariant
            n == branches.len(),
            table.wf(n as nat),
            c < n,
            k <= n,
            as_int(best) == nearest_among(branches@, *table, c as int, k as int),
            best matches Some(b) ==> b < n,
        decreases n - k,
    {
        proof {
            lemma_nearest_among_is_candidate(branches@, *table, c as int, k as int);
        }
        if k != c && !branches[k].tip.same(&branches[c].tip) && reaches_exec(branches, table, k, c) {
            match best {
                None => {
                    best = Some(k);
                },
                Some(b) => {
                    if !branches[b].tip.same(&branches[k].tip) && reaches_exec(branches, table, b, k) {
                        best = Some(k);
                    }
                },
            }
        }
        k = k + 1;
    }
    best
}

/// For every branch, its nearest ancestor branch under the oracle answers.
pub fn resolve(branches: &Vec<Branch>, table: &AncestorTable) -> (r: ParentRelation)
    requires
        table.wf(branches.len() as nat),
    ensures
        resolves_to(branches@, *table, r.parent_of@),
{
    let n = branches.len();
    let mut parent_of: Vec<Option<usize>> = Vec::new();
    let mut c: usize = 0;
    while c < n
        invariant
            n == branches.len(),
            table.wf(n as nat),
            c <= n,
            parent_of@.len() == c,
            forall|i: int| 0 <= i < c ==> #[trigger] as_int(parent_of@[i]) == nearest_parent(branches@, *table, i),
        decreases n - c,
    {
        let p = nearest_parent_of(branches, table, c);
        parent_of.push(p);
        c = c + 1;
    }
    ParentRelation { parent_of }
}

} // verus!
