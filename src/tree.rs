use vstd::prelude::*;
use crate::branch::{is_reordering, names_unique, places, sort_by_name, sorted_by_name, Branch, CommitId};
use crate::forest::{build_children_and_roots, is_forest_of, is_roots_of, lemma_forest_of_is_wf, ChildrenForest};
use crate::render::{lines_of, print_tree, rendered, TreeOutput};
use crate::resolve::{resolve, resolves_to, AncestorTable, ParentRelation};

verus! {

/// git2's repository handle, carried through to the common-ancestor queries.
#[verifier::external_type_specification]
#[verifier::external_body]
pub struct ExRepository(git2::Repository);

/// git2's error, handed back to the caller unchanged.
#[verifier::external_type_specification]
#[verifier::external_body]
pub struct ExGitError(git2::Error);

/// Why building the tree failed.
pub enum TreeError {
    /// The repository reported an error other than "no common ancestor".
    Git2(git2::Error),
    /// The repository has no working directory.
    RepositoryIsBare,
}

/// `out` is the rendering of the tree that `bs` forms under the oracle
/// answers `t`.
pub open spec fn shows_tree(bs: Seq<Branch>, t: AncestorTable, out: (Seq<Seq<char>>, bool)) -> bool {
    exists|rel: Seq<Option<usize>>, f: ChildrenForest, roots: Seq<usize>|
        #![trigger resolves_to(bs, t, rel), is_forest_of(rel, f), is_roots_of(rel, roots)]
        {
            &&& resolves_to(bs, t, rel)
            &&& is_forest_of(rel, f)
            &&& is_roots_of(rel, roots)
            &&& out == rendered(bs, rel, f, roots)
        }
}

/// No pair of a branch with itself or with another branch at the same tip
/// has an answer: such pairs are never asked.
pub open spec fn unasked_pairs_empty(bs: Seq<Branch>, t: AncestorTable) -> bool {
    forall|i: int, j: int|
        0 <= i < bs.len() && 0 <= j < bs.len() && (i == j || bs[i].tip@ == bs[j].tip@)
            ==> #[trigger] t.base(i, j) is None
}

/// All branches point at the same commit, so no pair needs asking.
pub open spec fn one_tip(bs: Seq<Branch>) -> bool {
    forall|i: int, j: int| 0 <= i < bs.len() && 0 <= j < bs.len() ==> #[trigger] bs[i].tip@ == #[trigger] bs[j].tip@
}

/// Relies on git2::Repository::merge_base for the best common ancestor of two
/// commits; its NotFound error is the answer that the histories share none.
#[verifier::external_body]
fn merge_base(repo: &git2::Repository, one: &CommitId, two: &CommitId) -> (r: Result<Option<CommitId>, git2::Error>)
{
    let a = git2::Oid::from_bytes(&one.bytes)?;
    let b = git2::Oid::from_bytes(&two.bytes)?;
    match repo.merge_base(a, b) {
        Ok(base) => {
            let mut bytes = [0u8; 20];
            bytes.copy_from_slice(base.as_bytes());
            Ok(Some(CommitId { bytes }))
        },
        Err(e) if e.code() == git2::ErrorCode::NotFound => Ok(None),
        Err(e) => Err(e),
    }
}

/// Asks the repository for the common ancestor of every ordered pair of
/// branches at different tips, before any decision is taken: an error on any
/// pair ends the work.
pub fn ancestor_table(repo: &git2::Repository, branches: &Vec<Branch>) -> (r: Result<AncestorTable, git2::Error>)
    ensures
        r matches Ok(t) ==> t.wf(branches@.len() as nat) && unasked_pairs_empty(branches@, t),
        one_tip(branches@) ==> r is Ok,
{
    let n = branches.len();
    let mut bases: Vec<Vec<Option<CommitId>>> = Vec::new();
    let mut i: usize = 0;
    while i < n
        invariant
            n == branches@.len(),
            i <= n,
            bases@.len() == i,
            forall|a: int| 0 <= a < i ==> #[trigger] bases@[a]@.len() == n,
            forall|a: int, b: int|
                0 <= a < i && 0 <= b < n && (a == b || branches@[a].tip@ == branches@[b].tip@)
                    ==> #[trigger] bases@[a]@[b] is None,
        decreases n - i,
    {
        let mut row: Vec<Option<CommitId>> = Vec::new();
        let mut j: usize = 0;
        while j < n
            invariant
                n == branches@.len(),
                i < n,
                j <= n,
                row@.len() == j,
                forall|b: int| 0 <= b < j && (i == b || branches@[i as int].tip@ == branches@[b].tip@)
                    ==> #[trigger] row@[b] is None,
            decreases n - j,
        {
            if i == j || branches[i].tip.same(&branches[j].tip) {
                row.push(None);
            } else {
                assert(!one_tip(branches@));
                let base = match merge_base(repo, &branches[i].tip, &branches[j].tip) {
                    Ok(b) => b,
                    Err(e) => {
                        return Err(e);
                    },
                };
                row.push(base);
            }
            j = j + 1;
        }
        bases.push(row);
        i = i + 1;
    }
    let t = AncestorTable { bases };
    assert forall|a: int, b: int|
        0 <= a < n && 0 <= b < n && (a == b || branches@[a].tip@ == branches@[b].tip@)
            implies #[trigger] t.base(a, b) is None by {
        assert(t.bases@[a]@[b] is None);
    }
    Ok(t)
}

/// Determines each branch's nearest ancestor branch by asking the
/// repository for common ancestors.
pub fn get_parent_of_relationships(repo: &git2::Repository, branches: &Vec<Branch>) -> (r: Result<ParentRelation, TreeError>)
    ensures
        one_tip(branches@) ==> r is Ok,
        r matches Ok(rel) ==> exists|t: AncestorTable|
            #![trigger resolves_to(branches@, t, rel.parent_of@)]
            t.wf(branches@.len() as nat) && unasked_pairs_empty(branches@, t)
                && resolves_to(branches@, t, rel.parent_of@),
{
    match ancestor_table(repo, branches) {
        Ok(t) => {
            let rel = resolve(branches, &t);
            let r: Result<ParentRelation, TreeError> = Ok(rel);
            assert(r matches Ok(found) && resolves_to(branches@, t, found.parent_of@));
            r
        },
        Err(e) => Err(TreeError::Git2(e)),
    }
}

/// Renders the tree of a branch set sorted by name, under the oracle
/// answers `table`.
pub fn tree_from_table(branches: &Vec<Branch>, table: &AncestorTable) -> (r: TreeOutput)
    requires
        table.wf(branches@.len() as nat),
    ensures
        shows_tree(branches@, *table, (lines_of(r.lines@), r.warning)),
{
    let relation = resolve(branches, table);
    let built = build_children_and_roots(branches, &relation);
    proof {
        lemma_forest_of_is_wf(relation.parent_of@, built.forest);
    }
    let out = print_tree(branches, &relation, &built.forest, &built.roots);
    assert(is_forest_of(relation.parent_of@, built.forest));
    assert(is_roots_of(relation.parent_of@, built.roots@));
    out
}

/// Sorts the branches by name, asks the repository how they descend from
/// one another, and renders the resulting tree.
pub fn branch_tree(repo: &git2::Repository, branches: Vec<Branch>) -> (r: Result<TreeOutput, TreeError>)
    requires
        names_unique(branches@),
    ensures
        branches@.len() == 0 ==> (r matches Ok(out) && out.lines@.len() == 0 && !out.warning),
        one_tip(branches@) ==> r is Ok,
        r matches Ok(out) ==> exists|sorted: Seq<Branch>, t: AncestorTable|
            #![trigger shows_tree(sorted, t, (lines_of(out.lines@), out.warning))]
            {
                &&& sorted_by_name(sorted)
                &&& is_reordering(sorted, branches@)
                &&& t.wf(sorted.len() as nat)
                &&& unasked_pairs_empty(sorted, t)
                &&& shows_tree(sorted, t, (lines_of(out.lines@), out.warning))
            },
{
    let ghost input = branches@;
    let sorted = sort_by_name(branches);
    proof {
        if one_tip(input) {
            let perm = choose|perm: Seq<int>| places(sorted@, input, perm);
            assert forall|i: int, j: int| 0 <= i < sorted@.len() && 0 <= j < sorted@.len() implies #[trigger] sorted@[i].tip@ == #[trigger] sorted@[j].tip@ by {
                assert(sorted@[i] == input[perm[i]]);
                assert(sorted@[j] == input[perm[j]]);
            }
        }
    }
    match ancestor_table(repo, &sorted) {
        Ok(t) => {
            let out = tree_from_table(&sorted, &t);
            proof {
                if input.len() == 0 {
                    let (rel, f, roots) = choose|rel: Seq<Option<usize>>, f: ChildrenForest, roots: Seq<usize>|
                        resolves_to(sorted@, t, rel) && is_forest_of(rel, f) && is_roots_of(rel, roots)
                            && (lines_of(out.lines@), out.warning) == rendered(sorted@, rel, f, roots);
                    if roots.len() > 0 {
                        assert(roots[0] < rel.len());
                    }
                    assert(lines_of(out.lines@).len() == 0);
                }
            }
            let r: Result<TreeOutput, TreeError> = Ok(out);
            assert(r matches Ok(o) && shows_tree(sorted@, t, (lines_of(o.lines@), o.warning)));
            r
        },
        Err(e) => Err(TreeError::Git2(e)),
    }
}

} // verus!
