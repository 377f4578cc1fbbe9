use vstd::prelude::*;
use vstd::set_lib::{lemma_int_range, lemma_len_subset, set_int_range};
use crate::branch::Branch;
use crate::forest::{is_forest_of, is_roots_of, lists_where, strictly_increasing, ChildrenForest};
use crate::render::{all_indices, child_lines, connector, header, rendered, root_lines, subtree_lines};
use crate::resolve::{
    as_int, is_candidate, lemma_parent_at_other_tip, nearest_among, nearest_parent, reaches,
    resolves_to, AncestorTable,
};

verus! {

/// A strictly ascending list of indices below `n` that holds every index
/// below `n` is `0, 1, ..., n - 1`.
proof fn lemma_full_list(s: Seq<usize>, n: nat)
    requires
        n <= usize::MAX,
        strictly_increasing(s),
        forall|i: int| 0 <= i < s.len() ==> s[i] < n,
        forall|c: int| 0 <= c < n ==> #[trigger] s.contains(c as usize),
    ensures
        s == all_indices(n),
{
    if s.len() > 0 {
        lemma_identity_prefix(s, n, s.len() - 1);
    }
    if s.len() < n {
        assert(s.contains((n - 1) as usize));
        assert(s.len() > 0);
        lemma_identity_prefix(s, n, s.len() - 1);
        let w = choose|w: int| 0 <= w < s.len() && s[w] == (n - 1) as usize;
        assert(s[w] == w);
    }
    if s.len() > n {
        assert(s[n as int] == n);
    }
    assert forall|j: int| 0 <= j < s.len() implies s[j] == all_indices(n)[j] by {
        lemma_identity_prefix(s, n, s.len() - 1);
    }
    assert(s =~= all_indices(n));
}

proof fn lemma_identity_prefix(s: Seq<usize>, n: nat, i: int)
    requires
        strictly_increasing(s),
        forall|k: int| 0 <= k < s.len() ==> s[k] < n,
        forall|c: int| 0 <= c < n ==> #[trigger] s.contains(c as usize),
        0 <= i < s.len(),
    ensures
        forall|j: int| 0 <= j <= i ==> #[trigger] s[j] == j,
    decreases i,
{
    if i > 0 {
        lemma_identity_prefix(s, n, i - 1);
        assert(s[i - 1] < s[i]);
    }
    lemma_index_at_least(s, i);
    if s[i] > i {
        assert(s.contains(i as usize));
        let w = choose|w: int| 0 <= w < s.len() && s[w] == i as usize;
        if w > i {
            assert(s[i] < s[w]);
        }
    }
}

proof fn lemma_index_at_least(s: Seq<usize>, i: int)
    requires
        strictly_increasing(s),
        0 <= i < s.len(),
    ensures
        s[i] >= i,
    decreases i,
{
    if i > 0 {
        lemma_index_at_least(s, i - 1);
    }
}

/// When no two branches share any history, no branch gets a parent: every
/// branch is a root, none has children, and the rendering is one header line
/// per branch, in order.
pub proof fn lemma_unrelated_all_roots(
    bs: Seq<Branch>,
    t: AncestorTable,
    rel: Seq<Option<usize>>,
    f: ChildrenForest,
    roots: Seq<usize>,
)
    requires
        bs.len() <= usize::MAX,
        t.wf(bs.len()),
        forall|i: int, j: int| 0 <= i < bs.len() && 0 <= j < bs.len() && i != j ==> #[trigger] t.base(i, j) is None,
        resolves_to(bs, t, rel),
        is_forest_of(rel, f),
        is_roots_of(rel, roots),
    ensures
        forall|c: int| 0 <= c < bs.len() ==> #[trigger] rel[c] is None,
        roots == all_indices(bs.len()),
        forall|p: int| 0 <= p < bs.len() ==> #[trigger] f.kids(p).len() == 0,
        rendered(bs, rel, f, roots) == (Seq::new(bs.len(), |i: int| header(bs[i].name@)), false),
{
    let n = bs.len();
    assert forall|c: int| 0 <= c < n implies #[trigger] rel[c] is None by {
        lemma_parent_at_other_tip(bs, t, c);
        assert(as_int(rel[c]) == nearest_parent(bs, t, c));
    }
    assert forall|c: int| 0 <= c < n implies #[trigger] roots.contains(c as usize) by {
        assert(rel[c] is None);
    }
    lemma_full_list(roots, n);
    assert forall|p: int| 0 <= p < n implies #[trigger] f.kids(p).len() == 0 by {
        assert(lists_where(f.kids(p), rel, Some(p as usize)));
        if f.kids(p).len() > 0 {
            let k = f.kids(p)[0];
            assert(f.kids(p).contains(k));
            assert(rel[k as int] is None);
        }
    }
    lemma_isolated_lines(bs, f, roots, 0);
    assert(Seq::new((n - 0) as nat, |k: int| header(bs[0 + k].name@)) =~= Seq::new(
        n,
        |i: int| header(bs[i].name@),
    ));
    if n == 0 {
        assert(Seq::new(n, |i: int| header(bs[i].name@)) =~= seq![]);
    }
}

proof fn lemma_isolated_lines(bs: Seq<Branch>, f: ChildrenForest, roots: Seq<usize>, i: int)
    requires
        bs.len() <= usize::MAX,
        roots == all_indices(bs.len()),
        forall|p: int| 0 <= p < bs.len() ==> #[trigger] f.kids(p).len() == 0,
        0 <= i <= bs.len(),
    ensures
        root_lines(bs, f, roots, i) == Seq::new((bs.len() - i) as nat, |k: int| header(bs[i + k].name@)),
    decreases bs.len() - i,
{
    let want = Seq::new((bs.len() - i) as nat, |k: int| header(bs[i + k].name@));
    if i < bs.len() {
        lemma_isolated_lines(bs, f, roots, i + 1);
        let fuel = bs.len();
        assert(subtree_lines(bs, f, i, seq![], fuel) == child_lines(bs, f, f.kids(i), 0, seq![], (fuel - 1) as nat));
        assert(subtree_lines(bs, f, i, seq![], fuel) =~= seq![]);
        assert(roots[i] as int == i);
        let rest = Seq::new((bs.len() - (i + 1)) as nat, |k: int| header(bs[i + 1 + k].name@));
        assert(want =~= seq![header(bs[i].name@)] + rest);
        assert(root_lines(bs, f, roots, i) =~= seq![header(bs[i].name@)] + seq![] + rest);
    } else {
        assert(want =~= seq![]);
    }
}

/// The branches form one line of history: `chain` lists them from the
/// oldest tip to the newest, `pos` gives each branch's place in it, all tips
/// differ, and the common ancestor of two branches is the older tip.
pub open spec fn is_linear_chain(bs: Seq<Branch>, t: AncestorTable, chain: Seq<int>, pos: Seq<int>) -> bool {
    &&& t.wf(bs.len())
    &&& chain.len() == bs.len()
    &&& pos.len() == bs.len()
    &&& forall|k: int| 0 <= k < bs.len() ==> 0 <= #[trigger] chain[k] < bs.len() && pos[chain[k]] == k
    &&& forall|i: int| 0 <= i < bs.len() ==> 0 <= #[trigger] pos[i] < bs.len() && chain[pos[i]] == i
    &&& forall|i: int, j: int| 0 <= i < bs.len() && 0 <= j < bs.len() && i != j ==> bs[i].tip@ != bs[j].tip@
    &&& forall|i: int, j: int|
        0 <= i < bs.len() && 0 <= j < bs.len() && i != j ==> #[trigger] t.base(i, j) == Some(
            if pos[i] < pos[j] {
                bs[i].tip@
            } else {
                bs[j].tip@
            },
        )
}

proof fn lemma_chain_scan(bs: Seq<Branch>, t: AncestorTable, chain: Seq<int>, pos: Seq<int>, c: int, k: int)
    requires
        is_linear_chain(bs, t, chain, pos),
        0 <= c < bs.len(),
        0 <= k <= bs.len(),
    ensures
        nearest_among(bs, t, c, k) is None <==> (forall|q: int| 0 <= q < k ==> pos[q] >= pos[c]),
        nearest_among(bs, t, c, k) matches Some(b) ==> {
            &&& 0 <= b < k
            &&& pos[b] < pos[c]
            &&& forall|q: int| 0 <= q < k && pos[q] < pos[c] ==> pos[q] <= pos[b]
        },
    decreases k,
{
    if k > 0 {
        let p = k - 1;
        lemma_chain_scan(bs, t, chain, pos, c, p);
        if p != c {
            assert(t.base(p, c) == Some(if pos[p] < pos[c] { bs[p].tip@ } else { bs[c].tip@ }));
            assert(is_candidate(bs, t, c, p) <==> pos[p] < pos[c]);
            if let Some(b) = nearest_among(bs, t, c, p) {
                if pos[p] < pos[c] {
                    assert(b != p);
                    assert(t.base(b, p) == Some(if pos[b] < pos[p] { bs[b].tip@ } else { bs[p].tip@ }));
                    assert(reaches(bs, t, b, p) <==> pos[b] < pos[p]);
                    if pos[b] == pos[p] {
                        assert(chain[pos[b]] == b);
                    }
                }
            }
        }
    }
}

/// On one line of history, the parent of each branch is the branch just
/// before it on the line, the oldest branch has none, and it is the only
/// root.
pub proof fn lemma_linear_chain(
    bs: Seq<Branch>,
    t: AncestorTable,
    chain: Seq<int>,
    pos: Seq<int>,
    rel: Seq<Option<usize>>,
    roots: Seq<usize>,
)
    requires
        is_linear_chain(bs, t, chain, pos),
        resolves_to(bs, t, rel),
        is_roots_of(rel, roots),
    ensures
        bs.len() > 0 ==> rel[chain[0]] is None,
        forall|k: int| 0 < k < bs.len() ==> as_int(#[trigger] rel[chain[k]]) == Some(chain[k - 1]),
        bs.len() > 0 ==> roots == seq![chain[0] as usize],
{
    let n = bs.len() as int;
    assert forall|k: int| 0 <= k < n implies as_int(#[trigger] rel[chain[k]]) == if k == 0 {
        None
    } else {
        Some(chain[k - 1])
    } by {
        let c = chain[k];
        lemma_chain_scan(bs, t, chain, pos, c, n);
        assert(as_int(rel[c]) == nearest_parent(bs, t, c));
        if k > 0 {
            let q = chain[k - 1];
            assert(pos[q] == k - 1);
            let b = nearest_parent(bs, t, c)->Some_0;
            assert(pos[b] == k - 1);
            assert(chain[pos[b]] == b);
        } else {
            assert forall|q: int| 0 <= q < n implies pos[q] >= pos[c] by {}
        }
    }
    if n > 0 {
        let r0 = chain[0];
        assert(rel[r0] is None);
        assert(roots.contains(r0 as usize));
        assert forall|i: int| 0 <= i < roots.len() implies roots[i] == r0 as usize by {
            let x = roots[i] as int;
            assert(roots.contains(roots[i]));
            assert(rel[x] is None);
            let kx = pos[x];
            assert(chain[kx] == x);
            if kx > 0 {
                assert(as_int(rel[chain[kx]]) == Some(chain[kx - 1]));
            }
        }
        if roots.len() > 1 {
            assert(roots[0] < roots[1]);
        }
        let w = choose|w: int| 0 <= w < roots.len() && roots[w] == r0 as usize;
        assert(roots =~= seq![r0 as usize]);
    }
}

/// `m` levels of indentation under last children.
pub open spec fn indent(m: nat) -> Seq<char>
    decreases m,
{
    if m == 0 {
        seq![]
    } else {
        "    "@ + indent((m - 1) as nat)
    }
}

/// The lines of a chain below its branch at place `k`: one line per later
/// branch, each one level deeper than the one before.
pub open spec fn chain_lines(bs: Seq<Branch>, chain: Seq<int>, k: int, prefix: Seq<char>) -> Seq<Seq<char>> {
    Seq::new(
        (bs.len() - 1 - k) as nat,
        |m: int| prefix + indent(m as nat) + "└── "@ + bs[chain[k + 1 + m]].name@,
    )
}

proof fn lemma_chain_kids(
    bs: Seq<Branch>,
    t: AncestorTable,
    chain: Seq<int>,
    pos: Seq<int>,
    rel: Seq<Option<usize>>,
    f: ChildrenForest,
    k: int,
)
    requires
        bs.len() <= usize::MAX,
        is_linear_chain(bs, t, chain, pos),
        is_forest_of(rel, f),
        rel.len() == bs.len(),
        0 <= k < bs.len(),
        bs.len() > 0 ==> rel[chain[0]] is None,
        forall|j: int| 0 < j < bs.len() ==> as_int(#[trigger] rel[chain[j]]) == Some(chain[j - 1]),
    ensures
        k + 1 < bs.len() ==> f.kids(chain[k]) == seq![chain[k + 1] as usize],
        k + 1 == bs.len() ==> f.kids(chain[k]).len() == 0,
{
    let p = chain[k];
    let kids = f.kids(p);
    assert(lists_where(kids, rel, Some(p as usize)));
    assert forall|i: int| 0 <= i < kids.len() implies pos[kids[i] as int] == k + 1 by {
        let c = kids[i] as int;
        assert(kids.contains(kids[i]));
        assert(rel[c] == Some(p as usize));
        assert(chain[pos[c]] == c);
        if pos[c] == 0 {
            assert(rel[chain[0]] is None);
        } else {
            assert(as_int(rel[chain[pos[c]]]) == Some(chain[pos[c] - 1]));
            assert(chain[pos[c] - 1] == p);
            assert(pos[chain[pos[c] - 1]] == pos[c] - 1);
        }
    }
    if kids.len() > 1 {
        assert(kids[0] < kids[1]);
        assert(chain[pos[kids[0] as int]] == kids[0] as int);
        assert(chain[pos[kids[1] as int]] == kids[1] as int);
    }
    if k + 1 < bs.len() {
        let c = chain[k + 1];
        assert(as_int(rel[chain[k + 1]]) == Some(chain[k]));
        assert(rel[c] == Some(p as usize));
        assert(kids.contains(c as usize));
        let w = choose|w: int| 0 <= w < kids.len() && kids[w] == c as usize;
        assert(kids =~= seq![c as usize]);
    } else if kids.len() > 0 {
        assert(pos[kids[0] as int] == k + 1);
    }
}

proof fn lemma_chain_subtree(
    bs: Seq<Branch>,
    t: AncestorTable,
    chain: Seq<int>,
    pos: Seq<int>,
    rel: Seq<Option<usize>>,
    f: ChildrenForest,
    k: int,
    prefix: Seq<char>,
    fuel: nat,
)
    requires
        bs.len() <= usize::MAX,
        is_linear_chain(bs, t, chain, pos),
        is_forest_of(rel, f),
        rel.len() == bs.len(),
        0 <= k < bs.len(),
        fuel >= bs.len() - 1 - k,
        bs.len() > 0 ==> rel[chain[0]] is None,
        forall|j: int| 0 < j < bs.len() ==> as_int(#[trigger] rel[chain[j]]) == Some(chain[j - 1]),
    ensures
        subtree_lines(bs, f, chain[k], prefix, fuel) == chain_lines(bs, chain, k, prefix),
    decreases bs.len() - k,
{
    lemma_chain_kids(bs, t, chain, pos, rel, f, k);
    let want = chain_lines(bs, chain, k, prefix);
    if k + 1 < bs.len() {
        let c = chain[k + 1];
        let deeper = prefix + "    "@;
        lemma_chain_subtree(bs, t, chain, pos, rel, f, k + 1, deeper, (fuel - 1) as nat);
        let kids = f.kids(chain[k]);
        assert(kids[0] as int == c);
        assert(child_lines(bs, f, kids, 1, prefix, (fuel - 1) as nat) == Seq::<Seq<char>>::empty());
        assert(connector(true) == "└── "@);
        let first = prefix + connector(true) + bs[c].name@;
        let sub = chain_lines(bs, chain, k + 1, deeper);
        assert(child_lines(bs, f, kids, 0, prefix, (fuel - 1) as nat) == seq![first] + sub + Seq::<Seq<char>>::empty());
        assert(indent(0) == Seq::<char>::empty());
        assert(want[0] == prefix + indent(0) + "└── "@ + bs[chain[k + 1]].name@);
        assert(want[0] =~= first);
        assert forall|m: int| 0 <= m < sub.len() implies want[m + 1] == sub[m] by {
            assert(indent((m + 1) as nat) == "    "@ + indent(m as nat));
            assert(want[m + 1] =~= sub[m]);
        }
        assert(want =~= seq![first] + sub);
    } else {
        if fuel > 0 {
            assert(f.kids(chain[k]).len() == 0);
        }
        assert(want =~= Seq::<Seq<char>>::empty());
    }
}

/// On one line of history the rendering is the oldest branch's header,
/// then one line per later branch, each nested one level deeper under a
/// last-child connector.
pub proof fn lemma_linear_chain_rendering(
    bs: Seq<Branch>,
    t: AncestorTable,
    chain: Seq<int>,
    pos: Seq<int>,
    rel: Seq<Option<usize>>,
    f: ChildrenForest,
    roots: Seq<usize>,
)
    requires
        bs.len() <= usize::MAX,
        bs.len() > 0,
        is_linear_chain(bs, t, chain, pos),
        resolves_to(bs, t, rel),
        is_forest_of(rel, f),
        is_roots_of(rel, roots),
    ensures
        rendered(bs, rel, f, roots) == (
            seq![header(bs[chain[0]].name@)] + chain_lines(bs, chain, 0, seq![]),
            false,
        ),
{
    lemma_linear_chain(bs, t, chain, pos, rel, roots);
    lemma_chain_subtree(bs, t, chain, pos, rel, f, 0, seq![], bs.len());
    assert(roots[0] as int == chain[0]);
    assert(root_lines(bs, f, roots, 1) == Seq::<Seq<char>>::empty());
    assert(root_lines(bs, f, roots, 0) =~= seq![header(bs[chain[0]].name@)] + chain_lines(bs, chain, 0, seq![]));
}

/// `path` goes down from a root: each branch on it is the parent of the
/// next one under `rel`.
pub open spec fn is_down_path(rel: Seq<Option<usize>>, path: Seq<int>) -> bool {
    &&& rel.len() <= usize::MAX
    &&& path.len() > 0
    &&& forall|i: int| 0 <= i < path.len() ==> 0 <= #[trigger] path[i] < rel.len()
    &&& rel[path[0]] is None
    &&& forall|i: int| 0 < i < path.len() ==> rel[#[trigger] path[i]] == Some(path[i - 1] as usize)
}

proof fn lemma_down_path_no_repeat(rel: Seq<Option<usize>>, path: Seq<int>, i: int, j: int)
    requires
        is_down_path(rel, path),
        0 <= i < j < path.len(),
    ensures
        path[i] != path[j],
    decreases i,
{
    if i > 0 {
        lemma_down_path_no_repeat(rel, path, i - 1, j - 1);
        if path[i] == path[j] {
            assert(rel[path[i]] == Some(path[i - 1] as usize));
            assert(rel[path[j]] == Some(path[j - 1] as usize));
        }
    } else if path[i] == path[j] {
        assert(rel[path[j]] is Some);
    }
}

/// A path down from a root never holds more branches than there are.
proof fn lemma_down_path_short(rel: Seq<Option<usize>>, path: Seq<int>)
    requires
        is_down_path(rel, path),
    ensures
        path.len() <= rel.len(),
{
    assert forall|i: int, j: int| 0 <= i < path.len() && 0 <= j < path.len() && i != j implies path[i] != path[j] by {
        if i < j {
            lemma_down_path_no_repeat(rel, path, i, j);
        } else {
            lemma_down_path_no_repeat(rel, path, j, i);
        }
    }
    assert(path.no_duplicates());
    path.unique_seq_to_set();
    lemma_int_range(0, rel.len() as int);
    assert(path.to_set().subset_of(set_int_range(0, rel.len() as int)));
    lemma_len_subset(path.to_set(), set_int_range(0, rel.len() as int));
}

proof fn lemma_subtree_fuel(
    bs: Seq<Branch>,
    rel: Seq<Option<usize>>,
    f: ChildrenForest,
    path: Seq<int>,
    prefix: Seq<char>,
    fuel1: nat,
    fuel2: nat,
)
    requires
        rel.len() == bs.len(),
        is_forest_of(rel, f),
        is_down_path(rel, path),
        fuel1 + path.len() > bs.len(),
        fuel2 + path.len() > bs.len(),
    ensures
        subtree_lines(bs, f, path.last(), prefix, fuel1) == subtree_lines(bs, f, path.last(), prefix, fuel2),
    decreases bs.len() - path.len(), f.kids(path.last()).len() + 1,
{
    lemma_down_path_short(rel, path);
    let x = path.last();
    lemma_children_fuel(bs, rel, f, path, f.kids(x), 0, prefix, (fuel1 - 1) as nat, (fuel2 - 1) as nat);
}

proof fn lemma_children_fuel(
    bs: Seq<Branch>,
    rel: Seq<Option<usize>>,
    f: ChildrenForest,
    path: Seq<int>,
    kids: Seq<usize>,
    i: int,
    prefix: Seq<char>,
    fuel1: nat,
    fuel2: nat,
)
    requires
        rel.len() == bs.len(),
        is_forest_of(rel, f),
        is_down_path(rel, path),
        path.len() <= bs.len(),
        kids == f.kids(path.last()),
        fuel1 + path.len() >= bs.len(),
        fuel2 + path.len() >= bs.len(),
        0 <= i,
    ensures
        child_lines(bs, f, kids, i, prefix, fuel1) == child_lines(bs, f, kids, i, prefix, fuel2),
    decreases bs.len() - path.len(), kids.len() - i,
{
    if i < kids.len() {
        let x = path.last();
        let k = kids[i] as int;
        assert(lists_where(f.kids(x), rel, Some(x as usize)));
        assert(kids.contains(kids[i]));
        assert(rel[k] == Some(x as usize));
        let longer = path.push(k);
        assert(is_down_path(rel, longer)) by {
            assert forall|j: int| 0 < j < longer.len() implies rel[#[trigger] longer[j]] == Some(longer[j - 1] as usize) by {
                if j < path.len() {
                    assert(longer[j] == path[j]);
                    assert(longer[j - 1] == path[j - 1]);
                }
            }
        }
        lemma_down_path_short(rel, longer);
        let last = i == kids.len() - 1;
        lemma_subtree_fuel(bs, rel, f, longer, prefix + crate::render::extension(last), fuel1, fuel2);
        lemma_children_fuel(bs, rel, f, path, kids, i + 1, prefix, fuel1, fuel2);
    }
}

/// Rendering a root with as many levels as there are branches shows its
/// whole subtree: allowing more levels adds no line.
pub proof fn lemma_depth_bound_suffices(
    bs: Seq<Branch>,
    rel: Seq<Option<usize>>,
    f: ChildrenForest,
    root: int,
    prefix: Seq<char>,
    extra: nat,
)
    requires
        bs.len() <= usize::MAX,
        rel.len() == bs.len(),
        is_forest_of(rel, f),
        0 <= root < bs.len(),
        rel[root] is None,
    ensures
        subtree_lines(bs, f, root, prefix, bs.len()) == subtree_lines(bs, f, root, prefix, bs.len() + extra),
{
    let path = seq![root];
    assert(is_down_path(rel, path));
    lemma_subtree_fuel(bs, rel, f, path, prefix, bs.len(), bs.len() + extra);
}

} // verus!
