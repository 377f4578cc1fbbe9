use vstd::prelude::*;
use crate::branch::Branch;
use crate::forest::{forest_wf, ChildrenForest};
use crate::resolve::ParentRelation;

verus! {

/// Bright red, put before the detached marker.
pub const RED_START: &'static str = "\x1B[91m";

/// Resets the terminal colour after the detached marker.
pub const COLOR_RESET: &'static str = "\x1B[0m";

/// The marker put before a root that is not a mainline branch.
pub const DETACHED_PREFIX_TEXT: &'static str = "(detached)";

/// What the renderer produces: the lines of the tree, in order, and whether
/// a warning about an unclear tree structure is due.
pub struct TreeOutput {
    pub lines: Vec<String>,
    pub warning: bool,
}

/// The views of a sequence of lines.
pub open spec fn lines_of(v: Seq<String>) -> Seq<Seq<char>> {
    v.map_values(|s: String| s@)
}

pub open spec fn connector(last: bool) -> Seq<char> {
    if last {
        "└── "@
    } else {
        "├── "@
    }
}

pub open spec fn extension(last: bool) -> Seq<char> {
    if last {
        "    "@
    } else {
        "│   "@
    }
}

/// The conventional primary-branch names, which are printed bare as roots.
pub open spec fn is_mainline(name: Seq<char>) -> bool {
    ||| name == "main"@
    ||| name == "master"@
    ||| name == "develop"@
    ||| name == "dev"@
    ||| name == "local-dev"@
}

/// The header line of a root.
pub open spec fn header(name: Seq<char>) -> Seq<char> {
    if is_mainline(name) {
        name
    } else {
        RED_START@ + DETACHED_PREFIX_TEXT@ + COLOR_RESET@ + " "@ + name
    }
}

/// The lines below `node`, each starting with `prefix`, at most `fuel`
/// levels deep.
pub open spec fn subtree_lines(
    bs: Seq<Branch>,
    f: ChildrenForest,
    node: int,
    prefix: Seq<char>,
    fuel: nat,
) -> Seq<Seq<char>>
    decreases fuel, 0int,
{
    if fuel == 0 {
        seq![]
    } else {
        child_lines(bs, f, f.kids(node), 0, prefix, (fuel - 1) as nat)
    }
}

/// The lines of the children `kids[i..]` and of their subtrees.
pub open spec fn child_lines(
    bs: Seq<Branch>,
    f: ChildrenForest,
    kids: Seq<usize>,
    i: int,
    prefix: Seq<char>,
    fuel: nat,
) -> Seq<Seq<char>>
    decreases fuel, kids.len() - i,
{
    if i < 0 || i >= kids.len() {
        seq![]
    } else {
        let last = i == kids.len() - 1;
        let k = kids[i] as int;
        seq![prefix + connector(last) + bs[k].name@] + subtree_lines(
            bs,
            f,
            k,
            prefix + extension(last),
            fuel,
        ) + child_lines(bs, f, kids, i + 1, prefix, fuel)
    }
}

/// The header and subtree lines of each of `ids[i..]`, in order. Subtrees
/// are followed as many levels deep as there are branches, which no path
/// down from a root exceeds.
pub open spec fn root_lines(bs: Seq<Branch>, f: ChildrenForest, ids: Seq<usize>, i: int) -> Seq<
    Seq<char>,
>
    decreases ids.len() - i,
{
    if i < 0 || i >= ids.len() {
        seq![]
    } else {
        let r = ids[i] as int;
        seq![header(bs[r].name@)] + subtree_lines(bs, f, r, seq![], bs.len()) + root_lines(
            bs,
            f,
            ids,
            i + 1,
        )
    }
}

pub open spec fn has_some_parent(rel: Seq<Option<usize>>) -> bool {
    exists|c: int| 0 <= c < rel.len() && #[trigger] rel[c] is Some
}

pub open spec fn all_indices(n: nat) -> Seq<usize> {
    Seq::new(n, |i: int| i as usize)
}

pub open spec fn all_names(bs: Seq<Branch>) -> Seq<Seq<char>> {
    Seq::new(bs.len(), |i: int| bs[i].name@)
}

/// The lines that the tree of `bs` renders to, and whether a warning is due.
pub open spec fn rendered(
    bs: Seq<Branch>,
    rel: Seq<Option<usize>>,
    f: ChildrenForest,
    roots: Seq<usize>,
) -> (Seq<Seq<char>>, bool) {
    if roots.len() > 0 {
        (root_lines(bs, f, roots, 0), false)
    } else if bs.len() == 0 {
        (seq![], false)
    } else if has_some_parent(rel) {
        (all_names(bs), true)
    } else {
        (root_lines(bs, f, all_indices(bs.len()), 0), false)
    }
}

proof fn lemma_lines_push(v: Seq<String>, s: String)
    ensures
        lines_of(v.push(s)) == lines_of(v).push(s@),
{
    assert(lines_of(v.push(s)) =~= lines_of(v).push(s@));
}

fn is_mainline_name(name: &String) -> (r: bool)
    ensures
        r == is_mainline(name@),
{
    *name == String::from_str("main") || *name == String::from_str("master") || *name
        == String::from_str("develop") || *name == String::from_str("dev") || *name
        == String::from_str("local-dev")
}

/// The header line of a root named `name`.
pub fn header_line(name: &String) -> (r: String)
    ensures
        r@ == header(name@),
{
    if is_mainline_name(name) {
        name.clone()
    } else {
        let mut s = String::from_str(RED_START);
        s.append(DETACHED_PREFIX_TEXT);
        s.append(COLOR_RESET);
        s.append(" ");
        s.append(name.as_str());
        s
    }
}

/// Appends to `out` the lines below `node`, each starting with `prefix`.
pub fn print_ascii_tree_recursive(
    branches: &Vec<Branch>,
    forest: &ChildrenForest,
    node: usize,
    prefix: &String,
    fuel: usize,
    out: &mut Vec<String>,
)
    requires
        forest_wf(*forest, branches@.len()),
        node < branches@.len(),
    ensures
        lines_of(final(out)@) == lines_of(old(out)@) + subtree_lines(
            branches@,
            *forest,
            node as int,
            prefix@,
            fuel as nat,
        ),
    decreases fuel,
{
    let ghost start = lines_of(out@);
    if fuel == 0 {
        assert(lines_of(out@) =~= start + seq![]);
        return;
    }
    let kids = &forest.children[node];
    let ghost all = child_lines(branches@, *forest, kids@, 0, prefix@, (fuel - 1) as nat);
    let mut i: usize = 0;
    while i < kids.len()
        invariant
            forest_wf(*forest, branches@.len()),
            node < branches@.len(),
            *kids == forest.children@[node as int],
            i <= kids@.len(),
            0 < fuel,
            lines_of(out@) + child_lines(branches@, *forest, kids@, i as int, prefix@, (fuel - 1) as nat)
                == start + all,
        decreases kids@.len() - i,
    {
        let last = i + 1 == kids.len();
        let k = kids[i];
        assert(forest.kids(node as int)[i as int] == k);
        let mut line = prefix.clone();
        if last {
            line.append("└── ");
        } else {
            line.append("├── ");
        }
        line.append(branches[k].name.as_str());
        let ghost before = lines_of(out@);
        proof {
            lemma_lines_push(out@, line);
        }
        out.push(line);
        let mut deeper = prefix.clone();
        if last {
            deeper.append("    ");
        } else {
            deeper.append("│   ");
        }
        let ghost mid = lines_of(out@);
        print_ascii_tree_recursive(branches, forest, k, &deeper, fuel - 1, out);
        let ghost sub = subtree_lines(branches@, *forest, k as int, deeper@, (fuel - 1) as nat);
        let ghost rest = child_lines(branches@, *forest, kids@, i + 1, prefix@, (fuel - 1) as nat);
        assert(child_lines(branches@, *forest, kids@, i as int, prefix@, (fuel - 1) as nat)
            == seq![line@] + sub + rest);
        assert(lines_of(out@) + rest =~= before + (seq![line@] + sub + rest));
        i = i + 1;
    }
    assert(lines_of(out@) =~= lines_of(out@) + child_lines(
        branches@,
        *forest,
        kids@,
        i as int,
        prefix@,
        (fuel - 1) as nat,
    ));
}

/// Appends to `out` the header and subtree lines of each root in `ids`.
fn print_roots(branches: &Vec<Branch>, forest: &ChildrenForest, ids: &Vec<usize>, out: &mut Vec<String>)
    requires
        forest_wf(*forest, branches@.len()),
        forall|i: int| 0 <= i < ids@.len() ==> #[trigger] ids@[i] < branches@.len(),
    ensures
        lines_of(final(out)@) == lines_of(old(out)@) + root_lines(branches@, *forest, ids@, 0),
{
    let ghost start = lines_of(out@);
    let ghost all = root_lines(branches@, *forest, ids@, 0);
    let mut i: usize = 0;
    while i < ids.len()
        invariant
            forest_wf(*forest, branches@.len()),
            forall|j: int| 0 <= j < ids@.len() ==> #[trigger] ids@[j] < branches@.len(),
            i <= ids@.len(),
            lines_of(out@) + root_lines(branches@, *forest, ids@, i as int) == start + all,
        decreases ids@.len() - i,
    {
        let r = ids[i];
        let line = header_line(&branches[r].name);
        let ghost before = lines_of(out@);
        proof {
            lemma_lines_push(out@, line);
        }
        out.push(line);
        let empty = String::new();
        print_ascii_tree_recursive(branches, forest, r, &empty, branches.len(), out);
        let ghost sub = subtree_lines(branches@, *forest, r as int, seq![], branches@.len());
        let ghost rest = root_lines(branches@, *forest, ids@, i + 1);
        assert(empty@ == Seq::<char>::empty());
        assert(root_lines(branches@, *forest, ids@, i as int) == seq![line@] + sub + rest);
        assert(lines_of(out@) + rest =~= before + (seq![line@] + sub + rest));
        i = i + 1;
    }
    assert(lines_of(out@) =~= lines_of(out@) + root_lines(branches@, *forest, ids@, i as int));
}

/// Renders the branch tree: the roots with their subtrees; where no root was
/// found but some branch has a parent, every name flatly, with a warning;
/// where no branch has a parent, every branch as a root.
pub fn print_tree(
    branches: &Vec<Branch>,
    relation: &ParentRelation,
    forest: &ChildrenForest,
    roots: &Vec<usize>,
) -> (r: TreeOutput)
    requires
        relation.parent_of@.len() == branches@.len(),
        forest_wf(*forest, branches@.len()),
        forall|i: int| 0 <= i < roots@.len() ==> #[trigger] roots@[i] < branches@.len(),
    ensures
        (lines_of(r.lines@), r.warning) == rendered(branches@, relation.parent_of@, *forest, roots@),
{
    let n = branches.len();
    let mut lines: Vec<String> = Vec::new();
    if roots.len() > 0 || n == 0 {
        print_roots(branches, forest, roots, &mut lines);
        assert(lines_of(lines@) =~= root_lines(branches@, *forest, roots@, 0));
        return TreeOutput { lines, warning: false };
    }
    let mut some_parent = false;
    let mut c: usize = 0;
    while c < n
        invariant
            n == branches@.len(),
            relation.parent_of@.len() == n,
            c <= n,
            some_parent == exists|k: int| 0 <= k < c && #[trigger] relation.parent_of@[k] is Some,
            lines_of(lines@) == Seq::new(c as nat, |i: int| branches@[i].name@),
        decreases n - c,
    {
        if relation.parent_of[c].is_some() {
            some_parent = true;
        }
        let name = branches[c].name.clone();
        proof {
            lemma_lines_push(lines@, name);
        }
        lines.push(name);
        assert(lines_of(lines@) =~= Seq::new((c + 1) as nat, |i: int| branches@[i].name@));
        c = c + 1;
    }
    if some_parent {
        assert(lines_of(lines@) =~= all_names(branches@));
        return TreeOutput { lines, warning: true };
    }
    let mut ids: Vec<usize> = Vec::new();
    let mut i: usize = 0;
    while i < n
        invariant
            n == branches@.len(),
            i <= n,
            ids@ == Seq::new(i as nat, |k: int| k as usize),
        decreases n - i,
    {
        ids.push(i);
        assert(ids@ =~= Seq::new((i + 1) as nat, |k: int| k as usize));
        i = i + 1;
    }
    let mut isolated: Vec<String> = Vec::new();
    print_roots(branches, forest, &ids, &mut isolated);
    assert(ids@ =~= all_indices(n as nat));
    assert(lines_of(isolated@) =~= root_lines(branches@, *forest, ids@, 0));
    TreeOutput { lines: isolated, warning: false }
}

} // verus!
