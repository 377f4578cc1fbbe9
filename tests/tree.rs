use branch_tree::branch::{has_unique_names, name_less, sort_by_name, Branch, CommitId};
use branch_tree::forest::build_children_and_roots;
use branch_tree::render::{header_line, print_tree, TreeOutput};
use branch_tree::resolve::{nearest_parent_of, resolve, AncestorTable, ParentRelation};
use branch_tree::tree::tree_from_table;

fn commit(k: u8) -> CommitId {
    CommitId::new([k; 20])
}

fn branch(name: &str, k: u8) -> Branch {
    Branch::new(name.to_string(), commit(k))
}

/// A commit graph for tests: `parents[k]` is the parent of commit `k`.
/// The common ancestor of two commits is the first ancestor of the second
/// that is also an ancestor of the first (each commit counts as its own
/// ancestor).
fn graph_base(parents: &[Option<u8>], a: u8, b: u8) -> Option<u8> {
    let mut ancestors_of_a = Vec::new();
    let mut x = Some(a);
    while let Some(c) = x {
        ancestors_of_a.push(c);
        x = parents[c as usize];
    }
    let mut y = Some(b);
    while let Some(c) = y {
        if ancestors_of_a.contains(&c) {
            return Some(c);
        }
        y = parents[c as usize];
    }
    None
}

fn table_for(branches: &[Branch], parents: &[Option<u8>]) -> AncestorTable {
    let mut bases = Vec::new();
    for a in branches {
        let mut row = Vec::new();
        for b in branches {
            if a.tip.same(&b.tip) {
                row.push(None);
            } else {
                row.push(graph_base(parents, a.tip.bytes[0], b.tip.bytes[0]).map(commit));
            }
        }
        bases.push(row);
    }
    AncestorTable { bases }
}

fn lines(out: &TreeOutput) -> Vec<String> {
    out.lines.clone()
}

const DETACHED: &str = "\x1b[91m(detached)\x1b[0m ";

#[test]
fn feature_branch_scenario() {
    // Commits: 0 = A, 1 = A + one, 2 = that + one.
    let parents = [None, Some(0), Some(1)];
    let branches = sort_by_name(vec![branch("main", 0), branch("feature-x", 1), branch("feature-x-sub", 2)]);
    let names: Vec<&str> = branches.iter().map(|b| b.name.as_str()).collect();
    assert_eq!(names, vec!["feature-x", "feature-x-sub", "main"]);
    let table = table_for(&branches, &parents);
    let rel = resolve(&branches, &table);
    assert_eq!(rel.parent_of, vec![Some(2), Some(0), None]);
    let out = tree_from_table(&branches, &table);
    assert!(!out.warning);
    assert_eq!(lines(&out), vec!["main", "└── feature-x", "    └── feature-x-sub"]);
}

#[test]
fn unrelated_histories_scenario() {
    let parents = [None, None];
    let branches = sort_by_name(vec![branch("orphan", 1), branch("main", 0)]);
    let table = table_for(&branches, &parents);
    let rel = resolve(&branches, &table);
    assert_eq!(rel.parent_of, vec![None, None]);
    let built = build_children_and_roots(&branches, &rel);
    assert_eq!(built.roots, vec![0, 1]);
    let out = tree_from_table(&branches, &table);
    assert!(!out.warning);
    assert_eq!(lines(&out), vec!["main".to_string(), format!("{}orphan", DETACHED)]);
}

#[test]
fn no_branches_no_output() {
    let branches: Vec<Branch> = Vec::new();
    let table = AncestorTable { bases: Vec::new() };
    let out = tree_from_table(&branches, &table);
    assert!(out.lines.is_empty());
    assert!(!out.warning);
}

#[test]
fn all_unrelated_branches_are_headers() {
    let parents = [None, None, None, None];
    let branches = sort_by_name(vec![branch("dev", 0), branch("zeta", 1), branch("alpha", 2), branch("master", 3)]);
    let table = table_for(&branches, &parents);
    let out = tree_from_table(&branches, &table);
    assert_eq!(
        lines(&out),
        vec![format!("{}alpha", DETACHED), "dev".to_string(), "master".to_string(), format!("{}zeta", DETACHED)]
    );
}

#[test]
fn linear_chain_nests_one_level_per_branch() {
    // Commits 0 <- 1 <- 2 <- 3; names deliberately not in history order.
    let parents = [None, Some(0), Some(1), Some(2)];
    let branches = sort_by_name(vec![branch("d", 0), branch("b", 1), branch("c", 2), branch("a", 3)]);
    let table = table_for(&branches, &parents);
    let rel = resolve(&branches, &table);
    // a (at 3) descends from c (at 2), c from b (at 1), b from d (at 0).
    assert_eq!(rel.parent_of, vec![Some(2), Some(3), Some(1), None]);
    let built = build_children_and_roots(&branches, &rel);
    assert_eq!(built.roots, vec![3]);
    let out = tree_from_table(&branches, &table);
    assert_eq!(
        lines(&out),
        vec![format!("{}d", DETACHED), "└── b".to_string(), "    └── c".to_string(), "        └── a".to_string()]
    );
}

#[test]
fn same_tip_branches_are_not_related() {
    let parents = [None];
    let branches = sort_by_name(vec![branch("main", 0), branch("copy", 0)]);
    let table = table_for(&branches, &parents);
    let rel = resolve(&branches, &table);
    assert_eq!(rel.parent_of, vec![None, None]);
    assert_eq!(lines(&tree_from_table(&branches, &table)), vec![format!("{}copy", DETACHED), "main".to_string()]);
}

#[test]
fn same_tip_ancestors_first_one_kept() {
    // main and base both at commit 0; topic at commit 1 on top of it.
    let parents = [None, Some(0)];
    let branches = sort_by_name(vec![branch("main", 0), branch("base", 0), branch("topic", 1)]);
    let table = table_for(&branches, &parents);
    let rel = resolve(&branches, &table);
    assert_eq!(rel.parent_of, vec![None, None, Some(0)]);
}

#[test]
fn diverged_ancestors_first_in_order_wins() {
    // 0 is the root; 1 and 2 diverge from it; 3 merges... modelled as an
    // oracle where both 1 and 2 are ancestors of 3 but unrelated to each other.
    let branches = vec![branch("left", 1), branch("right", 2), branch("tip", 3)];
    let mut bases = vec![vec![None; 3]; 3];
    bases[0][2] = Some(commit(1));
    bases[1][2] = Some(commit(2));
    bases[2][0] = Some(commit(1));
    bases[2][1] = Some(commit(2));
    let table = AncestorTable { bases };
    assert_eq!(nearest_parent_of(&branches, &table, 2), Some(0));
    let rel = resolve(&branches, &table);
    assert_eq!(rel.parent_of, vec![None, None, Some(0)]);
}

#[test]
fn closer_ancestor_replaces_earlier_one() {
    // 0 <- 1 <- 2: for the branch at 2, "a" (at 0) is met first, then "b" (at 1).
    let parents = [None, Some(0), Some(1)];
    let branches = vec![branch("a", 0), branch("b", 1), branch("c", 2)];
    let table = table_for(&branches, &parents);
    assert_eq!(nearest_parent_of(&branches, &table, 2), Some(1));
}

#[test]
fn resolving_twice_gives_the_same_relation() {
    let parents = [None, Some(0), Some(0), Some(1)];
    let branches = sort_by_name(vec![branch("main", 0), branch("x", 1), branch("y", 2), branch("z", 3)]);
    let table = table_for(&branches, &parents);
    assert_eq!(resolve(&branches, &table).parent_of, resolve(&branches, &table).parent_of);
}

#[test]
fn children_and_roots_are_sorted() {
    // Parent relation given out of any particular order.
    let branches = sort_by_name(vec![branch("r", 0), branch("c", 1), branch("a", 2), branch("b", 3), branch("q", 4)]);
    // sorted: a, b, c, q, r
    let rel = ParentRelation { parent_of: vec![Some(4), None, Some(4), None, None] };
    let built = build_children_and_roots(&branches, &rel);
    assert_eq!(built.forest.children[4], vec![0, 2]);
    assert!(built.forest.children[0].is_empty());
    assert_eq!(built.roots, vec![1, 3, 4]);
}

#[test]
fn siblings_use_tee_and_bar_connectors() {
    let parents = [None, Some(0), Some(0), Some(1)];
    let branches = sort_by_name(vec![branch("main", 0), branch("x", 1), branch("y", 2), branch("x2", 3)]);
    let table = table_for(&branches, &parents);
    let out = tree_from_table(&branches, &table);
    assert_eq!(lines(&out), vec!["main", "├── x", "│   └── x2", "└── y"]);
}

#[test]
fn cycle_without_roots_prints_flat_with_warning() {
    let branches = vec![branch("a", 0), branch("b", 1)];
    let rel = ParentRelation { parent_of: vec![Some(1), Some(0)] };
    let built = build_children_and_roots(&branches, &rel);
    assert!(built.roots.is_empty());
    let out = print_tree(&branches, &rel, &built.forest, &built.roots);
    assert!(out.warning);
    assert_eq!(lines(&out), vec!["a", "b"]);
}

#[test]
fn no_roots_and_no_parents_prints_every_branch_as_root() {
    let branches = vec![branch("main", 0), branch("topic", 1)];
    let rel = ParentRelation { parent_of: vec![None, None] };
    let built = build_children_and_roots(&branches, &rel);
    let out = print_tree(&branches, &rel, &built.forest, &Vec::new());
    assert!(!out.warning);
    assert_eq!(lines(&out), vec!["main".to_string(), format!("{}topic", DETACHED)]);
}

#[test]
fn mainline_names_are_bare() {
    for name in ["main", "master", "develop", "dev", "local-dev"] {
        assert_eq!(header_line(&name.to_string()), name);
    }
    assert_eq!(header_line(&"mainline".to_string()), format!("{}mainline", DETACHED));
    assert_eq!(header_line(&"Main".to_string()), format!("{}Main", DETACHED));
}

#[test]
fn names_compare_lexicographically() {
    assert!(name_less(&"a".to_string(), &"ab".to_string()));
    assert!(!name_less(&"ab".to_string(), &"a".to_string()));
    assert!(name_less(&"ab".to_string(), &"b".to_string()));
    assert!(!name_less(&"b".to_string(), &"b".to_string()));
    assert!(name_less(&"".to_string(), &"a".to_string()));
    assert!(name_less(&"Z".to_string(), &"a".to_string()));
    assert!(name_less(&"feature-x".to_string(), &"feature-x-sub".to_string()));
}

#[test]
fn sort_orders_by_name() {
    let sorted = sort_by_name(vec![branch("m", 0), branch("b", 1), branch("z", 2), branch("a", 3)]);
    let names: Vec<&str> = sorted.iter().map(|b| b.name.as_str()).collect();
    assert_eq!(names, vec!["a", "b", "m", "z"]);
    assert_eq!(sorted[0].tip.bytes, [3; 20]);
}

#[test]
fn unique_names_are_detected() {
    assert!(has_unique_names(&vec![branch("a", 0), branch("b", 0)]));
    assert!(!has_unique_names(&vec![branch("a", 0), branch("b", 1), branch("a", 2)]));
    assert!(has_unique_names(&Vec::new()));
}

#[test]
fn commit_ids_compare_by_bytes() {
    let mut bytes = [7u8; 20];
    assert!(commit(7).same(&CommitId::new(bytes)));
    bytes[19] = 8;
    assert!(!commit(7).same(&CommitId::new(bytes)));
}

#[test]
fn enumeration_order_does_not_change_the_tree() {
    let parents = [None, Some(0), Some(0), Some(1)];
    let one = sort_by_name(vec![branch("main", 0), branch("x", 1), branch("y", 2), branch("x2", 3)]);
    let other = sort_by_name(vec![branch("x2", 3), branch("y", 2), branch("main", 0), branch("x", 1)]);
    let names_one: Vec<&str> = one.iter().map(|b| b.name.as_str()).collect();
    let names_other: Vec<&str> = other.iter().map(|b| b.name.as_str()).collect();
    assert_eq!(names_one, names_other);
    let out_one = tree_from_table(&one, &table_for(&one, &parents));
    let out_other = tree_from_table(&other, &table_for(&other, &parents));
    assert_eq!(out_one.lines, out_other.lines);
}
