use vstd::prelude::*;

verus! {

/// The identifier of a commit: its raw 20-byte object id.
#[derive(Clone, Copy, Debug)]
pub struct CommitId {
    pub bytes: [u8; 20],
}

impl View for CommitId {
    type V = Seq<u8>;

    open spec fn view(&self) -> Seq<u8> {
        self.bytes@
    }
}

impl CommitId {
    pub fn new(bytes: [u8; 20]) -> (r: CommitId)
        ensures
            r@ == bytes@,
    {
        CommitId { bytes }
    }

    /// Whether two identifiers name the same commit.
    pub fn same(&self, other: &CommitId) -> (r: bool)
        ensures
            r == (self@ == other@),
    {
        let mut i: usize = 0;
        while i < 20
            invariant
                i <= 20,
                self@.len() == 20,
                other@.len() == 20,
                forall|k: int| 0 <= k < i ==> self@[k] == other@[k],
            decreases 20 - i,
        {
            if self.bytes[i] != other.bytes[i] {
                return false;
            }
            i = i + 1;
        }
        assert(self@ =~= other@);
        true
    }
}

/// A local branch: its name and the commit it points at.
#[derive(Clone, Debug)]
pub struct Branch {
    pub name: String,
    pub tip: CommitId,
}

impl Branch {
    pub fn new(name: String, tip: CommitId) -> (r: Branch)
        ensures
            r.name@ == name@,
            r.tip@ == tip@,
    {
        Branch { name, tip }
    }
}

/// Lexicographic order of names, character by character, a proper prefix
/// first: the order of `String`'s comparison.
pub open spec fn name_lt(a: Seq<char>, b: Seq<char>) -> bool
    decreases a.len(),
{
    if b.len() == 0 {
        false
    } else if a.len() == 0 {
        true
    } else if a[0] != b[0] {
        a[0] < b[0]
    } else {
        name_lt(a.drop_first(), b.drop_first())
    }
}

pub proof fn lemma_name_lt_irreflexive(a: Seq<char>)
    ensures
        !name_lt(a, a),
    decreases a.len(),
{
    if a.len() > 0 {
        lemma_name_lt_irreflexive(a.drop_first());
    }
}

pub proof fn lemma_name_lt_total(a: Seq<char>, b: Seq<char>)
    ensures
        a != b ==> name_lt(a, b) || name_lt(b, a),
    decreases a.len(),
{
    if a.len() > 0 && b.len() > 0 && a[0] == b[0] {
        lemma_name_lt_total(a.drop_first(), b.drop_first());
        if a.drop_first() == b.drop_first() {
            assert(a =~= seq![a[0]] + a.drop_first());
            assert(b =~= seq![b[0]] + b.drop_first());
        }
    } else if a.len() == 0 && b.len() == 0 {
        assert(a =~= b);
    } else if a.len() > 0 && b.len() > 0 {
        assert(a[0] < b[0] || b[0] < a[0]);
    }
}

pub proof fn lemma_name_lt_transitive(a: Seq<char>, b: Seq<char>, c: Seq<char>)
    requires
        name_lt(a, b),
        name_lt(b, c),
    ensures
        name_lt(a, c),
    decreases a.len(),
{
    if a.len() > 0 && a[0] == b[0] && b[0] == c[0] {
        lemma_name_lt_transitive(a.drop_first(), b.drop_first(), c.drop_first());
    }
}

proof fn lemma_name_lt_skip(a: Seq<char>, b: Seq<char>, i: int)
    requires
        0 <= i < a.len(),
        i < b.len(),
        a[i] == b[i],
    ensures
        name_lt(a.skip(i), b.skip(i)) == name_lt(a.skip(i + 1), b.skip(i + 1)),
{
    assert(a.skip(i).drop_first() =~= a.skip(i + 1));
    assert(b.skip(i).drop_first() =~= b.skip(i + 1));
}

/// Whether name `a` sorts before name `b`.
pub fn name_less(a: &String, b: &String) -> (r: bool)
    ensures
        r == name_lt(a@, b@),
{
    let sa = a.as_str();
    let sb = b.as_str();
    let la = sa.unicode_len();
    let lb = sb.unicode_len();
    let mut i: usize = 0;
    assert(a@.skip(0) =~= a@);
    assert(b@.skip(0) =~= b@);
    while i < la && i < lb
        invariant
            la == a@.len(),
            lb == b@.len(),
            sa@ == a@,
            sb@ == b@,
            i <= la,
            i <= lb,
            name_lt(a@, b@) == name_lt(a@.skip(i as int), b@.skip(i as int)),
        decreases la - i,
    {
        let ca = sa.get_char(i);
        let cb = sb.get_char(i);
        if ca != cb {
            assert(a@.skip(i as int)[0] == ca);
            assert(b@.skip(i as int)[0] == cb);
            return ca < cb;
        }
        proof {
            lemma_name_lt_skip(a@, b@, i as int);
        }
        i = i + 1;
    }
    i == la && i < lb
}

/// Names strictly ascending: the order in which a branch set is processed.
pub open spec fn sorted_by_name(bs: Seq<Branch>) -> bool {
    forall|i: int, j: int| 0 <= i < j < bs.len() ==> name_lt(#[trigger] bs[i].name@, #[trigger] bs[j].name@)
}

/// No two branches share a name.
pub open spec fn names_unique(bs: Seq<Branch>) -> bool {
    forall|i: int, j: int| 0 <= i < bs.len() && 0 <= j < bs.len() && i != j ==> #[trigger] bs[i].name@ != #[trigger] bs[j].name@
}

/// Whether no two branches share a name.
pub fn has_unique_names(branches: &Vec<Branch>) -> (r: bool)
    ensures
        r == names_unique(branches@),
{
    let n = branches.len();
    let mut i: usize = 0;
    while i < n
        invariant
            n == branches@.len(),
            i <= n,
            forall|a: int, b: int| 0 <= a < i && 0 <= b < n && a != b ==> #[trigger] branches@[a].name@ != #[trigger] branches@[b].name@,
        decreases n - i,
    {
        let mut j: usize = 0;
        while j < n
            invariant
                n == branches@.len(),
                i < n,
                j <= n,
                forall|a: int, b: int| 0 <= a < i && 0 <= b < n && a != b ==> #[trigger] branches@[a].name@ != #[trigger] branches@[b].name@,
                forall|b: int| 0 <= b < j && b != i ==> branches@[i as int].name@ != #[trigger] branches@[b].name@,
            decreases n - j,
        {
            if i != j && branches[i].name == branches[j].name {
                return false;
            }
            j = j + 1;
        }
        i = i + 1;
    }
    true
}

/// `perm` sends each place of `r` to a distinct place of `s` that holds the
/// same branch, and reaches every place of `s`.
pub open spec fn places(r: Seq<Branch>, s: Seq<Branch>, perm: Seq<int>) -> bool {
    &&& perm.len() == r.len()
    &&& forall|k: int| 0 <= k < r.len() ==> 0 <= #[trigger] perm[k] < s.len() && r[k] == s[perm[k]]
    &&& forall|k1: int, k2: int| 0 <= k1 < r.len() && 0 <= k2 < r.len() && k1 != k2 ==> #[trigger] perm[k1] != #[trigger] perm[k2]
    &&& forall|v: int| 0 <= v < s.len() ==> #[trigger] hits(perm, v)
}

/// Some place of `perm` holds `v`.
pub open spec fn hits(perm: Seq<int>, v: int) -> bool {
    exists|k: int| 0 <= k < perm.len() && perm[k] == v
}

/// `r` holds the branches of `s`, each once, in some order.
pub open spec fn is_reordering(r: Seq<Branch>, s: Seq<Branch>) -> bool {
    &&& r.len() == s.len()
    &&& exists|perm: Seq<int>| places(r, s, perm)
}

/// Sorts a set of branches by name, ascending.
pub fn sort_by_name(branches: Vec<Branch>) -> (r: Vec<Branch>)
    requires
        names_unique(branches@),
    ensures
        sorted_by_name(r@),
        is_reordering(r@, branches@),
{
    let ghost input = branches@;
    let mut rest = branches;
    let mut sorted: Vec<Branch> = Vec::new();
    let ghost mut perm: Seq<int> = Seq::empty();
    while rest.len() > 0
        invariant
            names_unique(input),
            rest@ == input.subrange(0, rest@.len() as int),
            sorted@.len() + rest@.len() == input.len(),
            sorted_by_name(sorted@),
            perm.len() == sorted@.len(),
            forall|k: int| 0 <= k < sorted@.len() ==> 0 <= #[trigger] perm[k] < input.len() && sorted@[k] == input[perm[k]],
            forall|k1: int, k2: int| 0 <= k1 < sorted@.len() && 0 <= k2 < sorted@.len() && k1 != k2 ==> #[trigger] perm[k1] != #[trigger] perm[k2],
            forall|v: int| rest@.len() <= v < input.len() ==> #[trigger] hits(perm, v),
            forall|k: int| 0 <= k < perm.len() ==> #[trigger] perm[k] >= rest@.len(),
        decreases rest@.len(),
    {
        let ghost m = rest@.len() - 1;
        let x = rest.pop().unwrap();
        assert(x == input[m]);
        let mut pos: usize = 0;
        while pos < sorted.len() && name_less(&sorted[pos].name, &x.name)
            invariant
                pos <= sorted@.len(),
                forall|k: int| 0 <= k < pos ==> name_lt(#[trigger] sorted@[k].name@, x.name@),
            decreases sorted@.len() - pos,
        {
            pos = pos + 1;
        }
        let ghost old_sorted = sorted@;
        let ghost old_perm = perm;
        proof {
            if pos < old_sorted.len() {
                let q = perm[pos as int];
                assert(old_sorted[pos as int] == input[q]);
                assert(q != m);
                assert(old_sorted[pos as int].name@ != x.name@);
                lemma_name_lt_total(old_sorted[pos as int].name@, x.name@);
                assert forall|k: int| pos < k < old_sorted.len() implies name_lt(x.name@, #[trigger] old_sorted[k].name@) by {
                    lemma_name_lt_transitive(x.name@, old_sorted[pos as int].name@, old_sorted[k].name@);
                }
            }
        }
        sorted.insert(pos, x);
        proof {
            perm = perm.insert(pos as int, m);
            assert(rest@ =~= input.subrange(0, rest@.len() as int));
            assert forall|i: int, j: int| 0 <= i < j < sorted@.len() implies name_lt(#[trigger] sorted@[i].name@, #[trigger] sorted@[j].name@) by {
                if i < pos && j > pos {
                    assert(sorted@[i] == old_sorted[i]);
                    assert(sorted@[j] == old_sorted[j - 1]);
                    lemma_name_lt_transitive(old_sorted[i].name@, x.name@, old_sorted[j - 1].name@);
                } else if i < pos && j < pos {
                    assert(sorted@[i] == old_sorted[i]);
                    assert(sorted@[j] == old_sorted[j]);
                } else if i > pos {
                    assert(sorted@[i] == old_sorted[i - 1]);
                    assert(sorted@[j] == old_sorted[j - 1]);
                }
            }
            assert forall|k: int| 0 <= k < sorted@.len() implies 0 <= #[trigger] perm[k] < input.len() && sorted@[k] == input[perm[k]] by {
                if k < pos {
                    assert(sorted@[k] == old_sorted[k]);
                } else if k > pos {
                    assert(sorted@[k] == old_sorted[k - 1]);
                }
            }
            assert forall|k: int| 0 <= k < perm.len() implies #[trigger] perm[k] >= rest@.len() by {}
            assert forall|v: int| rest@.len() <= v < input.len() implies #[trigger] hits(perm, v) by {
                if v == m {
                    assert(perm[pos as int] == v);
                } else {
                    assert(hits(old_perm, v));
                    let k0 = choose|k: int| 0 <= k < old_perm.len() && old_perm[k] == v;
                    if k0 < pos {
                        assert(perm[k0] == v);
                    } else {
                        assert(perm[k0 + 1] == v);
                    }
                }
            }
        }
    }
    assert(places(sorted@, input, perm));
    sorted
}

/// Sorting does not depend on the order of its input: two reorderings of
/// one branch set that are both sorted by name are the same sequence.
pub proof fn lemma_sorted_reordering_unique(s: Seq<Branch>, r1: Seq<Branch>, r2: Seq<Branch>)
    requires
        sorted_by_name(r1),
        sorted_by_name(r2),
        is_reordering(r1, s),
        is_reordering(r2, s),
    ensures
        r1 == r2,
{
    let p1 = choose|perm: Seq<int>| places(r1, s, perm);
    let p2 = choose|perm: Seq<int>| places(r2, s, perm);
    assert forall|k: int| 0 <= k < r1.len() implies r1[k] == r2[k] by {
        lemma_same_place(s, r1, r2, p1, p2, k);
    }
    assert(r1 =~= r2);
}

proof fn lemma_same_place(s: Seq<Branch>, r1: Seq<Branch>, r2: Seq<Branch>, p1: Seq<int>, p2: Seq<int>, k: int)
    requires
        sorted_by_name(r1),
        sorted_by_name(r2),
        r1.len() == s.len(),
        r2.len() == s.len(),
        places(r1, s, p1),
        places(r2, s, p2),
        0 <= k < r1.len(),
    ensures
        forall|i: int| 0 <= i <= k ==> #[trigger] r1[i] == r2[i],
    decreases k,
{
    if k > 0 {
        lemma_same_place(s, r1, r2, p1, p2, k - 1);
    }
    let a = p1[k];
    let b = p2[k];
    assert(hits(p2, a));
    assert(hits(p1, b));
    let j2 = choose|j: int| 0 <= j < p2.len() && p2[j] == a;
    let j1 = choose|j: int| 0 <= j < p1.len() && p1[j] == b;
    assert(r2[j2] == r1[k]);
    assert(r1[j1] == r2[k]);
    if j2 < k {
        assert(r1[j2] == r2[j2]);
        assert(name_lt(r1[j2].name@, r1[k].name@));
        lemma_name_lt_irreflexive(r1[k].name@);
    }
    if j1 < k {
        assert(r2[j1] == r1[j1]);
        assert(name_lt(r2[j1].name@, r2[k].name@));
        lemma_name_lt_irreflexive(r2[k].name@);
    }
    if j2 > k && j1 > k {
        assert(name_lt(r2[k].name@, r2[j2].name@));
        assert(name_lt(r1[k].name@, r1[j1].name@));
        lemma_name_lt_transitive(r2[k].name@, r1[k].name@, r2[k].name@);
        lemma_name_lt_irreflexive(r2[k].name@);
    }
}

} // verus!
