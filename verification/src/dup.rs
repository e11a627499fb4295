//! Cross-tree duplicate detection: enumerate every node of an entry tree
//! with its path, group nodes by summary, and filter groups already implied
//! by an ancestor directory group.

use vstd::prelude::*;
use vstd::set::Set;

use crate::tree::{Dir, Entry, EntryInfo, EntryKind};

verus! {

broadcast use vstd::seq::group_seq_axioms, vstd::seq_lib::group_to_multiset_ensures,
    vstd::std_specs::vec::group_vec_axioms, vstd::set::group_set_axioms;

/// A path is the sequence of names leading from a scan root to an entry;
/// the root itself has the empty path.
pub open spec fn path_view(p: Vec<Vec<u8>>) -> Seq<Seq<u8>> {
    Seq::new(p@.len(), |i: int| p@[i]@)
}

/// The paths of a group, each abstracted to its sequence of names.
pub open spec fn paths_view(ps: Vec<Vec<Vec<u8>>>) -> Seq<Seq<Seq<u8>>> {
    Seq::new(ps@.len(), |i: int| path_view(ps@[i]))
}

/// A set of two or more distinct paths sharing one entry summary.
pub struct DupGroup {
    pub info: EntryInfo,
    pub paths: Vec<Vec<Vec<u8>>>,
}

pub(crate) fn clone_name(a: &Vec<u8>) -> (r: Vec<u8>)
    ensures
        r@ == a@,
{
    let mut r: Vec<u8> = Vec::new();
    let mut i: usize = 0;
    while i < a.len()
        invariant
            i <= a@.len(),
            r@ == a@.take(i as int),
        decreases a@.len() - i,
    {
        proof {
            assert(a@.take(i + 1) =~= a@.take(i as int).push(a@[i as int]));
        }
        r.push(a[i]);
        i = i + 1;
    }
    proof {
        assert(a@.take(i as int) =~= a@);
    }
    r
}

pub(crate) fn clone_path(a: &Vec<Vec<u8>>) -> (r: Vec<Vec<u8>>)
    ensures
        path_view(r) == path_view(*a),
{
    let mut r: Vec<Vec<u8>> = Vec::new();
    let mut i: usize = 0;
    while i < a.len()
        invariant
            i <= a@.len(),
            path_view(r) == path_view(*a).take(i as int),
        decreases a@.len() - i,
    {
        let ghost prev = path_view(r);
        let name = clone_name(&a[i]);
        r.push(name);
        proof {
            assert(path_view(r) =~= prev.push(a@[i as int]@));
            assert(path_view(*a).take(i + 1) =~= path_view(*a).take(i as int).push(
                a@[i as int]@,
            ));
        }
        i = i + 1;
    }
    proof {
        assert(path_view(*a).take(i as int) =~= path_view(*a));
    }
    r
}

/// Do two paths name the same sequence of components?
pub(crate) fn path_eq(a: &Vec<Vec<u8>>, b: &Vec<Vec<u8>>) -> (r: bool)
    ensures
        r == (path_view(*a) == path_view(*b)),
{
    if a.len() != b.len() {
        proof {
            assert(path_view(*a).len() != path_view(*b).len());
        }
        return false;
    }
    let mut i: usize = 0;
    while i < a.len()
        invariant
            i <= a@.len(),
            a@.len() == b@.len(),
            forall|k: int| 0 <= k < i ==> path_view(*a)[k] == path_view(*b)[k],
        decreases a@.len() - i,
    {
        if !name_eq(&a[i], &b[i]) {
            proof {
                assert(path_view(*a)[i as int] != path_view(*b)[i as int]);
            }
            return false;
        }
        i = i + 1;
    }
    proof {
        assert(path_view(*a) =~= path_view(*b));
    }
    true
}

pub(crate) fn name_eq(a: &Vec<u8>, b: &Vec<u8>) -> (r: bool)
    ensures
        r == (a@ == b@),
{
    if a.len() != b.len() {
        return false;
    }
    let mut i: usize = 0;
    while i < a.len()
        invariant
            i <= a@.len(),
            a@.len() == b@.len(),
            forall|k: int| 0 <= k < i ==> a@[k] == b@[k],
        decreases a@.len() - i,
    {
        if a[i] != b[i] {
            return false;
        }
        i = i + 1;
    }
    proof {
        assert(a@ =~= b@);
    }
    true
}

/// Every node of the subtree rooted at `e`, paired with its path: the node
/// itself first, then each child's subtree in name order.
pub open spec fn nodes_spec(e: Entry, prefix: Seq<Seq<u8>>) -> Seq<(EntryInfo, Seq<Seq<u8>>)>
    decreases e,
{
    seq![(e.info_spec(), prefix)] + match e {
        Entry::File(_) => Seq::empty(),
        Entry::Dir(d) => nodes_children(d.entries@, prefix),
    }
}

pub open spec fn nodes_children(entries: Seq<(Vec<u8>, Entry)>, prefix: Seq<Seq<u8>>) -> Seq<
    (EntryInfo, Seq<Seq<u8>>),
>
    decreases entries,
{
    if entries.len() == 0 {
        Seq::empty()
    } else {
        nodes_children(entries.drop_last(), prefix) + nodes_spec(
            entries.last().1,
            prefix.push(entries.last().0@),
        )
    }
}

proof fn lemma_nodes_children_take_succ(
    entries: Seq<(Vec<u8>, Entry)>,
    i: int,
    prefix: Seq<Seq<u8>>,
)
    requires
        0 <= i < entries.len(),
    ensures
        nodes_children(entries.take(i + 1), prefix) == nodes_children(entries.take(i), prefix)
            + nodes_spec(entries[i].1, prefix.push(entries[i].0@)),
{
    assert(entries.take(i + 1).drop_last() =~= entries.take(i));
    assert(entries.take(i + 1).last() == entries[i]);
}

/// The node summaries and paths of the exec pair list.
pub open spec fn pairs_view(s: Seq<(EntryInfo, Vec<Vec<u8>>)>) -> Seq<(EntryInfo, Seq<Seq<u8>>)> {
    Seq::new(s.len(), |i: int| (s[i].0, path_view(s[i].1)))
}

/// The set of paths that the enumerated nodes pair with a given summary.
pub open spec fn paths_for(pairs: Seq<(EntryInfo, Seq<Seq<u8>>)>, info: EntryInfo) -> Set<
    Seq<Seq<u8>>,
> {
    Set::new(|q: Seq<Seq<u8>>| exists|k: int| 0 <= k < pairs.len() && pairs[k] == (info, q))
}

/// One reported group is sound: its paths are exactly the distinct paths the
/// enumeration pairs with its summary, listed once each, and there are at
/// least two of them.
pub open spec fn group_ok(pairs: Seq<(EntryInfo, Seq<Seq<u8>>)>, g: DupGroup) -> bool {
    &&& paths_view(g.paths).to_set() == paths_for(pairs, g.info)
    &&& paths_view(g.paths).no_duplicates()
    &&& paths_view(g.paths).len() >= 2
}

/// The reported groups are exactly the summaries that occur at two or more
/// distinct paths, each summary reported once, with its full path set.
pub open spec fn duplicates_ok(pairs: Seq<(EntryInfo, Seq<Seq<u8>>)>, groups: Seq<DupGroup>) -> bool {
    &&& forall|g: int| 0 <= g < groups.len() ==> group_ok(pairs, #[trigger] groups[g])
    &&& forall|g1: int, g2: int|
        0 <= g1 < g2 < groups.len() ==> (#[trigger] groups[g1]).info != (#[trigger] groups[g2]).info
    &&& forall|i: int, j: int|
        0 <= i < pairs.len() && 0 <= j < pairs.len() && (#[trigger] pairs[i]).0 == (
        #[trigger] pairs[j]).0 && pairs[i].1 != pairs[j].1 ==> exists|g: int|
            0 <= g < groups.len() && (#[trigger] groups[g]).info == pairs[i].0
}

proof fn lemma_paths_for_take_succ(pairs: Seq<(EntryInfo, Seq<Seq<u8>>)>, i: int, info: EntryInfo)
    requires
        0 <= i < pairs.len(),
    ensures
        info == pairs[i].0 ==> paths_for(pairs.take(i + 1), info) == paths_for(
            pairs.take(i),
            info,
        ).insert(pairs[i].1),
        info != pairs[i].0 ==> paths_for(pairs.take(i + 1), info) == paths_for(pairs.take(i), info),
{
    let a = paths_for(pairs.take(i + 1), info);
    let b = paths_for(pairs.take(i), info);
    if info == pairs[i].0 {
        assert forall|q: Seq<Seq<u8>>| a.contains(q) implies b.insert(pairs[i].1).contains(q) by {
            let k = choose|k: int|
                0 <= k < pairs.take(i + 1).len() && #[trigger] pairs.take(i + 1)[k] == (info, q);
            if k < i {
                assert(pairs.take(i)[k] == (info, q));
            }
        }
        assert forall|q: Seq<Seq<u8>>| b.insert(pairs[i].1).contains(q) implies a.contains(q) by {
            if q == pairs[i].1 && info == pairs[i].0 {
                assert(pairs.take(i + 1)[i] == (info, q));
            } else if b.contains(q) {
                let k = choose|k: int| 0 <= k < pairs.take(i).len() && #[trigger] pairs.take(i)[k] == (info, q);
                assert(pairs.take(i + 1)[k] == (info, q));
            }
        }
        assert(a =~= b.insert(pairs[i].1));
    } else {
        assert forall|q: Seq<Seq<u8>>| a.contains(q) implies b.contains(q) by {
            let k = choose|k: int|
                0 <= k < pairs.take(i + 1).len() && #[trigger] pairs.take(i + 1)[k] == (info, q);
            assert(k != i);
            assert(pairs.take(i)[k] == (info, q));
        }
        assert forall|q: Seq<Seq<u8>>| b.contains(q) implies a.contains(q) by {
            let k = choose|k: int| 0 <= k < pairs.take(i).len() && #[trigger] pairs.take(i)[k] == (info, q);
            assert(pairs.take(i + 1)[k] == (info, q));
        }
        assert(a =~= b);
    }
}

proof fn lemma_to_set_push(s: Seq<Seq<Seq<u8>>>, x: Seq<Seq<u8>>)
    ensures
        s.push(x).to_set() == s.to_set().insert(x),
        s.no_duplicates() && !s.contains(x) ==> s.push(x).no_duplicates(),
{
    assert forall|q: Seq<Seq<u8>>| s.push(x).to_set().contains(q) implies s.to_set().insert(
        x,
    ).contains(q) by {
        let k = choose|k: int| 0 <= k < s.push(x).len() && s.push(x)[k] == q;
        if k < s.len() {
            assert(s[k] == q);
        }
    }
    assert forall|q: Seq<Seq<u8>>| s.to_set().insert(x).contains(q) implies s.push(
        x,
    ).to_set().contains(q) by {
        if q == x {
            assert(s.push(x)[s.len() as int] == q);
        } else {
            let k = choose|k: int| 0 <= k < s.len() && s[k] == q;
            assert(s.push(x)[k] == q);
        }
    }
    assert(s.push(x).to_set() =~= s.to_set().insert(x));
    if s.no_duplicates() && !s.contains(x) {
        assert forall|a: int, b: int| 0 <= a < b < s.push(x).len() implies s.push(x)[a] != s.push(
            x,
        )[b] by {
            if b == s.len() {
                assert(s.push(x)[a] == s[a]);
                assert(s.push(x)[b] == x);
            }
        }
    }
}

/// Does the list hold a path with these components?
pub(crate) fn contains_path(list: &Vec<Vec<Vec<u8>>>, p: &Vec<Vec<u8>>) -> (r: bool)
    ensures
        r == paths_view(*list).contains(path_view(*p)),
{
    let mut i: usize = 0;
    while i < list.len()
        invariant
            i <= list@.len(),
            forall|k: int| 0 <= k < i ==> paths_view(*list)[k] != path_view(*p),
        decreases list@.len() - i,
    {
        if path_eq(&list[i], p) {
            assert(paths_view(*list)[i as int] == path_view(*p));
            return true;
        }
        i = i + 1;
    }
    false
}

fn find_group(groups: &Vec<DupGroup>, info: EntryInfo) -> (r: Option<usize>)
    ensures
        match r {
            Some(g) => g < groups@.len() && groups@[g as int].info == info,
            None => forall|g: int| 0 <= g < groups@.len() ==> (#[trigger] groups@[g]).info != info,
        },
{
    let mut i: usize = 0;
    while i < groups.len()
        invariant
            i <= groups@.len(),
            forall|g: int| 0 <= g < i ==> (#[trigger] groups@[g]).info != info,
        decreases groups@.len() - i,
    {
        if groups[i].info == info {
            return Some(i);
        }
        i = i + 1;
    }
    None
}

impl Entry {
    /// Appends to `out` every node of this subtree with its path under
    /// `prefix`, in the canonical (pre-order, name-sorted) enumeration.
    fn collect_nodes(&self, prefix: Vec<Vec<u8>>, out: &mut Vec<(EntryInfo, Vec<Vec<u8>>)>)
        ensures
            pairs_view(final(out)@) == pairs_view(old(out)@) + nodes_spec(
                *self,
                path_view(prefix),
            ),
        decreases *self,
    {
        let ghost base = pairs_view(out@);
        let ghost pv = path_view(prefix);
        match self {
            Entry::File(info) => {
                out.push((*info, prefix));
                proof {
                    assert(nodes_spec(*self, pv) =~= seq![(self.info_spec(), pv)]);
                    assert(pairs_view(out@) =~= base + nodes_spec(*self, pv));
                }
            },
            Entry::Dir(d) => {
                let cloned = clone_path(&prefix);
                out.push((d.info, cloned));
                proof {
                    assert(pairs_view(out@) =~= base + seq![(self.info_spec(), pv)]);
                    assert(nodes_children(d.entries@.take(0), pv) =~= Seq::<
                        (EntryInfo, Seq<Seq<u8>>),
                    >::empty());
                }
                let mut i: usize = 0;
                while i < d.entries.len()
                    invariant
                        self is Dir && self->Dir_0 == *d,
                        i <= d.entries@.len(),
                        path_view(prefix) == pv,
                        pairs_view(out@) == base + seq![(self.info_spec(), pv)] + nodes_children(
                            d.entries@.take(i as int),
                            pv,
                        ),
                    decreases d.entries@.len() - i,
                {
                    let mut child_prefix = clone_path(&prefix);
                    let name = clone_name(&d.entries[i].0);
                    child_prefix.push(name);
                    proof {
                        assert(path_view(child_prefix) =~= pv.push(d.entries@[i as int].0@));
                        assert(self is Dir && self->Dir_0 == *d);
                        assert(decreases_to!(*self => *d));
                        assert(decreases_to!(*d => d.entries));
                        assert(decreases_to!(d.entries => d.entries@));
                        assert(decreases_to!(d.entries@ => d.entries@[i as int]));
                        assert(decreases_to!(d.entries@[i as int] => d.entries@[i as int].1));
                    }
                    d.entries[i].1.collect_nodes(child_prefix, out);
                    proof {
                        lemma_nodes_children_take_succ(d.entries@, i as int, pv);
                    }
                    i = i + 1;
                }
                proof {
                    assert(d.entries@.take(i as int) =~= d.entries@);
                    assert(nodes_spec(*self, pv) =~= seq![(self.info_spec(), pv)]
                        + nodes_children(d.entries@, pv));
                    assert(pairs_view(out@) =~= base + nodes_spec(*self, pv));
                }
            },
        }
    }

    /// All sets of duplicate paths in this tree, keyed by their summary:
    /// every node (the root, every directory, every file) is enumerated with
    /// its path, the nodes are grouped by summary, and only summaries seen
    /// at two or more distinct paths are reported.
    #[verifier::rlimit(100)]
    pub fn unfiltered_duplicates(&self) -> (r: Vec<DupGroup>)
        ensures
            duplicates_ok(nodes_spec(*self, Seq::empty()), r@),
    {
        let mut pairs: Vec<(EntryInfo, Vec<Vec<u8>>)> = Vec::new();
        let empty_prefix: Vec<Vec<u8>> = Vec::new();
        proof {
            assert(path_view(empty_prefix) =~= Seq::<Seq<u8>>::empty());
            assert(pairs_view(pairs@) =~= Seq::<(EntryInfo, Seq<Seq<u8>>)>::empty());
        }
        self.collect_nodes(empty_prefix, &mut pairs);
        let ghost p = pairs_view(pairs@);
        proof {
            assert(p =~= nodes_spec(*self, Seq::empty()));
        }
        let mut all_groups: Vec<DupGroup> = Vec::new();
        let mut i: usize = 0;
        while i < pairs.len()
            invariant
                i <= pairs@.len(),
                p == pairs_view(pairs@),
                forall|g: int|
                    0 <= g < all_groups@.len() ==> {
                        let grp = #[trigger] all_groups@[g];
                        &&& paths_view(grp.paths).to_set() == paths_for(p.take(i as int), grp.info)
                        &&& paths_view(grp.paths).no_duplicates()
                        &&& paths_view(grp.paths).len() >= 1
                    },
                forall|g1: int, g2: int|
                    0 <= g1 < g2 < all_groups@.len() ==> (#[trigger] all_groups@[g1]).info != (
                    #[trigger] all_groups@[g2]).info,
                forall|k: int|
                    0 <= k < i ==> exists|g: int|
                        0 <= g < all_groups@.len() && (#[trigger] all_groups@[g]).info == (
                        #[trigger] p[k]).0,
            decreases pairs@.len() - i,
        {
            let info = pairs[i].0;
            let path = clone_path(&pairs[i].1);
            proof {
                assert(p[i as int] == (info, path_view(pairs@[i as int].1)));
                assert(path_view(path) == p[i as int].1);
            }
            let ghost old_groups = all_groups@;
            let ghost pv = p[i as int].1;
            match find_group(&all_groups, info) {
                Some(gi) => {
                    let mut grp = all_groups.remove(gi);
                    let ghost old_paths = paths_view(grp.paths);
                    let present = contains_path(&grp.paths, &path);
                    if !present {
                        grp.paths.push(path);
                        proof {
                            assert(paths_view(grp.paths) =~= old_paths.push(pv));
                            lemma_to_set_push(old_paths, pv);
                        }
                    }
                    all_groups.push(grp);
                    proof {
                        let n = all_groups@.len() as int;
                        old_groups.remove_ensures(gi as int);
                        assert(n == old_groups.len());
                        assert(all_groups@[n - 1] == grp);
                        assert(old_groups[gi as int].info == info);
                        assert(old_paths.to_set() == paths_for(p.take(i as int), info));
                        if present {
                            assert(old_paths.contains(pv));
                            assert(old_paths.to_set().insert(pv) =~= old_paths.to_set());
                            assert(paths_view(grp.paths) == old_paths);
                        }
                        lemma_paths_for_take_succ(p, i as int, info);
                        assert(paths_view(grp.paths).to_set() == paths_for(p.take(i + 1), info));
                        assert forall|g: int| 0 <= g < n implies {
                            let grp2 = #[trigger] all_groups@[g];
                            &&& paths_view(grp2.paths).to_set() == paths_for(
                                p.take(i + 1),
                                grp2.info,
                            )
                            &&& paths_view(grp2.paths).no_duplicates()
                            &&& paths_view(grp2.paths).len() >= 1
                        } by {
                            let grp2 = all_groups@[g];
                            if g < n - 1 {
                                let h: int = if g < gi { g } else { g + 1 };
                                assert(grp2 == old_groups[h]);
                                assert(grp2.info != info);
                                lemma_paths_for_take_succ(p, i as int, grp2.info);
                            }
                        }
                        assert forall|g1: int, g2: int| 0 <= g1 < g2 < n implies (
                        #[trigger] all_groups@[g1]).info != (#[trigger] all_groups@[g2]).info by {
                            let h1: int = if g1 < gi { g1 } else { g1 + 1 };
                            if g2 < n - 1 {
                                let h2: int = if g2 < gi { g2 } else { g2 + 1 };
                                assert(all_groups@[g1] == old_groups[h1]);
                                assert(all_groups@[g2] == old_groups[h2]);
                            } else {
                                assert(all_groups@[g1] == old_groups[h1]);
                                assert(all_groups@[g2].info == old_groups[gi as int].info);
                            }
                        }
                        assert forall|k: int| 0 <= k < i + 1 implies exists|g: int|
                            0 <= g < all_groups@.len() && (#[trigger] all_groups@[g]).info == (
                        #[trigger] p[k]).0 by {
                            if k < i {
                                let g0 = choose|g0: int|
                                    0 <= g0 < old_groups.len() && (#[trigger] old_groups[g0]).info
                                        == p[k].0;
                                if g0 == gi {
                                    assert(all_groups@[n - 1].info == p[k].0);
                                } else {
                                    let g1: int = if g0 < gi { g0 } else { g0 - 1 };
                                    assert(all_groups@[g1] == old_groups[g0]);
                                    assert(all_groups@[g1].info == p[k].0);
                                }
                            } else {
                                assert(all_groups@[n - 1].info == p[k].0);
                            }
                        }
                    }
                },
                None => {
                    let mut paths: Vec<Vec<Vec<u8>>> = Vec::new();
                    paths.push(path);
                    all_groups.push(DupGroup { info, paths });
                    proof {
                        let n = all_groups@.len() as int;
                        assert(paths_view(all_groups@[n - 1].paths) =~= seq![pv]);
                        assert(paths_for(p.take(i as int), info) =~= Set::<Seq<Seq<u8>>>::empty())
                            by {
                            assert forall|q: Seq<Seq<u8>>|
                                !paths_for(p.take(i as int), info).contains(q) by {
                                if paths_for(p.take(i as int), info).contains(q) {
                                    let k = choose|k: int|
                                        0 <= k < p.take(i as int).len() && #[trigger] p.take(
                                            i as int,
                                        )[k] == (info, q);
                                    assert(p[k].0 == info);
                                    assert(exists|g: int|
                                        0 <= g < old_groups.len() && (#[trigger] old_groups[g]).info
                                            == p[k].0);
                                }
                            }
                        }
                        lemma_paths_for_take_succ(p, i as int, info);
                        assert(seq![pv][0] == pv);
                        assert forall|q: Seq<Seq<u8>>| seq![pv].to_set().contains(q) implies q
                            == pv by {
                            let k = choose|k: int| 0 <= k < seq![pv].len() && seq![pv][k] == q;
                        }
                        assert(seq![pv].to_set() =~= Set::<Seq<Seq<u8>>>::empty().insert(pv));
                        assert(paths_view(all_groups@[n - 1].paths).to_set() =~= paths_for(
                            p.take(i as int),
                            info,
                        ).insert(pv));
                        assert(seq![pv].no_duplicates());
                        assert forall|g: int| 0 <= g < n implies {
                            let grp2 = #[trigger] all_groups@[g];
                            &&& paths_view(grp2.paths).to_set() == paths_for(
                                p.take(i + 1),
                                grp2.info,
                            )
                            &&& paths_view(grp2.paths).no_duplicates()
                            &&& paths_view(grp2.paths).len() >= 1
                        } by {
                            let grp2 = all_groups@[g];
                            if g < n - 1 {
                                assert(grp2 == old_groups[g]);
                                assert(grp2.info != info);
                                lemma_paths_for_take_succ(p, i as int, grp2.info);
                            }
                        }
                        assert forall|k: int| 0 <= k < i + 1 implies exists|g: int|
                            0 <= g < all_groups@.len() && (#[trigger] all_groups@[g]).info == (
                        #[trigger] p[k]).0 by {
                            if k < i {
                                let g0 = choose|g0: int|
                                    0 <= g0 < old_groups.len() && (#[trigger] old_groups[g0]).info
                                        == p[k].0;
                                assert(all_groups@[g0] == old_groups[g0]);
                                assert(all_groups@[g0].info == p[k].0);
                            } else {
                                assert(all_groups@[n - 1].info == p[k].0);
                            }
                        }
                    }
                },
            }
            i = i + 1;
        }
        proof {
            assert(p.take(i as int) =~= p);
        }
        // keep only the groups with at least two distinct paths
        let mut r: Vec<DupGroup> = Vec::new();
        let mut gi: usize = 0;
        let ghost all = all_groups@;
        proof {
            assert(all.len() == all_groups.len());
        }
        while 0 < all_groups.len()
            invariant
                all_groups@ == all.skip(gi as int),
                gi <= all.len(),
                all.len() <= usize::MAX,
                forall|g: int|
                    0 <= g < all.len() ==> {
                        let grp = #[trigger] all[g];
                        &&& paths_view(grp.paths).to_set() == paths_for(p, grp.info)
                        &&& paths_view(grp.paths).no_duplicates()
                    },
                forall|g1: int, g2: int|
                    0 <= g1 < g2 < all.len() ==> (#[trigger] all[g1]).info != (
                    #[trigger] all[g2]).info,
                forall|k: int|
                    0 <= k < p.len() ==> exists|g: int|
                        0 <= g < all.len() && (#[trigger] all[g]).info == (#[trigger] p[k]).0,
                forall|a: int|
                    0 <= a < r@.len() ==> exists|g: int|
                        0 <= g < gi && #[trigger] all[g] == (#[trigger] r@[a]),
                forall|a: int|
                    0 <= a < r@.len() ==> group_ok(p, #[trigger] r@[a]),
                forall|a1: int, a2: int|
                    0 <= a1 < a2 < r@.len() ==> (#[trigger] r@[a1]).info != (
                    #[trigger] r@[a2]).info,
                forall|g: int|
                    0 <= g < gi && paths_view((#[trigger] all[g]).paths).len() >= 2 ==> exists|
                        a: int,
                    |
                        0 <= a < r@.len() && (#[trigger] r@[a]) == all[g],
            decreases all.len() - gi,
        {
            let grp = all_groups.remove(0);
            proof {
                assert(grp == all[gi as int]);
                assert(all_groups@ =~= all.skip(gi + 1));
                assert(paths_view(grp.paths).len() == grp.paths@.len());
            }
            let ghost old_r = r@;
            if grp.paths.len() >= 2 {
                r.push(grp);
                proof {
                    assert(r@[old_r.len() as int] == all[gi as int]);
                    assert forall|a: int| 0 <= a < old_r.len() implies #[trigger] r@[a] == old_r[a]
                        by {}
                    assert forall|a: int| 0 <= a < r@.len() implies exists|g: int|
                        0 <= g < gi + 1 && #[trigger] all[g] == (#[trigger] r@[a]) by {
                        if a < old_r.len() {
                            let g0 = choose|g0: int| 0 <= g0 < gi && #[trigger] all[g0] == old_r[a];
                            assert(all[g0] == r@[a]);
                        } else {
                            assert(all[gi as int] == r@[a]);
                        }
                    }
                    assert forall|a1: int, a2: int| 0 <= a1 < a2 < r@.len() implies (
                    #[trigger] r@[a1]).info != (#[trigger] r@[a2]).info by {
                        if a2 == old_r.len() {
                            let g0 = choose|g0: int| 0 <= g0 < gi && #[trigger] all[g0] == old_r[a1];
                            assert(r@[a1] == all[g0]);
                            assert(all[g0].info != all[gi as int].info);
                        }
                    }
                    assert forall|g: int|
                        0 <= g < gi + 1 && paths_view((#[trigger] all[g]).paths).len() >= 2
                        implies exists|a: int| 0 <= a < r@.len() && (#[trigger] r@[a]) == all[g]
                        by {
                        if g < gi {
                            let a0 = choose|a0: int|
                                0 <= a0 < old_r.len() && (#[trigger] old_r[a0]) == all[g];
                            assert(r@[a0] == all[g]);
                        } else {
                            assert(r@[old_r.len() as int] == all[g]);
                        }
                    }
                }
            } else {
                proof {
                    assert(paths_view(all[gi as int].paths).len() < 2);
                }
            }
            gi = gi + 1;
        }
        proof {
            assert forall|i0: int, j0: int|
                0 <= i0 < p.len() && 0 <= j0 < p.len() && (#[trigger] p[i0]).0 == (
            #[trigger] p[j0]).0 && p[i0].1 != p[j0].1 implies exists|g: int|
                0 <= g < r@.len() && (#[trigger] r@[g]).info == p[i0].0 by {
                let g0 = choose|g0: int| 0 <= g0 < all.len() && (#[trigger] all[g0]).info == p[i0].0;
                let grp = all[g0];
                assert(paths_for(p, grp.info).contains(p[i0].1)) by {
                    assert(p[i0] == (grp.info, p[i0].1));
                }
                assert(paths_for(p, grp.info).contains(p[j0].1)) by {
                    assert(p[j0] == (grp.info, p[j0].1));
                }
                assert(paths_view(grp.paths).contains(p[i0].1));
                assert(paths_view(grp.paths).contains(p[j0].1));
                let k1 = choose|k1: int|
                    0 <= k1 < paths_view(grp.paths).len() && paths_view(grp.paths)[k1] == p[i0].1;
                let k2 = choose|k2: int|
                    0 <= k2 < paths_view(grp.paths).len() && paths_view(grp.paths)[k2] == p[j0].1;
                assert(k1 != k2);
                assert(paths_view(grp.paths).len() >= 2);
                let a = choose|a: int| 0 <= a < r@.len() && (#[trigger] r@[a]) == all[g0];
                assert(r@[a].info == p[i0].0);
            }
        }
        r
    }
}

/// The redundant bytes one group accounts for: a file summary seen at `m`
/// paths stores its size `m - 1` times more than needed; directory groups
/// add nothing, since their bytes are already counted through their
/// duplicated file descendants.
pub open spec fn group_redundant(g: DupGroup) -> int {
    if g.info.kind == EntryKind::File && g.paths@.len() >= 1 {
        g.info.bytes * (g.paths@.len() - 1)
    } else {
        0
    }
}

/// The total storage reclaimable by removing duplicates, summed over the
/// file-kind groups alone.
pub open spec fn redundant_total(groups: Seq<DupGroup>) -> int
    decreases groups.len(),
{
    if groups.len() == 0 {
        0
    } else {
        redundant_total(groups.drop_last()) + group_redundant(groups.last())
    }
}

proof fn lemma_redundant_take_succ(groups: Seq<DupGroup>, i: int)
    requires
        0 <= i < groups.len(),
    ensures
        redundant_total(groups.take(i + 1)) == redundant_total(groups.take(i)) + group_redundant(
            groups[i],
        ),
{
    assert(groups.take(i + 1).drop_last() =~= groups.take(i));
    assert(groups.take(i + 1).last() == groups[i]);
}

proof fn lemma_redundant_take_le(groups: Seq<DupGroup>, i: int)
    requires
        0 <= i <= groups.len(),
    ensures
        redundant_total(groups.take(i)) <= redundant_total(groups),
    decreases groups.len() - i,
{
    if i == groups.len() {
        assert(groups.take(i) =~= groups);
    } else {
        lemma_redundant_take_succ(groups, i);
        lemma_redundant_take_le(groups, i + 1);
        assert(group_redundant(groups[i]) >= 0) by (nonlinear_arith);
    }
}

impl Entry {
    /// The total redundant bytes across a list of duplicate groups:
    /// for every file-kind group of size `s` with `m` paths, `s * (m - 1)`
    /// is reclaimable.
    pub fn redundant_bytes(groups: &Vec<DupGroup>) -> (r: u64)
        requires
            redundant_total(groups@) <= u64::MAX,
        ensures
            r as int == redundant_total(groups@),
    {
        let mut total: u64 = 0;
        let mut i: usize = 0;
        while i < groups.len()
            invariant
                i <= groups@.len(),
                redundant_total(groups@) <= u64::MAX,
                total as int == redundant_total(groups@.take(i as int)),
            decreases groups@.len() - i,
        {
            proof {
                lemma_redundant_take_succ(groups@, i as int);
                lemma_redundant_take_le(groups@, i + 1);
                assert(group_redundant(groups@[i as int]) >= 0) by (nonlinear_arith);
                assert(redundant_total(groups@.take(i as int)) >= 0) by {
                    lemma_redundant_nonneg(groups@.take(i as int));
                }
            }
            let g = &groups[i];
            if g.info.kind == EntryKind::File && g.paths.len() >= 1 {
                let count = (g.paths.len() - 1) as u64;
                total = total + g.info.bytes * count;
            }
            i = i + 1;
        }
        proof {
            assert(groups@.take(i as int) =~= groups@);
        }
        total
    }
}

proof fn lemma_redundant_nonneg(groups: Seq<DupGroup>)
    ensures
        redundant_total(groups) >= 0,
    decreases groups.len(),
{
    if groups.len() > 0 {
        lemma_redundant_nonneg(groups.drop_last());
        assert(group_redundant(groups.last()) >= 0) by (nonlinear_arith);
    }
}

/// Each path replaced by its parent (the path without its last component).
pub open spec fn parent_paths(s: Set<Seq<Seq<u8>>>) -> Set<Seq<Seq<u8>>> {
    s.map(|p: Seq<Seq<u8>>| p.drop_last())
}

/// Does the set hold a path with fewer than two components — one that has
/// no parent directory below a scan root left to climb to?
pub open spec fn has_top_level(s: Set<Seq<Seq<u8>>>) -> bool {
    exists|p: Seq<Seq<u8>>| s.contains(p) && p.len() < 2
}

/// The climbing rule of the prefix filter: starting from a group's path
/// set, repeatedly replace every path by its parent. Stop and keep the
/// group as soon as some path has no parent left to climb to; stop and
/// drop it as soon as the parent set is itself one of the reported path
/// sets (the group is implied by that ancestor group).
pub open spec fn keep_rec(s: Set<Seq<Seq<u8>>>, all: Set<Set<Seq<Seq<u8>>>>, fuel: nat) -> bool
    decreases fuel,
{
    if has_top_level(s) {
        true
    } else if all.contains(parent_paths(s)) {
        false
    } else if fuel == 0 {
        true
    } else {
        keep_rec(parent_paths(s), all, (fuel - 1) as nat)
    }
}

/// The deepest path of a group; enough climbing steps to reach a top-level
/// path whatever the starting set.
pub open spec fn max_path_len(paths: Seq<Seq<Seq<u8>>>) -> nat
    decreases paths.len(),
{
    if paths.len() == 0 {
        0
    } else {
        let m = max_path_len(paths.drop_last());
        if paths.last().len() > m {
            paths.last().len()
        } else {
            m
        }
    }
}

/// Is a group with these paths kept in the presence of the reported path
/// sets `all`?
pub open spec fn keep_group(paths: Seq<Seq<Seq<u8>>>, all: Set<Set<Seq<Seq<u8>>>>) -> bool {
    keep_rec(paths.to_set(), all, max_path_len(paths))
}

/// Every path set appearing as the membership of some reported group.
pub open spec fn all_path_sets(groups: Seq<DupGroup>) -> Set<Set<Seq<Seq<u8>>>> {
    Set::new(
        |s: Set<Seq<Seq<u8>>>|
            exists|g: int|
                0 <= g < groups.len() && s == paths_view((#[trigger] groups[g]).paths).to_set(),
    )
}

/// The filter's verdict on every group of the list, in order.
pub open spec fn keeps(all_of: Seq<DupGroup>) -> spec_fn(DupGroup) -> bool {
    |g: DupGroup| keep_group(paths_view(g.paths), all_path_sets(all_of))
}

/// The groups that survive the prefix filter, in their input order.
pub open spec fn kept_groups(groups: Seq<DupGroup>) -> Seq<DupGroup> {
    groups.filter(keeps(groups))
}

fn max_len_exec(paths: &Vec<Vec<Vec<u8>>>) -> (m: usize)
    ensures
        m == max_path_len(paths_view(*paths)),
{
    let ghost pv = paths_view(*paths);
    let mut m: usize = 0;
    let mut i: usize = 0;
    while i < paths.len()
        invariant
            i <= paths@.len(),
            pv == paths_view(*paths),
            m == max_path_len(pv.take(i as int)),
        decreases paths@.len() - i,
    {
        proof {
            assert(pv.take(i + 1).drop_last() =~= pv.take(i as int));
            assert(pv.take(i + 1).last() == pv[i as int]);
            assert(pv[i as int].len() == paths@[i as int]@.len());
        }
        let l = paths[i].len();
        if l > m {
            m = l;
        }
        i = i + 1;
    }
    proof {
        assert(pv.take(i as int) =~= pv);
    }
    m
}

fn clone_paths(a: &Vec<Vec<Vec<u8>>>) -> (r: Vec<Vec<Vec<u8>>>)
    ensures
        paths_view(r) == paths_view(*a),
{
    let mut r: Vec<Vec<Vec<u8>>> = Vec::new();
    let mut i: usize = 0;
    while i < a.len()
        invariant
            i <= a@.len(),
            paths_view(r) == paths_view(*a).take(i as int),
        decreases a@.len() - i,
    {
        let ghost prev = paths_view(r);
        let p = clone_path(&a[i]);
        r.push(p);
        proof {
            assert(paths_view(r) =~= prev.push(path_view(a@[i as int])));
            assert(paths_view(*a).take(i + 1) =~= paths_view(*a).take(i as int).push(
                path_view(a@[i as int]),
            ));
        }
        i = i + 1;
    }
    proof {
        assert(paths_view(*a).take(i as int) =~= paths_view(*a));
    }
    r
}

fn any_top_level(cur: &Vec<Vec<Vec<u8>>>) -> (r: bool)
    ensures
        r == has_top_level(paths_view(*cur).to_set()),
{
    let mut i: usize = 0;
    while i < cur.len()
        invariant
            i <= cur@.len(),
            forall|k: int| 0 <= k < i ==> (#[trigger] paths_view(*cur)[k]).len() >= 2,
        decreases cur@.len() - i,
    {
        if cur[i].len() < 2 {
            proof {
                assert(paths_view(*cur)[i as int].len() < 2);
                assert(paths_view(*cur).to_set().contains(paths_view(*cur)[i as int]));
            }
            return true;
        }
        i = i + 1;
    }
    proof {
        if has_top_level(paths_view(*cur).to_set()) {
            let p = choose|p: Seq<Seq<u8>>|
                paths_view(*cur).to_set().contains(p) && p.len() < 2;
            let k = choose|k: int|
                0 <= k < paths_view(*cur).len() && paths_view(*cur)[k] == p;
        }
    }
    false
}

fn parents_of(cur: &Vec<Vec<Vec<u8>>>) -> (r: Vec<Vec<Vec<u8>>>)
    requires
        forall|k: int| 0 <= k < cur@.len() ==> (#[trigger] paths_view(*cur)[k]).len() >= 1,
    ensures
        paths_view(r).len() == paths_view(*cur).len(),
        forall|k: int|
            0 <= k < paths_view(r).len() ==> #[trigger] paths_view(r)[k] == paths_view(
                *cur,
            )[k].drop_last(),
{
    let mut r: Vec<Vec<Vec<u8>>> = Vec::new();
    let mut i: usize = 0;
    while i < cur.len()
        invariant
            i <= cur@.len(),
            forall|k: int| 0 <= k < cur@.len() ==> (#[trigger] paths_view(*cur)[k]).len() >= 1,
            paths_view(r).len() == i,
            forall|k: int|
                0 <= k < i ==> #[trigger] paths_view(r)[k] == paths_view(*cur)[k].drop_last(),
        decreases cur@.len() - i,
    {
        let ghost prev = paths_view(r);
        let p = &cur[i];
        proof {
            assert(paths_view(*cur)[i as int].len() >= 1);
            assert(paths_view(*cur)[i as int].len() == p@.len());
        }
        let mut parent: Vec<Vec<u8>> = Vec::new();
        let mut j: usize = 0;
        while j < p.len() - 1
            invariant
                p@.len() >= 1,
                j <= p@.len() - 1,
                path_view(parent) == path_view(*p).take(j as int),
            decreases p@.len() - 1 - j,
        {
            let ghost prev_par = path_view(parent);
            let name = clone_name(&p[j]);
            parent.push(name);
            proof {
                assert(path_view(parent) =~= prev_par.push(p@[j as int]@));
                assert(path_view(*p).take(j + 1) =~= path_view(*p).take(j as int).push(
                    p@[j as int]@,
                ));
            }
            j = j + 1;
        }
        proof {
            assert(path_view(parent) =~= path_view(*p).drop_last());
        }
        r.push(parent);
        proof {
            assert(paths_view(r) =~= prev.push(path_view(*p).drop_last()));
            assert(path_view(*p) == paths_view(*cur)[i as int]);
        }
        i = i + 1;
    }
    r
}

proof fn lemma_parents_set(cur: Seq<Seq<Seq<u8>>>, par: Seq<Seq<Seq<u8>>>)
    requires
        par.len() == cur.len(),
        forall|k: int| 0 <= k < cur.len() ==> #[trigger] par[k] == cur[k].drop_last(),
    ensures
        par.to_set() == parent_paths(cur.to_set()),
{
    assert forall|q: Seq<Seq<u8>>| par.to_set().contains(q) implies parent_paths(
        cur.to_set(),
    ).contains(q) by {
        let k = choose|k: int| 0 <= k < par.len() && par[k] == q;
        assert(cur.to_set().contains(cur[k]));
        assert(q == cur[k].drop_last());
    }
    assert forall|q: Seq<Seq<u8>>| parent_paths(cur.to_set()).contains(q) implies par.to_set()
        .contains(q) by {
        let a = choose|a: Seq<Seq<u8>>| cur.to_set().contains(a) && q == a.drop_last();
        let k = choose|k: int| 0 <= k < cur.len() && cur[k] == a;
        assert(par[k] == q);
    }
    assert(par.to_set() =~= parent_paths(cur.to_set()));
}

/// Do two path lists hold the same set of paths?
fn path_set_eq(a: &Vec<Vec<Vec<u8>>>, b: &Vec<Vec<Vec<u8>>>) -> (r: bool)
    ensures
        r == (paths_view(*a).to_set() == paths_view(*b).to_set()),
{
    let mut i: usize = 0;
    while i < a.len()
        invariant
            i <= a@.len(),
            forall|k: int|
                0 <= k < i ==> paths_view(*b).contains(#[trigger] paths_view(*a)[k]),
        decreases a@.len() - i,
    {
        if !contains_path(&b, &a[i]) {
            proof {
                let q = paths_view(*a)[i as int];
                assert(paths_view(*a).to_set().contains(q));
                assert(!paths_view(*b).to_set().contains(q));
            }
            return false;
        }
        i = i + 1;
    }
    let mut j: usize = 0;
    while j < b.len()
        invariant
            j <= b@.len(),
            forall|k: int|
                0 <= k < a@.len() ==> paths_view(*b).contains(#[trigger] paths_view(*a)[k]),
            forall|k: int|
                0 <= k < j ==> paths_view(*a).contains(#[trigger] paths_view(*b)[k]),
        decreases b@.len() - j,
    {
        if !contains_path(&a, &b[j]) {
            proof {
                let q = paths_view(*b)[j as int];
                assert(paths_view(*b).to_set().contains(q));
                assert(!paths_view(*a).to_set().contains(q));
            }
            return false;
        }
        j = j + 1;
    }
    proof {
        assert forall|q: Seq<Seq<u8>>| paths_view(*a).to_set().contains(q) implies paths_view(
            *b,
        ).to_set().contains(q) by {
            let k = choose|k: int| 0 <= k < paths_view(*a).len() && paths_view(*a)[k] == q;
        }
        assert forall|q: Seq<Seq<u8>>| paths_view(*b).to_set().contains(q) implies paths_view(
            *a,
        ).to_set().contains(q) by {
            let k = choose|k: int| 0 <= k < paths_view(*b).len() && paths_view(*b)[k] == q;
        }
        assert(paths_view(*a).to_set() =~= paths_view(*b).to_set());
    }
    true
}

/// Is the candidate path set one of the reported groups' path sets?
fn contains_path_set(groups: &Vec<DupGroup>, cand: &Vec<Vec<Vec<u8>>>) -> (r: bool)
    ensures
        r == all_path_sets(groups@).contains(paths_view(*cand).to_set()),
{
    let mut g: usize = 0;
    while g < groups.len()
        invariant
            g <= groups@.len(),
            forall|k: int|
                0 <= k < g ==> paths_view((#[trigger] groups@[k]).paths).to_set() != paths_view(
                    *cand,
                ).to_set(),
        decreases groups@.len() - g,
    {
        if path_set_eq(&groups[g].paths, cand) {
            return true;
        }
        g = g + 1;
    }
    proof {
        if all_path_sets(groups@).contains(paths_view(*cand).to_set()) {
            let g0 = choose|g0: int|
                0 <= g0 < groups@.len() && paths_view(*cand).to_set() == paths_view(
                    (#[trigger] groups@[g0]).paths,
                ).to_set();
        }
    }
    false
}

/// The filter's verdict on one group: climb parent directories until some
/// path runs out (keep) or the parent set is itself a reported set (drop).
fn keep_one(paths: &Vec<Vec<Vec<u8>>>, groups: &Vec<DupGroup>) -> (r: bool)
    ensures
        r == keep_group(paths_view(*paths), all_path_sets(groups@)),
{
    let ghost all = all_path_sets(groups@);
    let mut fuel = max_len_exec(paths);
    let mut current = clone_paths(paths);
    loop
        invariant
            keep_rec(paths_view(current).to_set(), all, fuel as nat) == keep_group(
                paths_view(*paths),
                all_path_sets(groups@),
            ),
            all == all_path_sets(groups@),
        decreases fuel,
    {
        if any_top_level(&current) {
            return true;
        }
        proof {
            assert forall|k: int|
                0 <= k < paths_view(current).len() implies (#[trigger] paths_view(
                current,
            )[k]).len() >= 1 by {
                if paths_view(current)[k].len() < 2 {
                    assert(paths_view(current).to_set().contains(paths_view(current)[k]));
                }
            }
        }
        let parents = parents_of(&current);
        proof {
            lemma_parents_set(paths_view(current), paths_view(parents));
        }
        if contains_path_set(groups, &parents) {
            return false;
        }
        if fuel == 0 {
            return true;
        }
        fuel = fuel - 1;
        current = parents;
    }
}

impl Entry {
    /// Removes every duplicate group already implied by an ancestor
    /// directory group: a group is dropped exactly when climbing its paths
    /// level by level reaches a path set that is itself reported, before
    /// any path runs out of parents. The survivors keep their order and
    /// their contents.
    pub fn filter_duplicates_by_prefix(groups: Vec<DupGroup>) -> (r: Vec<DupGroup>)
        ensures
            r@ == kept_groups(groups@),
    {
        let ghost orig = groups@;
        let mut keep: Vec<bool> = Vec::new();
        let mut gi: usize = 0;
        while gi < groups.len()
            invariant
                gi <= groups@.len(),
                orig == groups@,
                keep@.len() == gi,
                forall|k: int| 0 <= k < gi ==> #[trigger] keep@[k] == keeps(orig)(orig[k]),
            decreases groups@.len() - gi,
        {
            let v = keep_one(&groups[gi].paths, &groups);
            keep.push(v);
            proof {
                assert(keeps(orig)(orig[gi as int]) == keep_group(
                    paths_view(orig[gi as int].paths),
                    all_path_sets(orig),
                ));
            }
            gi = gi + 1;
        }
        let mut r: Vec<DupGroup> = Vec::new();
        let mut i: usize = 0;
        let mut rem = groups;
        proof {
            assert(orig.len() == rem.len());
            assert(orig.take(0).filter(keeps(orig)) =~= Seq::<DupGroup>::empty()) by {
                reveal_with_fuel(Seq::filter, 2);
                assert(orig.take(0).len() == 0);
            }
        }
        while 0 < rem.len()
            invariant
                rem@ == orig.skip(i as int),
                i <= orig.len(),
                orig.len() <= usize::MAX,
                keep@.len() == orig.len(),
                forall|k: int| 0 <= k < orig.len() ==> #[trigger] keep@[k] == keeps(orig)(orig[k]),
                r@ == orig.take(i as int).filter(keeps(orig)),
            decreases orig.len() - i,
        {
            let grp = rem.remove(0);
            proof {
                assert(grp == orig[i as int]);
                assert(rem@ =~= orig.skip(i + 1));
            }
            let keep_this = keep[i];
            if keep_this {
                r.push(grp);
            }
            proof {
                assert(orig.take(i + 1) =~= orig.take(i as int) + seq![orig[i as int]]);
                Seq::filter_distributes_over_add(
                    orig.take(i as int),
                    seq![orig[i as int]],
                    keeps(orig),
                );
                reveal_with_fuel(Seq::filter, 2);
                assert(seq![orig[i as int]].drop_last() =~= Seq::<DupGroup>::empty());
                if keeps(orig)(orig[i as int]) {
                    assert(seq![orig[i as int]].filter(keeps(orig)) =~= seq![orig[i as int]]);
                } else {
                    assert(seq![orig[i as int]].filter(keeps(orig)) =~= Seq::<DupGroup>::empty());
                }
            }
            i = i + 1;
        }
        proof {
            assert(orig.take(i as int) =~= orig);
        }
        r
    }
}

} // verus!
