//! The content-addressed entry tree: file leaves and directory nodes with
//! aggregated statistics, plus the order-independent directory fingerprint.

use vstd::multiset::Multiset;
use vstd::prelude::*;
use vstd::relations::{sorted_by, total_ordering};
use vstd::seq_lib::{commutative_foldr, lemma_fold_right_permutation, lemma_sorted_unique};

use crate::fingerprint::{hash_bytes, hash_of_bytes, hash_of_u64s, hash_u64s, DIR_HASH_MARKER};

verus! {

broadcast use vstd::seq::group_seq_axioms, vstd::seq_lib::group_to_multiset_ensures,
    vstd::std_specs::vec::group_vec_axioms, vstd::multiset::group_multiset_axioms;

/// Whether an entry is a directory or a regular file.
#[derive(Clone, Copy, Debug, PartialEq, Eq, Structural)]
pub enum EntryKind {
    Dir,
    File,
}

/// The comparable summary attached to every entry: size, kind and
/// fingerprint. Equality of all three fields is the sole criterion for
/// "identical content".
#[derive(Clone, Copy, Debug, PartialEq, Eq, Structural)]
pub struct EntryInfo {
    pub bytes: u64,
    pub kind: EntryKind,
    pub hash: u64,
}

/// The numeric order in which child fingerprints are combined.
pub open spec fn u64_leq() -> spec_fn(u64, u64) -> bool {
    |x: u64, y: u64| x <= y
}

pub proof fn lemma_u64_leq_total()
    ensures
        total_ordering(u64_leq()),
{
    assert forall|x: u64| #[trigger] u64_leq()(x, x) by {}
    assert forall|x: u64, y: u64, z: u64|
        #[trigger] u64_leq()(x, y) && #[trigger] u64_leq()(y, z) implies u64_leq()(x, z) by {}
    assert forall|x: u64, y: u64|
        #[trigger] u64_leq()(x, y) && #[trigger] u64_leq()(y, x) implies x == y by {}
    assert forall|x: u64, y: u64| !(#[trigger] u64_leq()(x, y)) implies u64_leq()(y, x) by {}
}

/// The fingerprints of a sequence of entry summaries, in the same order.
pub open spec fn hashes_of(infos: Seq<EntryInfo>) -> Seq<u64> {
    infos.map_values(|x: EntryInfo| x.hash)
}

/// The total size of a sequence of entry summaries.
pub open spec fn sum_bytes(infos: Seq<EntryInfo>) -> int
    decreases infos.len(),
{
    if infos.len() == 0 {
        0
    } else {
        sum_bytes(infos.drop_last()) + infos.last().bytes
    }
}

pub proof fn lemma_sum_bytes_take_succ(infos: Seq<EntryInfo>, i: int)
    requires
        0 <= i < infos.len(),
    ensures
        sum_bytes(infos.take(i + 1)) == sum_bytes(infos.take(i)) + infos[i].bytes,
{
    assert(infos.take(i + 1).drop_last() =~= infos.take(i));
    assert(infos.take(i + 1).last() == infos[i]);
}

pub proof fn lemma_sum_bytes_take_le(infos: Seq<EntryInfo>, i: int)
    requires
        0 <= i <= infos.len(),
    ensures
        sum_bytes(infos.take(i)) <= sum_bytes(infos),
    decreases infos.len() - i,
{
    if i == infos.len() {
        assert(infos.take(i) =~= infos);
    } else {
        lemma_sum_bytes_take_succ(infos, i);
        lemma_sum_bytes_take_le(infos, i + 1);
    }
}

impl EntryInfo {
    /// The summary of a regular file with the given contents.
    pub open spec fn file_info_of(data: Seq<u8>) -> EntryInfo {
        EntryInfo { bytes: data.len() as u64, kind: EntryKind::File, hash: hash_of_bytes(data) }
    }

    /// The summary of a directory whose children carry the given summaries:
    /// sizes are summed, and the fingerprint combines the children's
    /// fingerprints in sorted order with the domain-separation marker.
    pub open spec fn dir_info_of(infos: Seq<EntryInfo>) -> EntryInfo {
        EntryInfo {
            bytes: sum_bytes(infos) as u64,
            kind: EntryKind::Dir,
            hash: hash_of_u64s(hashes_of(infos).sort_by(u64_leq()), DIR_HASH_MARKER),
        }
    }

    /// Fingerprints and sizes a regular file from its contents.
    pub fn file(data: &[u8]) -> (r: EntryInfo)
        ensures
            r == Self::file_info_of(data@),
    {
        EntryInfo { bytes: data.len() as u64, kind: EntryKind::File, hash: hash_bytes(data) }
    }

    /// Combines the summaries of a directory's children into the directory's
    /// own summary. The order of `infos` does not affect the result.
    pub fn dir(infos: &Vec<EntryInfo>) -> (r: EntryInfo)
        requires
            sum_bytes(infos@) <= u64::MAX,
        ensures
            r == Self::dir_info_of(infos@),
    {
        let mut hashes: Vec<u64> = Vec::new();
        let mut bytes: u64 = 0;
        let mut i: usize = 0;
        while i < infos.len()
            invariant
                i <= infos@.len(),
                sum_bytes(infos@) <= u64::MAX,
                hashes@ == hashes_of(infos@.take(i as int)),
                bytes == sum_bytes(infos@.take(i as int)),
            decreases infos@.len() - i,
        {
            proof {
                lemma_sum_bytes_take_succ(infos@, i as int);
                lemma_sum_bytes_take_le(infos@, i + 1);
                assert(hashes_of(infos@.take(i + 1)) =~= hashes_of(infos@.take(i as int)).push(
                    infos@[i as int].hash,
                ));
            }
            hashes.push(infos[i].hash);
            bytes = bytes + infos[i].bytes;
            i = i + 1;
        }
        proof {
            assert(infos@.take(i as int) =~= infos@);
        }
        let sorted = sort_u64s(hashes);
        let hash = hash_u64s(&sorted, DIR_HASH_MARKER);
        EntryInfo { bytes, kind: EntryKind::Dir, hash }
    }
}

/// Sorts 64-bit fingerprints into ascending order.
pub(crate) fn sort_u64s(input: Vec<u64>) -> (r: Vec<u64>)
    ensures
        r@ == input@.sort_by(u64_leq()),
{
    let mut out: Vec<u64> = Vec::new();
    let mut i: usize = 0;
    while i < input.len()
        invariant
            i <= input@.len(),
            sorted_by(out@, u64_leq()),
            out@.to_multiset() == input@.take(i as int).to_multiset(),
        decreases input@.len() - i,
    {
        let x = input[i];
        let mut j: usize = 0;
        while j < out.len() && out[j] <= x
            invariant
                j <= out@.len(),
                forall|k: int| 0 <= k < j ==> out@[k] <= x,
            decreases out@.len() - j,
        {
            j = j + 1;
        }
        let ghost old_out = out@;
        out.insert(j, x);
        proof {
            assert(out@ =~= old_out.insert(j as int, x));
            vstd::seq_lib::to_multiset_insert(old_out, j as int, x);
            assert(input@.take(i + 1) =~= input@.take(i as int).push(input@[i as int]));
            old_out.insert_ensures(j as int, x);
            assert forall|p: int, q: int| 0 <= p < q < out@.len() implies #[trigger] u64_leq()(
                out@[p],
                out@[q],
            ) by {
                if q < j {
                    assert(u64_leq()(old_out[p], old_out[q]));
                } else if p < j && q == j {
                    assert(out@[p] == old_out[p]);
                } else if p < j && q > j {
                    assert(u64_leq()(old_out[p], old_out[q - 1]));
                } else if p == j {
                    assert(out@[q] == old_out[q - 1]);
                    if q - 1 > j - 1 && j < old_out.len() {
                        if j <= q - 1 - 1 {
                            assert(u64_leq()(old_out[j as int], old_out[q - 1]));
                        }
                    }
                    assert(x <= old_out[q - 1]);
                } else {
                    assert(u64_leq()(old_out[p - 1], old_out[q - 1]));
                }
            }
        }
        i = i + 1;
    }
    proof {
        assert(input@.take(i as int) =~= input@);
        lemma_u64_leq_total();
        input@.lemma_sort_by_ensures(u64_leq());
        lemma_sorted_unique(out@, input@.sort_by(u64_leq()), u64_leq());
    }
    out
}

/// A directory node: its own summary, aggregate counts and named children.
pub struct Dir {
    pub info: EntryInfo,
    pub dirs: u64,
    pub files: u64,
    pub entries: Vec<(Vec<u8>, Entry)>,
}

/// A node of the scanned tree: a directory with children or a file leaf.
pub enum Entry {
    Dir(Dir),
    File(EntryInfo),
}

/// Strict lexicographic order on names (byte strings).
pub open spec fn lex_lt(a: Seq<u8>, b: Seq<u8>) -> bool
    decreases a.len(),
{
    if b.len() == 0 {
        false
    } else if a.len() == 0 {
        true
    } else if a[0] < b[0] {
        true
    } else if a[0] > b[0] {
        false
    } else {
        lex_lt(a.drop_first(), b.drop_first())
    }
}

/// Children are keyed by name: strictly ascending, hence unique.
pub open spec fn names_sorted(entries: Seq<(Vec<u8>, Entry)>) -> bool {
    forall|i: int, j: int|
        0 <= i < j < entries.len() ==> #[trigger] lex_lt(entries[i].0@, entries[j].0@)
}

/// The summaries of a directory's children, in name order.
pub open spec fn child_infos(entries: Seq<(Vec<u8>, Entry)>) -> Seq<EntryInfo> {
    entries.map_values(|p: (Vec<u8>, Entry)| p.1.info_spec())
}

/// The directories in an entry's subtree, as recorded in its aggregate field.
pub open spec fn sum_dirs(entries: Seq<(Vec<u8>, Entry)>) -> int
    decreases entries.len(),
{
    if entries.len() == 0 {
        0
    } else {
        sum_dirs(entries.drop_last()) + entries.last().1.dirs_spec()
    }
}

/// The files in an entry's subtree, as recorded in its aggregate field.
pub open spec fn sum_files(entries: Seq<(Vec<u8>, Entry)>) -> int
    decreases entries.len(),
{
    if entries.len() == 0 {
        0
    } else {
        sum_files(entries.drop_last()) + entries.last().1.files_spec()
    }
}

/// Every child is itself well-formed.
pub open spec fn all_wf(entries: Seq<(Vec<u8>, Entry)>) -> bool
    decreases entries,
{
    if entries.len() == 0 {
        true
    } else {
        all_wf(entries.drop_last()) && entries.last().1.wf()
    }
}

impl Entry {
    /// The summary this node carries.
    pub open spec fn info_spec(self) -> EntryInfo {
        match self {
            Entry::File(info) => info,
            Entry::Dir(d) => d.info,
        }
    }

    /// The number of directories in this subtree, itself included.
    pub open spec fn dirs_spec(self) -> int {
        match self {
            Entry::File(_) => 0,
            Entry::Dir(d) => d.dirs as int,
        }
    }

    /// The number of files in this subtree.
    pub open spec fn files_spec(self) -> int {
        match self {
            Entry::File(_) => 1,
            Entry::Dir(d) => d.files as int,
        }
    }

    /// The children of a directory node.
    pub open spec fn entries_spec(self) -> Seq<(Vec<u8>, Entry)>
        recommends
            self is Dir,
    {
        self->Dir_0.entries@
    }

    /// Well-formedness: a file's summary is of file kind; a directory's
    /// children are sorted by name and well-formed, its summary is the
    /// order-independent combination of the children's summaries, its
    /// directory count is one (itself) plus the children's, and its file
    /// count is the sum of the children's.
    pub open spec fn wf(self) -> bool
        decreases self,
    {
        match self {
            Entry::File(info) => info.kind == EntryKind::File,
            Entry::Dir(d) => {
                &&& d.info == EntryInfo::dir_info_of(child_infos(d.entries@))
                &&& d.dirs as int == 1 + sum_dirs(d.entries@)
                &&& d.files as int == sum_files(d.entries@)
                &&& names_sorted(d.entries@)
                &&& all_wf(d.entries@)
            },
        }
    }

    /// The summary of this node.
    pub fn info(&self) -> (r: EntryInfo)
        ensures
            r == self.info_spec(),
    {
        match self {
            Entry::File(info) => *info,
            Entry::Dir(d) => d.info,
        }
    }

    /// How many directories this subtree holds, itself included.
    pub fn dirs(&self) -> (r: u64)
        ensures
            r as int == self.dirs_spec(),
    {
        match self {
            Entry::File(_) => 0,
            Entry::Dir(d) => d.dirs,
        }
    }

    /// How many files this subtree holds.
    pub fn files(&self) -> (r: u64)
        ensures
            r as int == self.files_spec(),
    {
        match self {
            Entry::File(_) => 1,
            Entry::Dir(d) => d.files,
        }
    }

    /// Builds a directory node from already-scanned children, establishing
    /// the aggregation invariant: size, fingerprint and counts all follow
    /// from the children alone.
    pub fn dir(entries: Vec<(Vec<u8>, Entry)>) -> (r: Entry)
        requires
            names_sorted(entries@),
            all_wf(entries@),
            sum_bytes(child_infos(entries@)) <= u64::MAX,
            1 + sum_dirs(entries@) <= u64::MAX,
            sum_files(entries@) <= u64::MAX,
        ensures
            r.wf(),
            r is Dir,
            r.entries_spec() == entries@,
            r.info_spec() == EntryInfo::dir_info_of(child_infos(entries@)),
            r.dirs_spec() == 1 + sum_dirs(entries@),
            r.files_spec() == sum_files(entries@),
    {
        let mut infos: Vec<EntryInfo> = Vec::new();
        let mut dirs: u64 = 1;
        let mut files: u64 = 0;
        let mut i: usize = 0;
        while i < entries.len()
            invariant
                i <= entries@.len(),
                sum_bytes(child_infos(entries@)) <= u64::MAX,
                1 + sum_dirs(entries@) <= u64::MAX,
                sum_files(entries@) <= u64::MAX,
                infos@ == child_infos(entries@.take(i as int)),
                dirs as int == 1 + sum_dirs(entries@.take(i as int)),
                files as int == sum_files(entries@.take(i as int)),
            decreases entries@.len() - i,
        {
            proof {
                lemma_sum_dirs_take_succ(entries@, i as int);
                lemma_sum_dirs_take_le(entries@, i + 1);
                lemma_sum_files_take_succ(entries@, i as int);
                lemma_sum_files_take_le(entries@, i + 1);
                assert(child_infos(entries@.take(i + 1)) =~= child_infos(
                    entries@.take(i as int),
                ).push(entries@[i as int].1.info_spec()));
            }
            infos.push(entries[i].1.info());
            dirs = dirs + entries[i].1.dirs();
            files = files + entries[i].1.files();
            i = i + 1;
        }
        proof {
            assert(entries@.take(i as int) =~= entries@);
        }
        let info = EntryInfo::dir(&infos);
        Entry::Dir(Dir { info, dirs, files, entries })
    }
}

pub proof fn lemma_sum_dirs_take_succ(entries: Seq<(Vec<u8>, Entry)>, i: int)
    requires
        0 <= i < entries.len(),
    ensures
        sum_dirs(entries.take(i + 1)) == sum_dirs(entries.take(i)) + entries[i].1.dirs_spec(),
        sum_files(entries.take(i + 1)) == sum_files(entries.take(i)) + entries[i].1.files_spec(),
{
    assert(entries.take(i + 1).drop_last() =~= entries.take(i));
    assert(entries.take(i + 1).last() == entries[i]);
}

pub proof fn lemma_sum_dirs_take_le(entries: Seq<(Vec<u8>, Entry)>, i: int)
    requires
        0 <= i <= entries.len(),
    ensures
        sum_dirs(entries.take(i)) <= sum_dirs(entries),
    decreases entries.len() - i,
{
    if i == entries.len() {
        assert(entries.take(i) =~= entries);
    } else {
        lemma_sum_dirs_take_succ(entries, i);
        lemma_sum_dirs_take_le(entries, i + 1);
    }
}

pub proof fn lemma_sum_files_take_succ(entries: Seq<(Vec<u8>, Entry)>, i: int)
    requires
        0 <= i < entries.len(),
    ensures
        sum_files(entries.take(i + 1)) == sum_files(entries.take(i)) + entries[i].1.files_spec(),
{
    lemma_sum_dirs_take_succ(entries, i);
}

pub proof fn lemma_sum_files_take_le(entries: Seq<(Vec<u8>, Entry)>, i: int)
    requires
        0 <= i <= entries.len(),
    ensures
        sum_files(entries.take(i)) <= sum_files(entries),
    decreases entries.len() - i,
{
    if i == entries.len() {
        assert(entries.take(i) =~= entries);
    } else {
        lemma_sum_files_take_succ(entries, i);
        lemma_sum_files_take_le(entries, i + 1);
    }
}

spec fn bytes_foldr() -> spec_fn(EntryInfo, int) -> int {
    |x: EntryInfo, acc: int| acc + x.bytes
}

proof fn lemma_sum_bytes_fold(s: Seq<EntryInfo>, b: int)
    ensures
        s.fold_right(bytes_foldr(), b) == sum_bytes(s) + b,
    decreases s.len(),
{
    if s.len() > 0 {
        lemma_sum_bytes_fold(s.drop_last(), bytes_foldr()(s.last(), b));
    }
}

spec fn hash_ms_foldr() -> spec_fn(EntryInfo, Multiset<u64>) -> Multiset<u64> {
    |x: EntryInfo, m: Multiset<u64>| m.insert(x.hash)
}

proof fn lemma_hashes_fold(s: Seq<EntryInfo>, m: Multiset<u64>)
    ensures
        s.fold_right(hash_ms_foldr(), m) == hashes_of(s).to_multiset().add(m),
    decreases s.len(),
{
    if s.len() == 0 {
        assert(hashes_of(s) =~= Seq::<u64>::empty());
        assert(hashes_of(s).to_multiset().add(m) =~= m);
    } else {
        lemma_hashes_fold(s.drop_last(), hash_ms_foldr()(s.last(), m));
        assert(hashes_of(s) =~= hashes_of(s.drop_last()).push(s.last().hash));
        assert(hashes_of(s).to_multiset() =~= hashes_of(s.drop_last()).to_multiset().insert(
            s.last().hash,
        ));
        assert(hashes_of(s.drop_last()).to_multiset().add(m.insert(s.last().hash)) =~= hashes_of(
            s,
        ).to_multiset().add(m));
    }
}

/// Order independence of the directory summary: two child sequences that
/// hold the same summaries as a multiset — any permutation of one another —
/// combine to the very same directory summary.
pub proof fn lemma_dir_info_of_permutation(a: Seq<EntryInfo>, b: Seq<EntryInfo>)
    requires
        a.to_multiset() == b.to_multiset(),
    ensures
        EntryInfo::dir_info_of(a) == EntryInfo::dir_info_of(b),
{
    assert forall|x: EntryInfo, y: EntryInfo, v: int| #[trigger] bytes_foldr()(
        x,
        bytes_foldr()(y, v),
    ) == bytes_foldr()(y, bytes_foldr()(x, v)) by {}
    assert(commutative_foldr(bytes_foldr()));
    lemma_fold_right_permutation(a, b, bytes_foldr(), 0);
    lemma_sum_bytes_fold(a, 0);
    lemma_sum_bytes_fold(b, 0);
    assert forall|x: EntryInfo, y: EntryInfo, v: Multiset<u64>| #[trigger] hash_ms_foldr()(
        x,
        hash_ms_foldr()(y, v),
    ) == hash_ms_foldr()(y, hash_ms_foldr()(x, v)) by {
        assert(v.insert(y.hash).insert(x.hash) =~= v.insert(x.hash).insert(y.hash));
    }
    assert(commutative_foldr(hash_ms_foldr()));
    lemma_fold_right_permutation(a, b, hash_ms_foldr(), Multiset::empty());
    lemma_hashes_fold(a, Multiset::empty());
    lemma_hashes_fold(b, Multiset::empty());
    assert(hashes_of(a).to_multiset() =~= hashes_of(a).to_multiset().add(Multiset::empty()));
    assert(hashes_of(b).to_multiset() =~= hashes_of(b).to_multiset().add(Multiset::empty()));
    lemma_u64_leq_total();
    hashes_of(a).lemma_sort_by_ensures(u64_leq());
    hashes_of(b).lemma_sort_by_ensures(u64_leq());
    lemma_sorted_unique(
        hashes_of(a).sort_by(u64_leq()),
        hashes_of(b).sort_by(u64_leq()),
        u64_leq(),
    );
}

spec fn dirs_foldr() -> spec_fn((Vec<u8>, Entry), int) -> int {
    |p: (Vec<u8>, Entry), acc: int| acc + p.1.dirs_spec()
}

spec fn files_foldr() -> spec_fn((Vec<u8>, Entry), int) -> int {
    |p: (Vec<u8>, Entry), acc: int| acc + p.1.files_spec()
}

spec fn info_ms_foldr() -> spec_fn((Vec<u8>, Entry), Multiset<EntryInfo>) -> Multiset<EntryInfo> {
    |p: (Vec<u8>, Entry), m: Multiset<EntryInfo>| m.insert(p.1.info_spec())
}

proof fn lemma_sum_dirs_fold(s: Seq<(Vec<u8>, Entry)>, b: int)
    ensures
        s.fold_right(dirs_foldr(), b) == sum_dirs(s) + b,
        s.fold_right(files_foldr(), b) == sum_files(s) + b,
    decreases s.len(),
{
    if s.len() > 0 {
        lemma_sum_dirs_fold(s.drop_last(), dirs_foldr()(s.last(), b));
        lemma_sum_dirs_fold(s.drop_last(), files_foldr()(s.last(), b));
    }
}

proof fn lemma_infos_fold(s: Seq<(Vec<u8>, Entry)>, m: Multiset<EntryInfo>)
    ensures
        s.fold_right(info_ms_foldr(), m) == child_infos(s).to_multiset().add(m),
    decreases s.len(),
{
    if s.len() == 0 {
        assert(child_infos(s) =~= Seq::<EntryInfo>::empty());
        assert(child_infos(s).to_multiset().add(m) =~= m);
    } else {
        lemma_infos_fold(s.drop_last(), info_ms_foldr()(s.last(), m));
        assert(child_infos(s) =~= child_infos(s.drop_last()).push(s.last().1.info_spec()));
        assert(child_infos(s).to_multiset() =~= child_infos(s.drop_last()).to_multiset().insert(
            s.last().1.info_spec(),
        ));
        assert(child_infos(s.drop_last()).to_multiset().add(m.insert(s.last().1.info_spec()))
            =~= child_infos(s).to_multiset().add(m));
    }
}

/// Order independence of a whole directory node: every permutation of the
/// order in which children are discovered yields the same directory
/// summary (size and fingerprint) and the same aggregate counts.
pub proof fn lemma_dir_order_independent(a: Seq<(Vec<u8>, Entry)>, b: Seq<(Vec<u8>, Entry)>)
    requires
        a.to_multiset() == b.to_multiset(),
    ensures
        EntryInfo::dir_info_of(child_infos(a)) == EntryInfo::dir_info_of(child_infos(b)),
        sum_dirs(a) == sum_dirs(b),
        sum_files(a) == sum_files(b),
{
    assert forall|x: (Vec<u8>, Entry), y: (Vec<u8>, Entry), v: int| #[trigger] dirs_foldr()(
        x,
        dirs_foldr()(y, v),
    ) == dirs_foldr()(y, dirs_foldr()(x, v)) by {}
    assert(commutative_foldr(dirs_foldr()));
    lemma_fold_right_permutation(a, b, dirs_foldr(), 0);
    assert forall|x: (Vec<u8>, Entry), y: (Vec<u8>, Entry), v: int| #[trigger] files_foldr()(
        x,
        files_foldr()(y, v),
    ) == files_foldr()(y, files_foldr()(x, v)) by {}
    assert(commutative_foldr(files_foldr()));
    lemma_fold_right_permutation(a, b, files_foldr(), 0);
    lemma_sum_dirs_fold(a, 0);
    lemma_sum_dirs_fold(b, 0);
    assert forall|x: (Vec<u8>, Entry), y: (Vec<u8>, Entry), v: Multiset<EntryInfo>|
        #[trigger] info_ms_foldr()(x, info_ms_foldr()(y, v)) == info_ms_foldr()(
        y,
        info_ms_foldr()(x, v),
    ) by {
        assert(v.insert(y.1.info_spec()).insert(x.1.info_spec()) =~= v.insert(
            x.1.info_spec(),
        ).insert(y.1.info_spec()));
    }
    assert(commutative_foldr(info_ms_foldr()));
    lemma_fold_right_permutation(a, b, info_ms_foldr(), Multiset::empty());
    lemma_infos_fold(a, Multiset::empty());
    lemma_infos_fold(b, Multiset::empty());
    assert(child_infos(a).to_multiset() =~= child_infos(a).to_multiset().add(Multiset::empty()));
    assert(child_infos(b).to_multiset() =~= child_infos(b).to_multiset().add(Multiset::empty()));
    lemma_dir_info_of_permutation(child_infos(a), child_infos(b));
}

} // verus!
