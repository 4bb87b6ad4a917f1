//! Bookkeeping of the sectors stored in a directory: each written sector is
//! one file named `sector_timestamp_writerank` that holds its 4096 bytes,
//! and the manager keeps, for each sector, the timestamp and write rank of
//! its file.
use crate::atomic_register::newer;
use crate::domain::{SectorIdx, SectorVec};
use crate::text::{
    classify, classify_file_name, format_triple, join, join_path, lemma_temp_name_is_other,
    lemma_triple_name_injective, lemma_triple_name_reads_back, triple_name, FileNameKind,
};
use std::collections::{HashMap, HashSet};
use vstd::prelude::*;

verus! {

broadcast use vstd::std_specs::hash::group_hash_axioms;

/// Stores sectors and their metadata.
pub trait SectorsManager {
    /// Returns 4096 bytes of sector data by index.
    fn read_data(&self, idx: SectorIdx) -> SectorVec;

    /// Returns timestamp and write rank of the process which has saved this
    /// data.
    fn read_metadata(&self, idx: SectorIdx) -> (u64, u8);

    /// Writes a new data, along with timestamp and write rank to some
    /// sector.
    fn write(&self, idx: SectorIdx, sector: &(SectorVec, u64, u8));
}

/// Timestamp and write rank recorded for a sector; `(0, 0)` for a sector
/// never written.
pub open spec fn lookup(index: Map<SectorIdx, (u64, u8)>, idx: SectorIdx) -> (u64, u8) {
    if index.contains_key(idx) {
        index[idx]
    } else {
        (0, 0)
    }
}

/// Views of a sequence of strings.
pub open spec fn strings_view(v: Seq<String>) -> Seq<Seq<char>> {
    v.map_values(|s: String| s@)
}

/// The sector, timestamp and write rank that the name of a file gives, if
/// it is `sector_timestamp_writerank` with three parts that read as numbers
/// (`03_1_1` gives sector 3, timestamp 1, write rank 1).
pub open spec fn sector_file(name: Seq<char>) -> Option<(u64, u64, u8)> {
    match classify_file_name(name) {
        FileNameKind::Sector { idx, ts, wr } => Some((idx, ts, wr)),
        _ => None,
    }
}

/// The index rebuilt from the names of the files of a directory: for each
/// sector with a file, the newest timestamp and write rank among its files.
pub open spec fn recover_index(names: Seq<Seq<char>>) -> Map<SectorIdx, (u64, u8)>
    decreases names.len(),
{
    if names.len() == 0 {
        Map::empty()
    } else {
        let index = recover_index(names.drop_last());
        match sector_file(names.last()) {
            Some((idx, ts, wr)) => if !index.contains_key(idx) || newer(
                ts,
                wr,
                index[idx].0,
                index[idx].1,
            ) {
                index.insert(idx, (ts, wr))
            } else {
                index
            },
            None => index,
        }
    }
}

/// Whether the file `name` is the file of its sector's newest pair.
pub open spec fn is_kept(index: Map<SectorIdx, (u64, u8)>, name: Seq<char>) -> bool {
    match sector_file(name) {
        Some((idx, ts, wr)) => index.contains_key(idx) && index[idx] == (ts, wr),
        None => false,
    }
}

/// Whether a name of `prefix` gives the same sector, timestamp and write
/// rank as `name`.
pub open spec fn repeated(prefix: Seq<Seq<char>>, name: Seq<char>) -> bool {
    exists|j: int| 0 <= j < prefix.len() && #[trigger] sector_file(prefix[j]) == sector_file(name)
}

/// The names that are not kept, in the order listed: all but the first
/// listed file of each sector's newest metadata.
pub open spec fn not_kept(index: Map<SectorIdx, (u64, u8)>, names: Seq<Seq<char>>) -> Seq<Seq<char>>
    decreases names.len(),
{
    if names.len() == 0 {
        Seq::empty()
    } else if is_kept(index, names.last()) && !repeated(names.drop_last(), names.last()) {
        not_kept(index, names.drop_last())
    } else {
        not_kept(index, names.drop_last()).push(names.last())
    }
}

/// The names of the files that hold the sectors of an index: one per
/// sector, named after its timestamp and write rank.
pub open spec fn files_of(index: Map<SectorIdx, (u64, u8)>) -> Set<Seq<char>> {
    Set::new(
        |n: Seq<char>|
            exists|idx: SectorIdx|
                #[trigger] index.contains_key(idx) && n == triple_name(
                    idx as nat,
                    index[idx].0 as nat,
                    index[idx].1 as nat,
                ),
    )
}

/// The paths of the named files of a directory.
pub open spec fn paths_in(dir: Seq<char>, names: Seq<Seq<char>>) -> Seq<Seq<char>> {
    Seq::new(names.len(), |i: int| join_path(dir, names[i]))
}

/// Whether no name of the list has three parts of which one is not a number
/// of its type.
pub open spec fn names_parsable(names: Seq<Seq<char>>) -> bool {
    forall|i: int| 0 <= i < names.len() ==> !(classify_file_name(#[trigger] names[i]) is Unparsable)
}

/// The sector index, timestamp and write rank kept for a directory.
pub struct SectorsManagerState {
    path: String,
    data_access: HashMap<SectorIdx, (u64, u8)>,
}

impl SectorsManagerState {
    /// The directory of the sector files.
    pub closed spec fn dir(&self) -> Seq<char> {
        self.path@
    }

    /// Timestamp and write rank of the file of each written sector.
    pub closed spec fn index(&self) -> Map<SectorIdx, (u64, u8)> {
        self.data_access@
    }

    /// Rebuilds the index from the names of the files in the directory and
    /// returns the paths of the files to remove, in the order listed: every
    /// file but the newest file of each sector.
    pub fn new(path: String, file_names: Vec<String>) -> (r: (SectorsManagerState, Vec<String>))
        requires
            names_parsable(strings_view(file_names@)),
        ensures
            r.0.dir() == path@,
            r.0.index() == recover_index(strings_view(file_names@)),
            strings_view(r.1@) == paths_in(
                path@,
                not_kept(recover_index(strings_view(file_names@)), strings_view(file_names@)),
            ),
    {
        let (data_access, removed) = Self::sectors_crash_recovery(&path, &file_names);
        (SectorsManagerState { path, data_access }, removed)
    }

    /// The sector file that a name stands for.
    fn sector_file_of(name: &String) -> (r: Option<(u64, u64, u8)>)
        ensures
            r == sector_file(name@),
    {
        match classify(name.as_str()) {
            FileNameKind::Sector { idx, ts, wr } => Some((idx, ts, wr)),
            _ => None,
        }
    }

    /// The index rebuilt from the names of the files in the directory, and
    /// the paths of the files to remove.
    fn sectors_crash_recovery(path: &String, file_names: &Vec<String>) -> (r: (
        HashMap<SectorIdx, (u64, u8)>,
        Vec<String>,
    ))
        requires
            names_parsable(strings_view(file_names@)),
        ensures
            r.0@ == recover_index(strings_view(file_names@)),
            strings_view(r.1@) == paths_in(
                path@,
                not_kept(recover_index(strings_view(file_names@)), strings_view(file_names@)),
            ),
    {
        let ghost names = strings_view(file_names@);
        let mut data_access: HashMap<SectorIdx, (u64, u8)> = HashMap::new();
        let mut i: usize = 0;
        while i < file_names.len()
            invariant
                i <= file_names@.len(),
                names == strings_view(file_names@),
                data_access@ == recover_index(names.take(i as int)),
            decreases file_names@.len() - i,
        {
            let ghost next = names.take(i + 1);
            assert(next.drop_last() == names.take(i as int));
            assert(next.last() == file_names@[i as int]@);
            match Self::sector_file_of(&file_names[i]) {
                Some((idx, ts, wr)) => {
                    match data_access.get(&idx) {
                        Some(meta) => {
                            let (old_ts, old_wr) = *meta;
                            if ts > old_ts || (ts == old_ts && wr > old_wr) {
                                data_access.insert(idx, (ts, wr));
                            }
                        },
                        None => {
                            data_access.insert(idx, (ts, wr));
                        },
                    }
                },
                None => {},
            }
            i = i + 1;
        }
        assert(names.take(file_names@.len() as int) == names);
        let ghost index = data_access@;
        let mut removed: Vec<String> = Vec::new();
        // Sectors whose newest file has been kept already.
        let mut seen: HashSet<SectorIdx> = HashSet::new();
        let mut i: usize = 0;
        while i < file_names.len()
            invariant
                i <= file_names@.len(),
                names == strings_view(file_names@),
                index == data_access@,
                strings_view(removed@) == paths_in(path@, not_kept(index, names.take(i as int))),
                forall|x: SectorIdx|
                    #[trigger] seen@.contains(x) <==> index.contains_key(x) && exists|j: int|
                        0 <= j < i && #[trigger] sector_file(names[j]) == Some(
                            (x, index[x].0, index[x].1),
                        ),
            decreases file_names@.len() - i,
        {
            let ghost next = names.take(i + 1);
            let ghost old_removed = removed@;
            let ghost prefix = names.take(i as int);
            assert(next.drop_last() == prefix);
            assert(next.last() == file_names@[i as int]@);
            let kept = match Self::sector_file_of(&file_names[i]) {
                Some((idx, ts, wr)) => match data_access.get(&idx) {
                    Some(meta) => {
                        if meta.0 == ts && meta.1 == wr {
                            let first = !seen.contains(&idx);
                            proof {
                                if repeated(prefix, names[i as int]) {
                                    let j = choose|j: int|
                                        0 <= j < prefix.len() && #[trigger] sector_file(prefix[j])
                                            == sector_file(names[i as int]);
                                    assert(sector_file(names[j]) == Some((idx, index[idx].0, index[idx].1)));
                                }
                                if seen@.contains(idx) {
                                    let j = choose|j: int|
                                        0 <= j < i && #[trigger] sector_file(names[j]) == Some(
                                            (idx, index[idx].0, index[idx].1),
                                        );
                                    assert(sector_file(prefix[j]) == sector_file(names[i as int]));
                                }
                            }
                            if first {
                                seen.insert(idx);
                            }
                            first
                        } else {
                            false
                        }
                    },
                    None => false,
                },
                None => false,
            };
            proof {
                assert(kept == (is_kept(index, names[i as int]) && !repeated(prefix, names[i as int])));
                assert forall|x: SectorIdx| #[trigger] seen@.contains(x) <==> index.contains_key(x)
                    && exists|j: int|
                    0 <= j < i + 1 && #[trigger] sector_file(names[j]) == Some(
                        (x, index[x].0, index[x].1),
                    ) by {
                    if index.contains_key(x) && sector_file(names[i as int]) == Some(
                        (x, index[x].0, index[x].1),
                    ) {
                        assert(seen@.contains(x));
                    }
                    if seen@.contains(x) && !(sector_file(names[i as int]) == Some(
                        (x, index[x].0, index[x].1),
                    )) {
                        let j = choose|j: int|
                            0 <= j < i && #[trigger] sector_file(names[j]) == Some(
                                (x, index[x].0, index[x].1),
                            );
                    }
                }
            }
            if !kept {
                removed.push(join(path, &file_names[i]));
            }
            proof {
                let r0 = not_kept(index, names.take(i as int));
                let r1 = not_kept(index, next);
                assert(strings_view(old_removed).len() == old_removed.len());
                assert(paths_in(path@, r0).len() == r0.len());
                if kept {
                    assert(removed@ == old_removed);
                } else {
                    assert(r1 == r0.push(file_names@[i as int]@));
                    assert forall|j: int| 0 <= j < removed@.len() implies strings_view(removed@)[j]
                        == paths_in(path@, r1)[j] by {
                        if j < old_removed.len() {
                            assert(removed@[j] == old_removed[j]);
                            assert(strings_view(old_removed)[j] == old_removed[j]@);
                            assert(paths_in(path@, r0)[j] == join_path(path@, r0[j]));
                        }
                    }
                    assert(strings_view(removed@) =~= paths_in(path@, r1));
                }
            }
            i = i + 1;
        }
        assert(names.take(file_names@.len() as int) == names);
        (data_access, removed)
    }

    /// The path of the file of a sector with the given metadata.
    pub fn sectoridx_file_path(&self, idx: SectorIdx, ts: u64, wr: u8) -> (p: String)
        ensures
            p@ == join_path(self.dir(), triple_name(idx as nat, ts as nat, wr as nat)),
    {
        join(&self.path, &format_triple(idx, ts, wr))
    }

    /// Timestamp and write rank of the sector; `(0, 0)` if it was never
    /// written.
    pub fn read_metadata(&self, idx: SectorIdx) -> (meta: (u64, u8))
        ensures
            meta == lookup(self.index(), idx),
    {
        match self.data_access.get(&idx) {
            Some(meta) => *meta,
            None => (0, 0),
        }
    }

    /// The file that holds the data of the sector, if it was ever written;
    /// a sector never written reads as zeros.
    pub fn data_file_path(&self, idx: SectorIdx) -> (p: Option<String>)
        ensures
            p is Some <==> self.index().contains_key(idx),
            p matches Some(path) ==> path@ == join_path(
                self.dir(),
                triple_name(idx as nat, self.index()[idx].0 as nat, self.index()[idx].1 as nat),
            ),
    {
        match self.data_access.get(&idx) {
            Some(meta) => Some(self.sectoridx_file_path(idx, meta.0, meta.1)),
            None => None,
        }
    }

    /// Records that the file of the sector with the given metadata has been
    /// written and synced, and returns the sector's previous file, to be
    /// removed, if it had one with other metadata.
    pub fn record_write(&mut self, idx: SectorIdx, ts: u64, wr: u8) -> (old_file: Option<String>)
        ensures
            final(self).dir() == old(self).dir(),
            final(self).index() == old(self).index().insert(idx, (ts, wr)),
            old_file is Some <==> old(self).index().contains_key(idx) && old(self).index()[idx] != (
            ts,
            wr,
            ),
            old_file matches Some(p) ==> p@ == join_path(
                old(self).dir(),
                triple_name(
                    idx as nat,
                    old(self).index()[idx].0 as nat,
                    old(self).index()[idx].1 as nat,
                ),
            ),
    {
        let previous = match self.data_access.get(&idx) {
            Some(meta) => Some(*meta),
            None => None,
        };
        self.data_access.insert(idx, (ts, wr));
        match previous {
            Some((old_ts, old_wr)) => if old_ts != ts || old_wr != wr {
                Some(self.sectoridx_file_path(idx, old_ts, old_wr))
            } else {
                None
            },
            None => None,
        }
    }

    /// The file to which a new content of a sector is written before it is
    /// renamed to the sector's file: in the same directory, under a name
    /// that is not that of a sector file.
    pub fn temp_file_path(&self, idx: SectorIdx, ts: u64, wr: u8) -> (p: String)
        ensures
            p@ == join_path(self.dir(), "tmp_"@ + triple_name(idx as nat, ts as nat, wr as nat)),
    {
        let mut name = String::from_str("tmp_");
        let triple = format_triple(idx, ts, wr);
        name.append(triple.as_str());
        join(&self.path, &name)
    }
}

// ---------------------------------------------------------------------
// Laws of the sector store.
// ---------------------------------------------------------------------

/// Timestamp and write rank of a sector file.
pub open spec fn file_pair(name: Seq<char>) -> (u64, u8) {
    match sector_file(name) {
        Some((_, ts, wr)) => (ts, wr),
        None => (0, 0),
    }
}

/// Whether the `i`-th name is that of a file of sector `idx`.
pub open spec fn names_sector(names: Seq<Seq<char>>, i: int, idx: SectorIdx) -> bool {
    sector_file(names[i]) matches Some((j, _, _)) && j == idx
}

/// The name of the file of a sector reads back as its sector and metadata.
pub proof fn lemma_sector_file_of_name(idx: SectorIdx, ts: u64, wr: u8)
    ensures
        sector_file(triple_name(idx as nat, ts as nat, wr as nat)) == Some((idx, ts, wr)),
{
    lemma_triple_name_reads_back(idx, ts, wr);
}

/// Recovery keeps, for every sector, the newest of its files, whatever the
/// order in which the directory lists them: a sector is in the index
/// exactly when it has a file, its metadata is that of one of its files,
/// and no file of the sector is newer.
pub proof fn lemma_recover_keeps_newest(names: Seq<Seq<char>>, idx: SectorIdx)
    ensures
        recover_index(names).contains_key(idx) <==> exists|i: int|
            0 <= i < names.len() && #[trigger] names_sector(names, i, idx),
        recover_index(names).contains_key(idx) ==> exists|i: int|
            0 <= i < names.len() && #[trigger] sector_file(names[i]) == Some(
                (idx, recover_index(names)[idx].0, recover_index(names)[idx].1),
            ),
        forall|i: int|
            0 <= i < names.len() && #[trigger] names_sector(names, i, idx) ==> !newer(
                file_pair(names[i]).0,
                file_pair(names[i]).1,
                recover_index(names)[idx].0,
                recover_index(names)[idx].1,
            ),
    decreases names.len(),
{
    if names.len() > 0 {
        let prefix = names.drop_last();
        let last = names.len() - 1;
        lemma_recover_keeps_newest(prefix, idx);
        let m0 = recover_index(prefix);
        let m = recover_index(names);
        assert forall|i: int| 0 <= i < last implies names[i] == prefix[i] by {}
        assert forall|i: int| 0 <= i < last implies (names_sector(names, i, idx) == names_sector(
            prefix,
            i,
            idx,
        )) by {}
        if m.contains_key(idx) {
            if m0.contains_key(idx) && m[idx] == m0[idx] {
                let i = choose|i: int|
                    0 <= i < prefix.len() && #[trigger] sector_file(prefix[i]) == Some(
                        (idx, m0[idx].0, m0[idx].1),
                    );
                assert(sector_file(names[i]) == Some((idx, m[idx].0, m[idx].1)));
                assert(names_sector(names, i, idx));
            } else {
                assert(sector_file(names[last]) == Some((idx, m[idx].0, m[idx].1)));
                assert(names_sector(names, last, idx));
            }
        }
        if exists|i: int| 0 <= i < names.len() && #[trigger] names_sector(names, i, idx) {
            let i = choose|i: int| 0 <= i < names.len() && #[trigger] names_sector(names, i, idx);
            if i < last {
                assert(names_sector(prefix, i, idx));
            }
        }
        if !m.contains_key(idx) {
            assert forall|i: int| 0 <= i < names.len() implies !#[trigger] names_sector(
                names,
                i,
                idx,
            ) by {
                if i < last {
                    assert(!names_sector(prefix, i, idx));
                }
            }
        }
        assert forall|i: int| 0 <= i < names.len() && #[trigger] names_sector(names, i, idx) implies !newer(
            file_pair(names[i]).0,
            file_pair(names[i]).1,
            m[idx].0,
            m[idx].1,
        ) by {
            if i < last {
                assert(names_sector(prefix, i, idx));
            }
        }
    }
}

/// Whether the listed name `name` is kept by recovery: it is the file of
/// its sector's newest metadata, and no name listed before it gives the
/// same sector and metadata.
pub open spec fn kept_in(index: Map<SectorIdx, (u64, u8)>, names: Seq<Seq<char>>, name: Seq<char>) -> bool {
    &&& is_kept(index, name)
    &&& forall|i: int| 0 <= i < names.len() && names[i] == name ==> !repeated(#[trigger] names.take(i), name)
}

/// A name of a listing (of distinct names) is removed exactly when it is
/// listed and not kept.
pub proof fn lemma_not_kept_contains(index: Map<SectorIdx, (u64, u8)>, names: Seq<Seq<char>>, n: Seq<char>)
    requires
        names.no_duplicates(),
    ensures
        not_kept(index, names).contains(n) <==> names.contains(n) && !kept_in(index, names, n),
    decreases names.len(),
{
    if names.len() > 0 {
        let prefix = names.drop_last();
        let last = names.last();
        let l = prefix.len() as int;
        assert(prefix.no_duplicates());
        lemma_not_kept_contains(index, prefix, n);
        assert(names == prefix.push(last));
        assert(names.take(l) == prefix);
        assert forall|i: int| 0 <= i < l implies #[trigger] names.take(i) == prefix.take(i) && names[i]
            == prefix[i] by {}
        if n != last {
            assert(kept_in(index, names, n) == kept_in(index, prefix, n)) by {
                if kept_in(index, prefix, n) {
                    assert forall|i: int| 0 <= i < names.len() && names[i] == n implies !repeated(
                        #[trigger] names.take(i),
                        n,
                    ) by {
                        assert(i < l);
                        assert(prefix[i] == n);
                    }
                }
                if kept_in(index, names, n) {
                    assert forall|i: int| 0 <= i < prefix.len() && prefix[i] == n implies !repeated(
                        #[trigger] prefix.take(i),
                        n,
                    ) by {
                        assert(names[i] == n);
                        assert(names.take(i) == prefix.take(i));
                    }
                }
            }
            assert(names.contains(n) == prefix.contains(n)) by {
                if names.contains(n) {
                    let i = choose|i: int| 0 <= i < names.len() && names[i] == n;
                    assert(prefix[i] == n);
                }
                if prefix.contains(n) {
                    let i = choose|i: int| 0 <= i < prefix.len() && prefix[i] == n;
                    assert(names[i] == n);
                }
            }
        } else {
            assert(names[l] == n);
            assert(!prefix.contains(n)) by {
                if prefix.contains(n) {
                    let i = choose|i: int| 0 <= i < prefix.len() && prefix[i] == n;
                    assert(names[i] == names[l]);
                }
            }
            assert(kept_in(index, names, n) == (is_kept(index, n) && !repeated(prefix, n))) by {
                if is_kept(index, n) && !repeated(prefix, n) {
                    assert forall|i: int| 0 <= i < names.len() && names[i] == n implies !repeated(
                        #[trigger] names.take(i),
                        n,
                    ) by {
                        if i < l {
                            assert(prefix[i] == n);
                        }
                    }
                }
                if kept_in(index, names, n) {
                    assert(!repeated(names.take(l), n));
                }
            }
        }
        let r = not_kept(index, prefix);
        assert(r.push(last).contains(n) <==> (r.contains(n) || n == last)) by {
            if r.push(last).contains(n) && n != last {
                let i = choose|i: int| 0 <= i < r.len() + 1 && r.push(last)[i] == n;
                assert(r[i] == n);
            }
            if r.contains(n) {
                let i = choose|i: int| 0 <= i < r.len() && r[i] == n;
                assert(r.push(last)[i] == n);
            }
            if n == last {
                assert(r.push(last)[r.len() as int] == n);
            }
        }
    }
}

/// The first listed name that gives `target`.
proof fn lemma_first_listed(names: Seq<Seq<char>>, target: Option<(u64, u64, u8)>, i: int) -> (k: int)
    requires
        0 <= i < names.len(),
        sector_file(names[i]) == target,
    ensures
        0 <= k <= i,
        sector_file(names[k]) == target,
        forall|j: int| 0 <= j < k ==> sector_file(#[trigger] names[j]) != target,
    decreases i,
{
    if exists|j: int| 0 <= j < i && sector_file(#[trigger] names[j]) == target {
        let j = choose|j: int| 0 <= j < i && sector_file(#[trigger] names[j]) == target;
        lemma_first_listed(names, target, j)
    } else {
        i
    }
}

/// After recovery over a listing of distinct names, the files left are
/// exactly one per recovered sector: every file left is the file of its
/// sector's newest metadata, every recovered sector has one left, and no
/// sector has two.
pub proof fn lemma_recovery_leaves_one_file_per_sector(
    names: Seq<Seq<char>>,
    n: Seq<char>,
    m: Seq<char>,
    idx: SectorIdx,
)
    requires
        names.no_duplicates(),
    ensures
        ({
            let index = recover_index(names);
            let left = |x: Seq<char>| names.contains(x) && !not_kept(index, names).contains(x);
            &&& left(n) ==> (sector_file(n) matches Some((j, t, w)) && index.contains_key(j)
                && index[j] == (t, w))
            &&& index.contains_key(idx) ==> exists|x: Seq<char>|
                left(x) && #[trigger] sector_file(x) == Some((idx, index[idx].0, index[idx].1))
            &&& left(n) && left(m) && sector_file(n) == sector_file(m) ==> n == m
        }),
{
    let index = recover_index(names);
    lemma_not_kept_contains(index, names, n);
    lemma_not_kept_contains(index, names, m);
    if index.contains_key(idx) {
        let target = Some((idx, index[idx].0, index[idx].1));
        lemma_recover_keeps_newest(names, idx);
        let i = choose|i: int| 0 <= i < names.len() && #[trigger] sector_file(names[i]) == target;
        let k = lemma_first_listed(names, target, i);
        let x = names[k];
        lemma_not_kept_contains(index, names, x);
        assert forall|j: int| 0 <= j < names.len() && names[j] == x implies !repeated(
            #[trigger] names.take(j),
            x,
        ) by {
            assert(j == k);
            if repeated(names.take(j), x) {
                let q = choose|q: int|
                    0 <= q < names.take(j).len() && #[trigger] sector_file(names.take(j)[q])
                        == sector_file(x);
                assert(names[q] == names.take(j)[q]);
            }
        }
        assert(names.contains(x));
        assert(kept_in(index, names, x));
    }
    if names.contains(n) && !not_kept(index, names).contains(n) && names.contains(m)
        && !not_kept(index, names).contains(m) && sector_file(n) == sector_file(m) {
        let i1 = choose|i: int| 0 <= i < names.len() && names[i] == n;
        let i2 = choose|i: int| 0 <= i < names.len() && names[i] == m;
        if i1 < i2 {
            assert(names.take(i2)[i1] == n);
            assert(repeated(names.take(i2), m));
        } else if i2 < i1 {
            assert(names.take(i1)[i2] == m);
            assert(repeated(names.take(i1), n));
        }
    }
}

/// When every listed name that gives a sector is spelled as the store
/// names its files, the files left after recovery are exactly the files of
/// the recovered index.
pub proof fn lemma_recovery_leaves_files_of_index(names: Seq<Seq<char>>, n: Seq<char>)
    requires
        names.no_duplicates(),
        forall|i: int|
            0 <= i < names.len() ==> (#[trigger] sector_file(names[i]) matches Some((a, b, c)) ==> names[i]
                == triple_name(a as nat, b as nat, c as nat)),
    ensures
        (names.contains(n) && !not_kept(recover_index(names), names).contains(n)) <==> files_of(
            recover_index(names),
        ).contains(n),
{
    let index = recover_index(names);
    lemma_recovery_leaves_one_file_per_sector(names, n, n, 0);
    if names.contains(n) && !not_kept(index, names).contains(n) {
        let i = choose|i: int| 0 <= i < names.len() && names[i] == n;
        let (j, t, w) = sector_file(n)->0;
        assert(sector_file(names[i]) == Some((j, t, w)));
        assert(index.contains_key(j) && n == triple_name(j as nat, index[j].0 as nat, index[j].1 as nat));
    }
    if files_of(index).contains(n) {
        let idx = choose|idx: SectorIdx|
            #[trigger] index.contains_key(idx) && n == triple_name(
                idx as nat,
                index[idx].0 as nat,
                index[idx].1 as nat,
            );
        lemma_recovery_leaves_one_file_per_sector(names, n, n, idx);
        let x = choose|x: Seq<char>|
            names.contains(x) && !not_kept(index, names).contains(x) && #[trigger] sector_file(x)
                == Some((idx, index[idx].0, index[idx].1));
        let i = choose|i: int| 0 <= i < names.len() && names[i] == x;
        assert(sector_file(names[i]) == Some((idx, index[idx].0, index[idx].1)));
        assert(x == n);
    }
}

/// The files of a store with `index` once the new file of `idx` with
/// metadata `(ts, wr)` has been written and the file that `record_write`
/// returns has been removed.
pub open spec fn files_after_write(index: Map<SectorIdx, (u64, u8)>, idx: SectorIdx, ts: u64, wr: u8) -> Set<
    Seq<char>,
> {
    let files = files_of(index).insert(triple_name(idx as nat, ts as nat, wr as nat));
    if index.contains_key(idx) && index[idx] != (ts, wr) {
        files.remove(triple_name(idx as nat, index[idx].0 as nat, index[idx].1 as nat))
    } else {
        files
    }
}

/// Writing a sector's new file and removing the file that `record_write`
/// returns keeps exactly one file per sector, named after its metadata.
pub proof fn lemma_write_keeps_one_file_per_sector(
    index: Map<SectorIdx, (u64, u8)>,
    idx: SectorIdx,
    ts: u64,
    wr: u8,
)
    ensures
        files_after_write(index, idx, ts, wr) == files_of(index.insert(idx, (ts, wr))),
{
    let index2 = index.insert(idx, (ts, wr));
    let new_file = triple_name(idx as nat, ts as nat, wr as nat);
    let files = files_of(index).insert(new_file);
    let differs = index.contains_key(idx) && index[idx] != (ts, wr);
    let old_file = triple_name(idx as nat, index[idx].0 as nat, index[idx].1 as nat);
    let after = if differs {
        files.remove(old_file)
    } else {
        files
    };
    assert forall|n: Seq<char>| after.contains(n) implies files_of(index2).contains(n) by {
        if n == new_file {
            assert(index2.contains_key(idx));
        } else {
            let j = choose|j: SectorIdx|
                #[trigger] index.contains_key(j) && n == triple_name(
                    j as nat,
                    index[j].0 as nat,
                    index[j].1 as nat,
                );
            if j == idx {
                assert(!differs);
                assert(n == new_file);
            } else {
                assert(index2.contains_key(j) && index2[j] == index[j]);
            }
        }
    }
    assert forall|n: Seq<char>| files_of(index2).contains(n) implies after.contains(n) by {
        let j = choose|j: SectorIdx|
            #[trigger] index2.contains_key(j) && n == triple_name(
                j as nat,
                index2[j].0 as nat,
                index2[j].1 as nat,
            );
        if j == idx {
            assert(n == new_file);
            if differs && n == old_file {
                lemma_triple_name_injective(idx, ts, wr, idx, index[idx].0, index[idx].1);
            }
        } else {
            assert(index.contains_key(j));
            assert(files_of(index).contains(n));
            if differs && n == old_file {
                lemma_triple_name_injective(j, index[j].0, index[j].1, idx, index[idx].0, index[idx].1);
            }
        }
    }
    assert(after =~= files_of(index2));
}

/// A listing of the files that a store keeps, each once, keeps all of them.
proof fn lemma_listing_of_files_keeps_all(index: Map<SectorIdx, (u64, u8)>, names: Seq<Seq<char>>)
    requires
        names.no_duplicates(),
        forall|n: Seq<char>| names.contains(n) <==> #[trigger] files_of(index).contains(n),
    ensures
        not_kept(index, names).len() == 0,
{
    if not_kept(index, names).len() > 0 {
        let n = not_kept(index, names)[0];
        assert(not_kept(index, names).contains(n));
        lemma_not_kept_contains(index, names, n);
        let i = choose|i: int| 0 <= i < names.len() && names[i] == n;
        assert(files_of(index).contains(n));
        let c = choose|c: SectorIdx|
            #[trigger] index.contains_key(c) && n == triple_name(
                c as nat,
                index[c].0 as nat,
                index[c].1 as nat,
            );
        lemma_sector_file_of_name(c, index[c].0, index[c].1);
        assert(is_kept(index, n));
        assert forall|k: int| 0 <= k < names.len() && names[k] == n implies !repeated(
            #[trigger] names.take(k),
            n,
        ) by {
            if repeated(names.take(k), n) {
                let q = choose|q: int|
                    0 <= q < names.take(k).len() && #[trigger] sector_file(names.take(k)[q])
                        == sector_file(n);
                let x = names[q];
                assert(x == names.take(k)[q]);
                assert(names.contains(x) && names.contains(n));
                assert(files_of(index).contains(x) && files_of(index).contains(n));
                let a = choose|a: SectorIdx|
                    #[trigger] index.contains_key(a) && x == triple_name(
                        a as nat,
                        index[a].0 as nat,
                        index[a].1 as nat,
                    );
                let b = choose|b: SectorIdx|
                    #[trigger] index.contains_key(b) && n == triple_name(
                        b as nat,
                        index[b].0 as nat,
                        index[b].1 as nat,
                    );
                lemma_sector_file_of_name(a, index[a].0, index[a].1);
                lemma_sector_file_of_name(b, index[b].0, index[b].1);
                assert(a == b);
                assert(x == n);
            }
        }
    }
}

/// After a restart, recovery over any listing of the files that the store
/// keeps gives back the same index and, listing each file once, removes
/// nothing: what was written is read back after a crash.
pub proof fn lemma_restart_recovers_index(index: Map<SectorIdx, (u64, u8)>, names: Seq<Seq<char>>)
    requires
        forall|n: Seq<char>| names.contains(n) <==> #[trigger] files_of(index).contains(n),
    ensures
        recover_index(names) == index,
        names.no_duplicates() ==> not_kept(index, names).len() == 0,
{
    let r = recover_index(names);
    assert forall|i: int| 0 <= i < names.len() implies #[trigger] is_kept(index, names[i]) && (
    sector_file(names[i]) matches Some((j, t, w)) && index.contains_key(j) && index[j] == (t, w)) by {
        assert(names.contains(names[i]));
        assert(files_of(index).contains(names[i]));
        let j = choose|j: SectorIdx|
            #[trigger] index.contains_key(j) && names[i] == triple_name(
                j as nat,
                index[j].0 as nat,
                index[j].1 as nat,
            );
        lemma_sector_file_of_name(j, index[j].0, index[j].1);
    }
    assert forall|idx: SectorIdx| #[trigger] r.contains_key(idx) <==> index.contains_key(idx) by {
        lemma_recover_keeps_newest(names, idx);
        if index.contains_key(idx) {
            let n = triple_name(idx as nat, index[idx].0 as nat, index[idx].1 as nat);
            assert(files_of(index).contains(n));
            assert(names.contains(n));
            let i = choose|i: int| 0 <= i < names.len() && names[i] == n;
            lemma_sector_file_of_name(idx, index[idx].0, index[idx].1);
            assert(names_sector(names, i, idx));
        }
        if r.contains_key(idx) {
            let i = choose|i: int| 0 <= i < names.len() && #[trigger] names_sector(names, i, idx);
            assert(is_kept(index, names[i]));
        }
    }
    assert forall|idx: SectorIdx| #[trigger] r.contains_key(idx) implies r[idx] == index[idx] by {
        lemma_recover_keeps_newest(names, idx);
        let i = choose|i: int|
            0 <= i < names.len() && #[trigger] sector_file(names[i]) == Some(
                (idx, r[idx].0, r[idx].1),
            );
        assert(is_kept(index, names[i]));
    }
    assert(r =~= index);
    if names.no_duplicates() {
        lemma_listing_of_files_keeps_all(index, names);
    }
}

/// A write outlasts a restart and touches no other sector: recovery over
/// any listing of the files left after the new file of `idx` was written
/// and the file that `record_write` returned was removed reads `(ts, wr)`
/// for `idx` and, for every other sector, what it read before the write.
pub proof fn lemma_write_survives_restart(
    index: Map<SectorIdx, (u64, u8)>,
    idx: SectorIdx,
    ts: u64,
    wr: u8,
    names: Seq<Seq<char>>,
    j: SectorIdx,
)
    requires
        forall|n: Seq<char>|
            names.contains(n) <==> #[trigger] files_after_write(index, idx, ts, wr).contains(n),
    ensures
        lookup(recover_index(names), idx) == (ts, wr),
        j != idx ==> lookup(recover_index(names), j) == lookup(index, j),
{
    lemma_write_keeps_one_file_per_sector(index, idx, ts, wr);
    let index2 = index.insert(idx, (ts, wr));
    assert forall|n: Seq<char>| names.contains(n) <==> #[trigger] files_of(index2).contains(n) by {}
    lemma_restart_recovers_index(index2, names);
}

/// The files of a store with `index` at each stage of a write of `(ts, wr)`
/// to sector `idx`: before it (0), once the temporary file is written (1),
/// once it is renamed to the sector's new file (2), and once the file that
/// `record_write` returned is removed (3).
pub open spec fn files_during_write(
    index: Map<SectorIdx, (u64, u8)>,
    idx: SectorIdx,
    ts: u64,
    wr: u8,
    stage: nat,
) -> Set<Seq<char>> {
    if stage == 0 {
        files_of(index)
    } else if stage == 1 {
        files_of(index).insert("tmp_"@ + triple_name(idx as nat, ts as nat, wr as nat))
    } else if stage == 2 {
        files_of(index).insert(triple_name(idx as nat, ts as nat, wr as nat))
    } else {
        files_after_write(index, idx, ts, wr)
    }
}

/// A crash at any stage of a write recovers, for the sector written, the
/// metadata it had before or the metadata written (the latter once the old
/// file is gone), and for every other sector what it had before.
pub proof fn lemma_crash_during_write(
    index: Map<SectorIdx, (u64, u8)>,
    idx: SectorIdx,
    ts: u64,
    wr: u8,
    stage: nat,
    names: Seq<Seq<char>>,
    x: SectorIdx,
)
    requires
        stage <= 3,
        forall|n: Seq<char>|
            names.contains(n) <==> #[trigger] files_during_write(index, idx, ts, wr, stage).contains(n),
    ensures
        lookup(recover_index(names), idx) == lookup(index, idx) || lookup(recover_index(names), idx)
            == (ts, wr),
        stage == 3 ==> lookup(recover_index(names), idx) == (ts, wr),
        x != idx ==> lookup(recover_index(names), x) == lookup(index, x),
{
    if stage == 3 {
        assert forall|n: Seq<char>|
            names.contains(n) <==> #[trigger] files_after_write(index, idx, ts, wr).contains(n) by {
            assert(files_during_write(index, idx, ts, wr, stage).contains(n) == files_after_write(
                index,
                idx,
                ts,
                wr,
            ).contains(n));
        }
        lemma_write_survives_restart(index, idx, ts, wr, names, x);
    } else {
        let r = recover_index(names);
        let tmp = "tmp_"@ + triple_name(idx as nat, ts as nat, wr as nat);
        let new_file = triple_name(idx as nat, ts as nat, wr as nat);
        lemma_temp_name_is_other(idx, ts, wr);
        lemma_sector_file_of_name(idx, ts, wr);
        assert forall|y: SectorIdx| (y == idx || y == x) implies {
            &&& r.contains_key(y) ==> (r[y] == (ts, wr) && y == idx && stage == 2) || (index.contains_key(
                y,
            ) && r[y] == index[y])
            &&& index.contains_key(y) ==> r.contains_key(y)
            &&& (stage == 2 && y == idx) ==> r.contains_key(y)
        } by {
            lemma_recover_keeps_newest(names, y);
            if r.contains_key(y) {
                let i = choose|i: int|
                    0 <= i < names.len() && #[trigger] sector_file(names[i]) == Some((y, r[y].0, r[y].1));
                let n = names[i];
                assert(names.contains(n));
                assert(files_during_write(index, idx, ts, wr, stage).contains(n));
                if files_of(index).contains(n) {
                    let a = choose|a: SectorIdx|
                        #[trigger] index.contains_key(a) && n == triple_name(
                            a as nat,
                            index[a].0 as nat,
                            index[a].1 as nat,
                        );
                    lemma_sector_file_of_name(a, index[a].0, index[a].1);
                } else if stage == 1 {
                    assert(n == tmp);
                } else {
                    assert(n == new_file);
                }
            }
            if index.contains_key(y) {
                let n = triple_name(y as nat, index[y].0 as nat, index[y].1 as nat);
                assert(files_of(index).contains(n));
                assert(files_during_write(index, idx, ts, wr, stage).contains(n));
                assert(names.contains(n));
                let i = choose|i: int| 0 <= i < names.len() && names[i] == n;
                lemma_sector_file_of_name(y, index[y].0, index[y].1);
                assert(names_sector(names, i, y));
            }
            if stage == 2 && y == idx {
                assert(files_during_write(index, idx, ts, wr, stage).contains(new_file));
                assert(names.contains(new_file));
                let i = choose|i: int| 0 <= i < names.len() && names[i] == new_file;
                assert(names_sector(names, i, y));
            }
        }
    }
}

/// A store keeps as many files as sectors written, and at most one more at
/// any stage of a write: the directory holds one 4096-byte file per
/// written sector, plus one.
pub proof fn lemma_files_per_sector(
    index: Map<SectorIdx, (u64, u8)>,
    idx: SectorIdx,
    ts: u64,
    wr: u8,
    stage: nat,
)
    requires
        index.dom().finite(),
        stage <= 3,
    ensures
        files_of(index).finite(),
        files_of(index).len() == index.len(),
        files_during_write(index, idx, ts, wr, stage).finite(),
        files_during_write(index, idx, ts, wr, stage).len() <= index.len() + 1,
{
    lemma_files_of_len(index);
    let index2 = index.insert(idx, (ts, wr));
    lemma_files_of_len(index2);
    lemma_write_keeps_one_file_per_sector(index, idx, ts, wr);
    assert(index2.dom() == index.dom().insert(idx));
}

proof fn lemma_files_of_len(index: Map<SectorIdx, (u64, u8)>)
    requires
        index.dom().finite(),
    ensures
        files_of(index).finite(),
        files_of(index).len() == index.len(),
{
    let f = |a: SectorIdx| triple_name(a as nat, index[a].0 as nat, index[a].1 as nat);
    assert forall|a: SectorIdx, b: SectorIdx|
        index.dom().contains(a) && index.dom().contains(b) && #[trigger] f(a) == #[trigger] f(b) implies a
        == b by {
        lemma_triple_name_injective(a, index[a].0, index[a].1, b, index[b].0, index[b].1);
    }
    assert(vstd::relations::injective_on(f, index.dom()));
    assert(index.dom().map(f) =~= files_of(index)) by {
        assert forall|n: Seq<char>| files_of(index).contains(n) implies index.dom().map(f).contains(n) by {
            let a = choose|a: SectorIdx|
                #[trigger] index.contains_key(a) && n == triple_name(
                    a as nat,
                    index[a].0 as nat,
                    index[a].1 as nat,
                );
            assert(f(a) == n);
        }
        assert forall|n: Seq<char>| index.dom().map(f).contains(n) implies files_of(index).contains(n) by {
            let a = choose|a: SectorIdx| index.dom().contains(a) && f(a) == n;
            assert(index.contains_key(a));
        }
    }
    vstd::set_lib::lemma_map_size(index.dom(), files_of(index), f);
}

} // verus!
