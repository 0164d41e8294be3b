//! The top-N largest-files mode: a size-bounded buffer keeps only the N
//! largest file entries while records stream past, and the result is sorted
//! by size descending.  Memory is O(N); no tree is built.

use vstd::prelude::*;
use vstd::math::min;
use vstd::multiset::Multiset;

use crate::records::MftRecord;
use crate::records::TOP_FILES_CAP_LIMIT;

verus! {

broadcast use vstd::seq_lib::group_to_multiset_ensures, vstd::multiset::group_multiset_properties;

/// One entry of the top-N result: path, size, modified time.  Directories
/// are excluded.
pub struct TopFileEntry {
    pub path: String,
    pub size: u64,
    pub modified: Option<u64>,
}

/// The mathematical value of an entry.
pub open spec fn entry_view(e: TopFileEntry) -> (Seq<char>, u64, Option<u64>) {
    (e.path@, e.size, e.modified)
}

/// The values of a sequence of entries.
pub open spec fn views_of(s: Seq<TopFileEntry>) -> Seq<(Seq<char>, u64, Option<u64>)> {
    s.map_values(|e: TopFileEntry| entry_view(e))
}

/// The multiset of values of a sequence of entries.
pub open spec fn entries_mset(s: Seq<TopFileEntry>) -> Multiset<(Seq<char>, u64, Option<u64>)> {
    views_of(s).to_multiset()
}

/// The file entries (directories excluded) of a record buffer, in order.
pub open spec fn file_entries(records: Seq<MftRecord>) -> Seq<(Seq<char>, u64, Option<u64>)>
    decreases records.len(),
{
    if records.len() == 0 {
        Seq::empty()
    } else {
        let pre = file_entries(records.drop_last());
        let r = records.last();
        if r.is_dir {
            pre
        } else {
            pre + seq![(r.full_path@, r.size, r.modified)]
        }
    }
}

/// Sorted by size, largest first.
pub open spec fn sorted_by_size_desc(s: Seq<TopFileEntry>) -> bool {
    forall|i: int, j: int| 0 <= i <= j < s.len() ==> (#[trigger] s[i]).size >= (#[trigger] s[j]).size
}

/// Unrolling the file entries over a prefix grown by one record.
proof fn lemma_file_entries_unroll(records: Seq<MftRecord>, i: int)
    requires
        0 <= i < records.len(),
    ensures
        file_entries(records.take(i + 1)) == file_entries(records.take(i)) + if records[i].is_dir {
            Seq::<(Seq<char>, u64, Option<u64>)>::empty()
        } else {
            seq![(records[i].full_path@, records[i].size, records[i].modified)]
        },
{
    assert(records.take(i + 1).drop_last() =~= records.take(i));
    assert(records.take(i + 1).last() == records[i]);
    if records[i].is_dir {
        assert(file_entries(records.take(i + 1)) =~= file_entries(records.take(i)) + Seq::<
            (Seq<char>, u64, Option<u64>),
        >::empty());
    }
}

/// The size-bounded buffer of the N largest file entries seen so far.
pub struct TopFiles {
    entries: Vec<TopFileEntry>,
    cap: usize,
}

impl TopFiles {
    /// Never more than `cap` entries.
    pub closed spec fn inv(self) -> bool {
        self.entries@.len() <= self.cap
    }

    /// The bound N.
    pub closed spec fn capacity(self) -> int {
        self.cap as int
    }

    /// How many entries are held.
    pub closed spec fn count(self) -> int {
        self.entries@.len() as int
    }

    /// The multiset of held values.
    pub closed spec fn mset(self) -> Multiset<(Seq<char>, u64, Option<u64>)> {
        entries_mset(self.entries@)
    }

    /// An empty buffer with bound `n`.
    pub fn new(n: usize) -> (r: TopFiles)
        ensures
            r.inv(),
            r.capacity() == n,
            r.count() == 0,
            r.mset() == Multiset::<(Seq<char>, u64, Option<u64>)>::empty(),
    {
        let reserve = if n < TOP_FILES_CAP_LIMIT {
            n + 1
        } else {
            TOP_FILES_CAP_LIMIT
        };
        let r = TopFiles { entries: Vec::with_capacity(reserve), cap: n };
        proof {
            assert(views_of(r.entries@) =~= Seq::<(Seq<char>, u64, Option<u64>)>::empty());
            assert(r.mset() =~= Multiset::<(Seq<char>, u64, Option<u64>)>::empty());
        }
        r
    }

    /// The position of an entry with the smallest size.
    fn min_size_index(&self) -> (r: usize)
        requires
            self.entries@.len() > 0,
        ensures
            r < self.entries@.len(),
            forall|j: int|
                0 <= j < self.entries@.len() ==> (#[trigger] self.entries@[j]).size
                    >= self.entries@[r as int].size,
    {
        let n = self.entries.len();
        let mut mi: usize = 0;
        let mut i: usize = 1;
        while i < n
            invariant
                n == self.entries@.len(),
                0 < n,
                mi < i <= n || (mi == 0 && i <= n),
                mi < n,
                forall|j: int|
                    0 <= j < i ==> (#[trigger] self.entries@[j]).size
                        >= self.entries@[mi as int].size,
            decreases n - i,
        {
            if self.entries[i].size < self.entries[mi].size {
                mi = i;
            }
            i = i + 1;
        }
        mi
    }

    /// Offer one file entry: it is kept, and when the buffer then exceeds
    /// its bound an entry of smallest size is discarded.
    pub fn push_file(&mut self, path: String, size: u64, modified: Option<u64>)
        requires
            old(self).inv(),
        ensures
            final(self).inv(),
            final(self).capacity() == old(self).capacity(),
            old(self).count() < old(self).capacity() ==> {
                &&& final(self).mset() == old(self).mset().insert((path@, size, modified))
                &&& final(self).count() == old(self).count() + 1
            },
            old(self).count() >= old(self).capacity() ==> {
                &&& final(self).count() == old(self).count()
                &&& exists|d: (Seq<char>, u64, Option<u64>)|
                    {
                        &&& #[trigger] old(self).mset().insert((path@, size, modified)).count(d)
                            > 0
                        &&& final(self).mset() == old(self).mset().insert(
                            (path@, size, modified),
                        ).remove(d)
                        &&& forall|x: (Seq<char>, u64, Option<u64>)|
                            #[trigger] old(self).mset().insert((path@, size, modified)).count(x)
                                > 0 ==> d.1 <= x.1
                    }
            },
    {
        let ghost pre = self.entries@;
        let ghost newv = (path@, size, modified);
        let e = TopFileEntry { path, size, modified };
        self.entries.push(e);
        proof {
            assert(views_of(self.entries@) =~= views_of(pre).push(newv));
            assert(self.entries@.len() == pre.len() + 1);
        }
        if self.entries.len() > self.cap {
            let ghost mid = self.entries@;
            let mi = self.min_size_index();
            let ghost dropped = entry_view(self.entries@[mi as int]);
            self.entries.remove(mi);
            proof {
                assert(self.entries@ =~= mid.remove(mi as int));
                assert(views_of(self.entries@) =~= views_of(mid).remove(mi as int));
                assert(views_of(mid)[mi as int] == dropped);
                assert(entries_mset(self.entries@) =~= views_of(mid).to_multiset().remove(
                    dropped,
                ));
                let withnew = entries_mset(pre).insert(newv);
                assert(views_of(mid) =~= views_of(pre).push(newv));
                assert(views_of(mid).to_multiset() =~= withnew);
                assert(withnew.count(dropped) > 0) by {
                    assert(views_of(mid).contains(dropped));
                }
                assert forall|x: (Seq<char>, u64, Option<u64>)| #[trigger]
                    withnew.count(x) > 0 implies dropped.1 <= x.1 by {
                    assert(views_of(mid).contains(x));
                    let j = choose|j: int|
                        0 <= j < views_of(mid).len() && #[trigger] views_of(mid)[j] == x;
                    assert(mid[j].size >= mid[mi as int].size);
                    assert(x.1 == mid[j].size);
                }
                assert(final(self).mset() == withnew.remove(dropped));
                assert(old(self).mset() == entries_mset(pre));
                assert(old(self).mset().insert(newv).count(dropped) > 0);
                assert(final(self).mset() == old(self).mset().insert(newv).remove(dropped));
                assert(forall|x: (Seq<char>, u64, Option<u64>)|
                    #[trigger] old(self).mset().insert(newv).count(x) > 0 ==> dropped.1 <= x.1);
            }
        }
    }

    /// The held entries, in an arbitrary order, consuming the buffer.
    pub fn into_entries(self) -> (r: Vec<TopFileEntry>)
        ensures
            entries_mset(r@) == self.mset(),
            r@.len() == self.count(),
    {
        self.entries
    }
}

/// Sort entries by size, largest first, keeping the multiset of values.
pub fn sort_entries_by_size_desc(v: Vec<TopFileEntry>) -> (r: Vec<TopFileEntry>)
    ensures
        r@.len() == v@.len(),
        sorted_by_size_desc(r@),
        entries_mset(r@) == entries_mset(v@),
{
    let mut rem = v;
    let ghost input = rem@;
    let mut out: Vec<TopFileEntry> = Vec::new();
    proof {
        assert(views_of(out@) =~= Seq::<(Seq<char>, u64, Option<u64>)>::empty());
        assert(entries_mset(out@).add(entries_mset(rem@)) =~= entries_mset(input));
    }
    while rem.len() > 0
        invariant
            entries_mset(out@).add(entries_mset(rem@)) == entries_mset(input),
            out@.len() + rem@.len() == input.len(),
            sorted_by_size_desc(out@),
            forall|i: int, j: int|
                0 <= i < out@.len() && 0 <= j < rem@.len() ==> (#[trigger] out@[i]).size
                    >= (#[trigger] rem@[j]).size,
        decreases rem@.len(),
    {
        let n = rem.len();
        let mut xi: usize = 0;
        let mut i: usize = 1;
        while i < n
            invariant
                n == rem@.len(),
                0 < n,
                xi < n,
                i <= n,
                forall|j: int|
                    0 <= j < i ==> (#[trigger] rem@[j]).size <= rem@[xi as int].size,
            decreases n - i,
        {
            if rem[i].size > rem[xi].size {
                xi = i;
            }
            i = i + 1;
        }
        let ghost pre_out = out@;
        let ghost pre_rem = rem@;
        let ghost picked = entry_view(rem@[xi as int]);
        let e = rem.remove(xi);
        proof {
            assert(rem@ =~= pre_rem.remove(xi as int));
            assert(views_of(rem@) =~= views_of(pre_rem).remove(xi as int));
            assert(views_of(pre_rem)[xi as int] == picked);
            assert(entries_mset(rem@) =~= entries_mset(pre_rem).remove(picked));
            assert(entries_mset(pre_rem).count(picked) > 0) by {
                assert(views_of(pre_rem).contains(picked));
            }
        }
        out.push(e);
        proof {
            assert(views_of(out@) =~= views_of(pre_out).push(picked));
            assert(entries_mset(out@) =~= entries_mset(pre_out).insert(picked));
            assert(entries_mset(out@).add(entries_mset(rem@)) =~= entries_mset(pre_out).add(
                entries_mset(pre_rem),
            ));
            assert(out@[out@.len() - 1] == pre_rem[xi as int]);
            assert forall|a: int, b: int| 0 <= a <= b < out@.len() implies (#[trigger] out@[a]).size
                >= (#[trigger] out@[b]).size by {
                if b < out@.len() - 1 {
                    assert(out@[a] == pre_out[a] && out@[b] == pre_out[b]);
                } else if a < out@.len() - 1 {
                    assert(out@[a] == pre_out[a]);
                    assert(pre_out[a].size >= pre_rem[xi as int].size);
                }
            }
            assert forall|a: int, j: int|
                0 <= a < out@.len() && 0 <= j < rem@.len() implies (#[trigger] out@[a]).size
                >= (#[trigger] rem@[j]).size by {
                assert(rem@[j] == if j < xi {
                    pre_rem[j]
                } else {
                    pre_rem[j + 1]
                });
                if a < out@.len() - 1 {
                    assert(out@[a] == pre_out[a]);
                } else {
                    assert(out@[a] == pre_rem[xi as int]);
                }
            }
        }
    }
    proof {
        assert(rem@.len() == 0);
        assert(views_of(rem@) =~= Seq::<(Seq<char>, u64, Option<u64>)>::empty());
        assert(entries_mset(rem@) =~= Multiset::<(Seq<char>, u64, Option<u64>)>::empty());
        assert(entries_mset(out@) =~= entries_mset(out@).add(entries_mset(rem@)));
    }
    out
}

/// Collect the `n` largest files (directories excluded) of a record
/// buffer, sorted by size descending.  The result holds `min(n, K)` file
/// entries drawn from the buffer, and no file of the buffer is strictly
/// larger than the smallest returned entry without being returned.
pub fn top_files_from_records(records: &Vec<MftRecord>, n: usize) -> (r: Vec<TopFileEntry>)
    ensures
        r@.len() == min(n as int, file_entries(records@).len() as int),
        sorted_by_size_desc(r@),
        forall|v: (Seq<char>, u64, Option<u64>)|
            #[trigger] entries_mset(r@).count(v) <= file_entries(records@).to_multiset().count(v),
        forall|v: (Seq<char>, u64, Option<u64>)|
            #[trigger] file_entries(records@).to_multiset().count(v) > entries_mset(r@).count(v)
                ==> r@.len() == n as int && (n > 0 ==> v.1 <= r@[r@.len() - 1].size),
{
    let nrec = records.len();
    let mut top = TopFiles::new(n);
    let mut i: usize = 0;
    while i < nrec
        invariant
            nrec == records@.len(),
            0 <= i <= nrec,
            top.inv(),
            top.capacity() == n,
            top.count() == min(n as int, file_entries(records@.take(i as int)).len() as int),
            forall|v: (Seq<char>, u64, Option<u64>)| #[trigger]
                top.mset().count(v) <= file_entries(records@.take(i as int)).to_multiset().count(
                    v,
                ),
            forall|v: (Seq<char>, u64, Option<u64>)| #[trigger]
                file_entries(records@.take(i as int)).to_multiset().count(v) > top.mset().count(v)
                    ==> top.count() == n as int && (forall|x: (Seq<char>, u64, Option<u64>)|
                    #[trigger] top.mset().count(x) > 0 ==> v.1 <= x.1),
        decreases nrec - i,
    {
        let rec = &records[i];
        let ghost pre_top = top;
        let ghost fe_i = file_entries(records@.take(i as int));
        let ghost fe_i1 = file_entries(records@.take(i + 1));
        proof {
            lemma_file_entries_unroll(records@, i as int);
        }
        if !rec.is_dir {
            let ghost ri = records@[i as int];
            let ghost newv = (ri.full_path@, ri.size, ri.modified);
            proof {
                assert(fe_i1 == fe_i + seq![newv]);
                assert(fe_i1 =~= fe_i.push(newv));
                assert(fe_i1.to_multiset() =~= fe_i.to_multiset().insert(newv));
            }
            top.push_file(rec.full_path.clone(), rec.size, rec.modified);
            proof {
                assert(newv == (rec.full_path@, rec.size, rec.modified));
                if pre_top.count() < n as int {
                    assert(top.mset() == pre_top.mset().insert(newv));
                    assert forall|v: (Seq<char>, u64, Option<u64>)| #[trigger]
                        fe_i1.to_multiset().count(v) > top.mset().count(v) implies top.count()
                        == n as int && (forall|x: (Seq<char>, u64, Option<u64>)|
                        #[trigger] top.mset().count(x) > 0 ==> v.1 <= x.1) by {
                        assert(fe_i.to_multiset().count(v) > pre_top.mset().count(v));
                    }
                } else {
                    let withnew = pre_top.mset().insert(newv);
                    let d = choose|d: (Seq<char>, u64, Option<u64>)|
                        {
                            &&& #[trigger] pre_top.mset().insert(newv).count(d) > 0
                            &&& top.mset() == pre_top.mset().insert(newv).remove(d)
                            &&& forall|x: (Seq<char>, u64, Option<u64>)|
                                #[trigger] pre_top.mset().insert(newv).count(x) > 0 ==> d.1 <= x.1
                        };
                    assert(withnew.count(d) > 0 && top.mset() == withnew.remove(d));
                    assert forall|v: (Seq<char>, u64, Option<u64>)| #[trigger]
                        fe_i1.to_multiset().count(v) > top.mset().count(v) implies top.count()
                        == n as int && (forall|x: (Seq<char>, u64, Option<u64>)|
                        #[trigger] top.mset().count(x) > 0 ==> v.1 <= x.1) by {
                        assert forall|x: (Seq<char>, u64, Option<u64>)| #[trigger]
                            top.mset().count(x) > 0 implies v.1 <= x.1 by {
                            assert(withnew.count(x) > 0);
                            if fe_i.to_multiset().count(v) > pre_top.mset().count(v) {
                                // v was already dropped before this record
                                assert(pre_top.mset().count(x) > 0 || x == newv);
                                if pre_top.mset().count(x) > 0 {
                                } else {
                                    // x is the new entry: v <= d <= x since the
                                    // discarded entry is minimal and was held
                                    assert(withnew.count(d) > 0);
                                    if pre_top.mset().count(d) > 0 {
                                        assert(v.1 <= d.1);
                                        assert(d.1 <= x.1);
                                    } else {
                                        assert(d == newv);
                                        assert(top.mset() == withnew.remove(d));
                                        assert(top.mset().count(x) > 0 && x == newv && d == newv);
                                        assert(pre_top.mset().count(x) + 1 - 1 > 0);
                                    }
                                }
                            } else {
                                // v is dropped by this very step: v == d
                                assert(v == d);
                                assert(d.1 <= x.1);
                            }
                        }
                    }
                    assert forall|v: (Seq<char>, u64, Option<u64>)| #[trigger]
                        top.mset().count(v) <= fe_i1.to_multiset().count(v) by {
                        assert(pre_top.mset().count(v) <= fe_i.to_multiset().count(v));
                    }
                }
            }
        } else {
            proof {
                assert(fe_i1 == fe_i);
            }
        }
        i = i + 1;
    }
    proof {
        assert(records@.take(nrec as int) =~= records@);
    }
    let list = top.into_entries();
    let r = sort_entries_by_size_desc(list);
    proof {
        let fe = file_entries(records@);
        assert forall|v: (Seq<char>, u64, Option<u64>)| #[trigger]
            fe.to_multiset().count(v) > entries_mset(r@).count(v) implies r@.len() == n as int && (
        n > 0 ==> v.1 <= r@[r@.len() - 1].size) by {
            if n > 0 {
                let last = entry_view(r@[r@.len() - 1]);
                assert(entries_mset(r@).count(last) > 0) by {
                    assert(views_of(r@)[r@.len() - 1] == last);
                    assert(views_of(r@).contains(last));
                }
                assert(v.1 <= last.1);
                assert(last.1 == r@[r@.len() - 1].size);
            }
        }
    }
    r
}

} // verus!
