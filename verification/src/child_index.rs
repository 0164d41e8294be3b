//! The parent-to-children index: each record that is not the volume root is
//! listed under the key obtained by cutting its path at the last backslash.
//! Lists hold record positions in input order.  Direct children of the root
//! `X:\` are keyed as `X:` (that is how the cut splits `X:\name`), so the
//! root lookup probes both spellings, falling back to a case-insensitive
//! scan of the keys.

use vstd::prelude::*;

use crate::strutil::seq_eq_ic;
use crate::strutil::trim_end_bs;
use crate::strutil::rfind_bs;
use crate::strutil::lemma_rfind_bs_range;
use crate::strutil::str_eq;
use crate::strutil::str_eq_ignore_ascii_case;
use crate::strutil::trim_end_backslashes;
use crate::strutil::rfind_backslash;
use crate::records::MftRecord;

verus! {

/// The parent key of a record path: everything before the last backslash.
pub open spec fn parent_key(p: Seq<char>) -> Option<Seq<char>> {
    match rfind_bs(p) {
        Some(i) => Some(p.take(i)),
        None => None,
    }
}

/// `r` is the volume-root record for the trimmed root `vol` (such as `F:`).
pub open spec fn is_root_record(r: MftRecord, vol: Seq<char>) -> bool {
    seq_eq_ic(trim_end_bs(r.full_path@), vol)
}

/// Record `i` is listed under parent key `k`.
pub open spec fn is_child_under(r: MftRecord, vol: Seq<char>, k: Seq<char>) -> bool {
    !is_root_record(r, vol) && parent_key(r.full_path@) == Some(k)
}

/// The positions of the records listed under parent key `k`, in input order.
pub open spec fn child_indices(records: Seq<MftRecord>, vol: Seq<char>, k: Seq<char>) -> Seq<int>
    decreases records.len(),
{
    if records.len() == 0 {
        Seq::empty()
    } else {
        let pre = child_indices(records.drop_last(), vol, k);
        if is_child_under(records.last(), vol, k) {
            pre + seq![records.len() - 1]
        } else {
            pre
        }
    }
}

/// The position of the first root record at or after `i`, if any.
pub open spec fn first_root_from(records: Seq<MftRecord>, vol: Seq<char>, i: int) -> Option<int>
    decreases records.len() - i,
{
    if i < 0 || i >= records.len() {
        None
    } else if is_root_record(records[i], vol) {
        Some(i)
    } else {
        first_root_from(records, vol, i + 1)
    }
}

/// The root record's own size and modified time, with defaults when no root
/// record exists.
pub open spec fn root_info(records: Seq<MftRecord>, vol: Seq<char>) -> (u64, Option<u64>) {
    match first_root_from(records, vol, 0) {
        Some(i) => (records[i].size, records[i].modified),
        None => (0u64, None::<u64>),
    }
}

/// A sequence of positions, as mathematical integers.
pub open spec fn positions_of(s: Seq<usize>) -> Seq<int> {
    s.map_values(|u: usize| u as int)
}

/// Every entry of `l` is a position below `n`.
pub open spec fn all_below(l: Seq<int>, n: int) -> bool {
    forall|j: int| 0 <= j < l.len() ==> 0 <= #[trigger] l[j] < n
}

/// Every position listed under any key is below `n`.
proof fn lemma_child_indices_bounds(records: Seq<MftRecord>, vol: Seq<char>, k: Seq<char>)
    ensures
        all_below(child_indices(records, vol, k), records.len() as int),
    decreases records.len(),
{
    if records.len() > 0 {
        lemma_child_indices_bounds(records.drop_last(), vol, k);
    }
}

/// A map from parent path to the positions of its child records.
pub struct ChildIndex {
    keys: Vec<String>,
    lists: Vec<Vec<usize>>,
}

impl ChildIndex {
    /// Parallel columns, pairwise distinct keys, and no empty list.
    pub closed spec fn wf(self) -> bool {
        &&& self.keys@.len() == self.lists@.len()
        &&& forall|i: int, j: int|
            0 <= i < j < self.keys@.len() ==> self.keys@[i]@ != self.keys@[j]@
        &&& forall|i: int| 0 <= i < self.lists@.len() ==> (#[trigger] self.lists@[i])@.len() > 0
    }

    /// Every position listed under any key is below `n`.
    pub open spec fn all_positions_below(self, n: int) -> bool {
        forall|k: Seq<char>| #[trigger] self.contains_key(k) ==> all_below(self.list_of(k), n)
    }

    /// `k` is a key of the index.
    pub closed spec fn contains_key(self, k: Seq<char>) -> bool {
        exists|i: int| 0 <= i < self.keys@.len() && self.keys@[i]@ == k
    }

    /// The column position of key `k`.
    closed spec fn key_index(self, k: Seq<char>) -> int {
        choose|i: int| 0 <= i < self.keys@.len() && self.keys@[i]@ == k
    }

    /// The positions listed under key `k`.
    pub closed spec fn list_of(self, k: Seq<char>) -> Seq<int> {
        positions_of(self.lists@[self.key_index(k)]@)
    }

    /// The abstract contents of the index: parent key to child positions.
    pub open spec fn as_map(self) -> Map<Seq<char>, Seq<int>> {
        Map::new(|k: Seq<char>| self.contains_key(k), |k: Seq<char>| self.list_of(k))
    }

    /// The positions listed under `k`, or empty for an absent key.
    pub open spec fn list_or_empty(self, k: Seq<char>) -> Seq<int> {
        if self.contains_key(k) {
            self.list_of(k)
        } else {
            Seq::empty()
        }
    }

    /// With unique keys, a column position holding `k` is the column
    /// position of `k`.
    proof fn lemma_key_at(self, k: Seq<char>, i: int)
        requires
            self.wf(),
            0 <= i < self.keys@.len(),
            self.keys@[i]@ == k,
        ensures
            self.contains_key(k),
            self.key_index(k) == i,
            self.list_of(k) == positions_of(self.lists@[i]@),
    {
        assert(self.contains_key(k));
        let j = self.key_index(k);
        assert(0 <= j < self.keys@.len() && self.keys@[j]@ == k);
    }

    /// The empty index.
    pub fn new() -> (r: ChildIndex)
        ensures
            r.wf(),
            forall|k: Seq<char>| !r.contains_key(k),
    {
        ChildIndex { keys: Vec::new(), lists: Vec::new() }
    }

    /// The column position of `key`, if present.
    fn find(&self, key: &str) -> (r: Option<usize>)
        requires
            self.wf(),
        ensures
            match r {
                Some(i) => i < self.keys@.len() && self.keys@[i as int]@ == key@,
                None => !self.contains_key(key@),
            },
    {
        let n = self.keys.len();
        let mut i: usize = 0;
        while i < n
            invariant
                n == self.keys@.len(),
                0 <= i <= n,
                forall|j: int| 0 <= j < i ==> self.keys@[j]@ != key@,
            decreases n - i,
        {
            if str_eq(self.keys[i].as_str(), key) {
                return Some(i);
            }
            i = i + 1;
        }
        None
    }

    /// The child positions of `key`, if present.
    pub fn get(&self, key: &str) -> (r: Option<&Vec<usize>>)
        requires
            self.wf(),
        ensures
            match r {
                Some(l) => self.contains_key(key@) && positions_of(l@) == self.list_of(key@),
                None => !self.contains_key(key@),
            },
    {
        match self.find(key) {
            Some(i) => {
                proof {
                    self.lemma_key_at(key@, i as int);
                }
                Some(&self.lists[i])
            },
            None => None,
        }
    }

    /// Append position `idx` to the list of `key`, creating the list when
    /// absent.
    pub fn push_child(&mut self, key: &String, idx: usize)
        requires
            old(self).wf(),
        ensures
            final(self).wf(),
            forall|k: Seq<char>|
                final(self).contains_key(k) <==> (old(self).contains_key(k) || k == key@),
            final(self).list_of(key@) == old(self).list_or_empty(key@) + seq![idx as int],
            forall|k: Seq<char>|
                k != key@ && old(self).contains_key(k) ==> final(self).list_of(k) == old(
                    self,
                ).list_of(k),
    {
        match self.find(key.as_str()) {
            Some(i) => {
                proof {
                    self.lemma_key_at(key@, i as int);
                }
                let ghost pre = *self;
                let mut l = self.lists[i].clone();
                proof {
                    assert(l@ =~= pre.lists@[i as int]@);
                }
                l.push(idx);
                self.lists[i] = l;
                proof {
                    let post = *self;
                    assert(post.keys@ == pre.keys@);
                    assert(post.lists@ =~= pre.lists@.update(
                        i as int,
                        post.lists@[i as int],
                    ));
                    assert(post.lists@[i as int]@ =~= pre.lists@[i as int]@.push(idx));
                    assert(positions_of(post.lists@[i as int]@) =~= positions_of(
                        pre.lists@[i as int]@,
                    ) + seq![idx as int]);
                    assert forall|k: Seq<char>|
                        post.contains_key(k) <==> pre.contains_key(k) by {}
                    post.lemma_key_at(key@, i as int);
                    assert forall|k: Seq<char>|
                        k != key@ && pre.contains_key(k) implies post.list_of(k) == pre.list_of(
                        k,
                    ) by {
                        let j = pre.key_index(k);
                        pre.lemma_key_at(k, j);
                        post.lemma_key_at(k, j);
                        assert(j != i);
                        assert(post.lists@[j]@ == pre.lists@[j]@);
                    }
                }
            },
            None => {
                let ghost pre = *self;
                let mut l: Vec<usize> = Vec::new();
                l.push(idx);
                self.keys.push(key.clone());
                self.lists.push(l);
                proof {
                    let post = *self;
                    let n = pre.keys@.len();
                    assert(post.keys@ =~= pre.keys@.push(*key));
                    assert(post.lists@.len() == n + 1);
                    assert(post.lists@[n as int]@ =~= seq![idx]);
                    assert forall|i: int, j: int|
                        0 <= i < j < post.keys@.len() implies post.keys@[i]@ != post.keys@[j]@ by {
                        if j < n {
                            assert(post.keys@[i] == pre.keys@[i]);
                            assert(post.keys@[j] == pre.keys@[j]);
                        } else {
                            assert(post.keys@[j]@ == key@);
                            assert(post.keys@[i] == pre.keys@[i]);
                            assert(pre.keys@[i]@ != key@);
                        }
                    }
                    assert forall|i: int|
                        0 <= i < post.lists@.len() implies (#[trigger] post.lists@[i])@.len()
                        > 0 by {
                        if i < n {
                            assert(post.lists@[i] == pre.lists@[i]);
                        }
                    }
                    assert(post.keys@[n as int]@ == key@);
                    post.lemma_key_at(key@, n as int);
                    assert(positions_of(post.lists@[n as int]@) =~= seq![idx as int]);
                    assert forall|k: Seq<char>|
                        post.contains_key(k) implies (pre.contains_key(k) || k == key@) by {
                        let ii = choose|ii: int|
                            0 <= ii < post.keys@.len() && post.keys@[ii]@ == k;
                        if ii < n {
                            assert(pre.keys@[ii]@ == k);
                        }
                    }
                    assert forall|k: Seq<char>|
                        pre.contains_key(k) implies post.contains_key(k) by {
                        let ii = choose|ii: int| 0 <= ii < n && pre.keys@[ii]@ == k;
                        assert(post.keys@[ii]@ == k);
                    }
                    assert forall|k: Seq<char>|
                        k != key@ && pre.contains_key(k) implies post.list_of(k) == pre.list_of(
                        k,
                    ) by {
                        let j = pre.key_index(k);
                        pre.lemma_key_at(k, j);
                        post.lemma_key_at(k, j);
                        assert(post.lists@[j]@ == pre.lists@[j]@);
                    }
                }
            },
        }
    }

    /// The root probe: the list of `key_a` when present, else of `key_b`,
    /// else of the first key that matches either one ASCII-case-
    /// insensitively.
    pub fn get_root_children(&self, key_a: &str, key_b: &str) -> (r: Option<&Vec<usize>>)
        requires
            self.wf(),
        ensures
            match r {
                Some(l) => if self.contains_key(key_a@) {
                    positions_of(l@) == self.list_of(key_a@)
                } else if self.contains_key(key_b@) {
                    positions_of(l@) == self.list_of(key_b@)
                } else {
                    exists|k: Seq<char>|
                        #[trigger] self.contains_key(k) && (seq_eq_ic(k, key_a@) || seq_eq_ic(
                            k,
                            key_b@,
                        )) && positions_of(l@) == self.list_of(k)
                },
                None => {
                    &&& !self.contains_key(key_a@)
                    &&& !self.contains_key(key_b@)
                    &&& forall|k: Seq<char>|
                        #[trigger] self.contains_key(k) ==> !seq_eq_ic(k, key_a@) && !seq_eq_ic(
                            k,
                            key_b@,
                        )
                },
            },
    {
        if let Some(l) = self.get(key_a) {
            return Some(l);
        }
        if let Some(l) = self.get(key_b) {
            return Some(l);
        }
        let n = self.keys.len();
        let mut i: usize = 0;
        while i < n
            invariant
                n == self.keys@.len(),
                self.wf(),
                0 <= i <= n,
                !self.contains_key(key_a@),
                !self.contains_key(key_b@),
                forall|j: int|
                    0 <= j < i ==> !seq_eq_ic(#[trigger] self.keys@[j]@, key_a@) && !seq_eq_ic(
                        self.keys@[j]@,
                        key_b@,
                    ),
            decreases n - i,
        {
            if str_eq_ignore_ascii_case(self.keys[i].as_str(), key_a) || str_eq_ignore_ascii_case(
                self.keys[i].as_str(),
                key_b,
            ) {
                proof {
                    self.lemma_key_at(self.keys@[i as int]@, i as int);
                }
                return Some(&self.lists[i]);
            }
            i = i + 1;
        }
        proof {
            assert forall|k: Seq<char>| #[trigger]
                self.contains_key(k) implies !seq_eq_ic(k, key_a@) && !seq_eq_ic(k, key_b@) by {
                let j = choose|j: int| 0 <= j < self.keys@.len() && self.keys@[j]@ == k;
            }
        }
        None
    }
}

/// Unrolling the child list over a prefix grown by one record.
proof fn lemma_children_unroll(records: Seq<MftRecord>, vol: Seq<char>, i: int, k: Seq<char>)
    requires
        0 <= i < records.len(),
    ensures
        child_indices(records.take(i + 1), vol, k) == child_indices(records.take(i), vol, k)
            + if is_child_under(records[i], vol, k) {
            seq![i]
        } else {
            Seq::<int>::empty()
        },
{
    assert(records.take(i + 1).drop_last() =~= records.take(i));
    assert(records.take(i + 1).last() == records[i]);
    if is_child_under(records[i], vol, k) {
    } else {
        assert(child_indices(records.take(i + 1), vol, k) =~= child_indices(
            records.take(i),
            vol,
            k,
        ) + Seq::<int>::empty());
    }
}

/// Find the root record and build the parent-to-children index of a record
/// buffer: every non-root record with a backslash in its path is listed, in
/// input order, under its path cut at the last backslash.
pub fn build_child_index(records: &Vec<MftRecord>, volume_root_trim: &str) -> (r: (
    u64,
    Option<u64>,
    ChildIndex,
))
    ensures
        r.2.wf(),
        r.2.all_positions_below(records@.len() as int),
        forall|k: Seq<char>|
            r.2.contains_key(k) <==> child_indices(records@, volume_root_trim@, k).len() > 0,
        forall|k: Seq<char>|
            r.2.contains_key(k) ==> r.2.list_of(k) == child_indices(records@, volume_root_trim@, k),
        (r.0, r.1) == root_info(records@, volume_root_trim@),
{
    let n = records.len();
    let ghost vol = volume_root_trim@;

    let mut root_size: u64 = 0;
    let mut root_modified: Option<u64> = None;
    let mut i: usize = 0;
    let mut found = false;
    while i < n && !found
        invariant
            n == records@.len(),
            vol == volume_root_trim@,
            0 <= i <= n,
            !found ==> first_root_from(records@, vol, 0) == first_root_from(records@, vol, i as int),
            !found ==> root_size == 0u64 && root_modified == None::<u64>,
            found ==> (first_root_from(records@, vol, 0) matches Some(j) && (
                root_size,
                root_modified,
            ) == (records@[j].size, records@[j].modified)),
        decreases n - i + if found { 0int } else { 1int },
    {
        let tr = trim_end_backslashes(records[i].full_path.as_str());
        if str_eq_ignore_ascii_case(tr, volume_root_trim) {
            proof {
                assert(is_root_record(records@[i as int], vol));
                assert(first_root_from(records@, vol, i as int) == Some(i as int));
            }
            root_size = records[i].size;
            root_modified = records[i].modified;
            found = true;
        } else {
            proof {
                assert(!is_root_record(records@[i as int], vol));
                assert(first_root_from(records@, vol, i as int) == first_root_from(
                    records@,
                    vol,
                    i as int + 1,
                ));
            }
            i = i + 1;
        }
    }

    let mut index = ChildIndex::new();
    let mut i: usize = 0;
    while i < n
        invariant
            n == records@.len(),
            vol == volume_root_trim@,
            0 <= i <= n,
            index.wf(),
            forall|k: Seq<char>|
                index.contains_key(k) <==> child_indices(records@.take(i as int), vol, k).len()
                    > 0,
            forall|k: Seq<char>|
                index.contains_key(k) ==> index.list_of(k) == child_indices(
                    records@.take(i as int),
                    vol,
                    k,
                ),
        decreases n - i,
    {
        let r = &records[i];
        let tr = trim_end_backslashes(r.full_path.as_str());
        let is_root = str_eq_ignore_ascii_case(tr, volume_root_trim);
        let ghost rec = records@[i as int];
        if !is_root {
            match rfind_backslash(r.full_path.as_str()) {
                Some(pos) => {
                    proof {
                        lemma_rfind_bs_range(rec.full_path@);
                    }
                    let parent = r.full_path.as_str().substring_char(0, pos).to_owned();
                    proof {
                        assert(parent@ =~= rec.full_path@.take(pos as int));
                        assert(parent_key(rec.full_path@) == Some(parent@));
                        if !index.contains_key(parent@) {
                            assert(child_indices(records@.take(i as int), vol, parent@).len()
                                == 0);
                            assert(child_indices(records@.take(i as int), vol, parent@)
                                =~= Seq::<int>::empty());
                        }
                    }
                    let ghost pre_index = index;
                    index.push_child(&parent, i);
                    proof {
                        assert forall|k: Seq<char>|
                            index.contains_key(k) <==> child_indices(
                            records@.take(i + 1),
                            vol,
                            k,
                        ).len() > 0 by {
                            lemma_children_unroll(records@, vol, i as int, k);
                        }
                        assert forall|k: Seq<char>|
                            index.contains_key(k) implies index.list_of(k) == child_indices(
                            records@.take(i + 1),
                            vol,
                            k,
                        ) by {
                            lemma_children_unroll(records@, vol, i as int, k);
                            if k == parent@ {
                                assert(index.list_of(k) == pre_index.list_or_empty(k) + seq![
                                    i as int,
                                ]);
                            } else {
                                assert(pre_index.contains_key(k) == index.contains_key(k));
                                assert(!is_child_under(rec, vol, k));
                            }
                        }
                    }
                },
                None => {
                    proof {
                        lemma_rfind_bs_range(rec.full_path@);
                        assert(parent_key(rec.full_path@) is None);
                        assert forall|k: Seq<char>|
                            index.contains_key(k) <==> child_indices(
                            records@.take(i + 1),
                            vol,
                            k,
                        ).len() > 0 by {
                            lemma_children_unroll(records@, vol, i as int, k);
                        }
                        assert forall|k: Seq<char>|
                            index.contains_key(k) implies index.list_of(k) == child_indices(
                            records@.take(i + 1),
                            vol,
                            k,
                        ) by {
                            lemma_children_unroll(records@, vol, i as int, k);
                        }
                    }
                },
            }
        } else {
            proof {
                assert(is_root_record(rec, vol));
                assert forall|k: Seq<char>|
                    index.contains_key(k) <==> child_indices(records@.take(i + 1), vol, k).len()
                        > 0 by {
                    lemma_children_unroll(records@, vol, i as int, k);
                }
                assert forall|k: Seq<char>|
                    index.contains_key(k) implies index.list_of(k) == child_indices(
                    records@.take(i + 1),
                    vol,
                    k,
                ) by {
                    lemma_children_unroll(records@, vol, i as int, k);
                }
            }
        }
        i = i + 1;
    }
    proof {
        assert(records@.take(n as int) =~= records@);
        assert forall|k: Seq<char>| #[trigger]
            index.contains_key(k) implies all_below(index.list_of(k), n as int) by {
            lemma_child_indices_bounds(records@, vol, k);
        }
    }
    (root_size, root_modified, index)
}

} // verus!
