//! The recursive size map: every record charges its size to its own trimmed
//! path and to every proper ancestor of it, saturating at `u64::MAX`.
//!
//! The map is held as two parallel columns with unique keys; lookups are by
//! exact key.  `build_recursive_size_map` characterizes the result pointwise:
//! a key is present exactly when some record's ancestor chain holds it, and
//! its value is the (clamped) total charged by all records.

use vstd::prelude::*;
use vstd::math::min;

use crate::strutil::trim_end_bs;
use crate::strutil::rfind_bs;
use crate::strutil::lemma_rfind_bs_range;
use crate::strutil::trim_end_backslashes;
use crate::strutil::rfind_backslash;
use crate::records::MftRecord;

verus! {

/// The chain of a trimmed path: the path itself, then each prefix obtained
/// by cutting at the last backslash, stopping before the empty prefix.
pub open spec fn ancestor_chain(p: Seq<char>) -> Seq<Seq<char>>
    decreases p.len(),
    via ancestor_chain_decreases
{
    match rfind_bs(p) {
        Some(i) => if i > 0 {
            seq![p] + ancestor_chain(p.take(i))
        } else {
            seq![p]
        },
        None => seq![p],
    }
}

#[via_fn]
proof fn ancestor_chain_decreases(p: Seq<char>) {
    lemma_rfind_bs_range(p);
}

/// A record's own key: its path without trailing backslashes.
pub open spec fn rec_trimmed(r: MftRecord) -> Seq<char> {
    trim_end_bs(r.full_path@)
}

/// Record `r` charges its size to key `k`.
pub open spec fn contributes(r: MftRecord, k: Seq<char>) -> bool {
    rec_trimmed(r).len() > 0 && ancestor_chain(rec_trimmed(r)).contains(k)
}

/// The unclamped total charged to key `k` by `records`.
pub open spec fn total_for(records: Seq<MftRecord>, k: Seq<char>) -> int
    decreases records.len(),
{
    if records.len() == 0 {
        0
    } else {
        total_for(records.drop_last(), k) + if contributes(records.last(), k) {
            records.last().size as int
        } else {
            0
        }
    }
}

/// The chain is never empty, starts with the path itself, and its entries
/// strictly shrink, so they are pairwise distinct.
pub proof fn lemma_chain_shape(p: Seq<char>)
    ensures
        ancestor_chain(p).len() > 0,
        ancestor_chain(p)[0] == p,
        forall|a: int, b: int|
            0 <= a < b < ancestor_chain(p).len() ==> ancestor_chain(p)[a].len() > ancestor_chain(
                p,
            )[b].len(),
    decreases p.len(),
{
    lemma_rfind_bs_range(p);
    match rfind_bs(p) {
        Some(i) => {
            if i > 0 {
                lemma_chain_shape(p.take(i));
                let tail = ancestor_chain(p.take(i));
                let whole = ancestor_chain(p);
                assert(whole == seq![p] + tail);
                assert(tail[0] == p.take(i));
                assert(p.take(i).len() == i < p.len());
                assert forall|a: int, b: int| 0 <= a < b < whole.len() implies whole[a].len()
                    > whole[b].len() by {
                    if a == 0 {
                        assert(whole[b] == tail[b - 1]);
                        if b == 1 {
                            assert(whole[b].len() == i);
                        } else {
                            assert(tail[0].len() > tail[b - 1].len());
                        }
                    } else {
                        assert(whole[a] == tail[a - 1]);
                        assert(whole[b] == tail[b - 1]);
                    }
                }
            }
        },
        None => {},
    }
}

/// Totals are never negative.
pub proof fn lemma_total_nonneg(records: Seq<MftRecord>, k: Seq<char>)
    ensures
        total_for(records, k) >= 0,
    decreases records.len(),
{
    if records.len() > 0 {
        lemma_total_nonneg(records.drop_last(), k);
    }
}

/// A key nothing contributes to has total zero.
pub proof fn lemma_total_zero(records: Seq<MftRecord>, k: Seq<char>)
    requires
        forall|i: int| 0 <= i < records.len() ==> !contributes(records[i], k),
    ensures
        total_for(records, k) == 0,
    decreases records.len(),
{
    if records.len() > 0 {
        lemma_total_zero(records.drop_last(), k);
    }
}

/// One contributing record bounds the total from below.
pub proof fn lemma_total_ge_single(records: Seq<MftRecord>, i: int, k: Seq<char>)
    requires
        0 <= i < records.len(),
        contributes(records[i], k),
    ensures
        total_for(records, k) >= records[i].size,
    decreases records.len(),
{
    lemma_total_nonneg(records.drop_last(), k);
    if i < records.len() - 1 {
        lemma_total_ge_single(records.drop_last(), i, k);
    }
}

/// Unrolling the total over a prefix grown by one record.
proof fn lemma_total_unroll(records: Seq<MftRecord>, i: int, k: Seq<char>)
    requires
        0 <= i < records.len(),
    ensures
        total_for(records.take(i + 1), k) == total_for(records.take(i), k) + if contributes(
            records[i],
            k,
        ) {
            records[i].size as int
        } else {
            0
        },
{
    assert(records.take(i + 1).drop_last() =~= records.take(i));
    assert(records.take(i + 1).last() == records[i]);
}

/// Membership in a prefix grown by one element.
proof fn lemma_take_push_contains<A>(s: Seq<A>, j: int, k: A)
    requires
        0 <= j < s.len(),
    ensures
        s.take(j + 1).contains(k) <==> (s.take(j).contains(k) || k == s[j]),
{
    if s.take(j + 1).contains(k) {
        let idx = choose|idx: int| 0 <= idx < j + 1 && #[trigger] s.take(j + 1)[idx] == k;
        if idx < j {
            assert(s.take(j)[idx] == k);
        }
    }
    if s.take(j).contains(k) {
        let idx = choose|idx: int| 0 <= idx < j && #[trigger] s.take(j)[idx] == k;
        assert(s.take(j + 1)[idx] == k);
    }
    if k == s[j] {
        assert(s.take(j + 1)[j] == k);
    }
}

/// A map from canonical path to accumulated byte total, with unique keys.
pub struct SizeMap {
    keys: Vec<String>,
    vals: Vec<u64>,
}

impl SizeMap {
    /// Parallel columns and pairwise distinct keys.
    pub closed spec fn wf(self) -> bool {
        &&& self.keys@.len() == self.vals@.len()
        &&& forall|i: int, j: int|
            0 <= i < j < self.keys@.len() ==> self.keys@[i]@ != self.keys@[j]@
    }

    /// `k` is a key of the map.
    pub closed spec fn contains_path(self, k: Seq<char>) -> bool {
        exists|i: int| 0 <= i < self.keys@.len() && self.keys@[i]@ == k
    }

    /// The column position of key `k`.
    closed spec fn key_index(self, k: Seq<char>) -> int {
        choose|i: int| 0 <= i < self.keys@.len() && self.keys@[i]@ == k
    }

    /// The value stored under key `k`.
    pub closed spec fn value_of(self, k: Seq<char>) -> u64 {
        self.vals@[self.key_index(k)]
    }

    /// The abstract contents of the map: path to accumulated total.
    pub open spec fn as_map(self) -> Map<Seq<char>, u64> {
        Map::new(|k: Seq<char>| self.contains_path(k), |k: Seq<char>| self.value_of(k))
    }

    /// The stored value, or zero for an absent key.
    pub open spec fn get_or_zero(self, k: Seq<char>) -> int {
        if self.contains_path(k) {
            self.value_of(k) as int
        } else {
            0
        }
    }

    /// With unique keys, a column position holding `k` is the column
    /// position of `k`.
    proof fn lemma_key_at(self, k: Seq<char>, i: int)
        requires
            self.wf(),
            0 <= i < self.keys@.len(),
            self.keys@[i]@ == k,
        ensures
            self.contains_path(k),
            self.key_index(k) == i,
            self.value_of(k) == self.vals@[i],
    {
        assert(self.contains_path(k));
        let j = self.key_index(k);
        assert(0 <= j < self.keys@.len() && self.keys@[j]@ == k);
    }

    /// The empty map.
    pub fn new() -> (r: SizeMap)
        ensures
            r.wf(),
            forall|k: Seq<char>| !r.contains_path(k),
    {
        SizeMap { keys: Vec::new(), vals: Vec::new() }
    }

    /// The column position of `key`, if present.
    fn find(&self, key: &String) -> (r: Option<usize>)
        requires
            self.wf(),
        ensures
            match r {
                Some(i) => i < self.keys@.len() && self.keys@[i as int]@ == key@,
                None => !self.contains_path(key@),
            },
    {
        let n = self.keys.len();
        let mut i: usize = 0;
        while i < n
            invariant
                n == self.keys@.len(),
                0 <= i <= n,
                forall|j: int| 0 <= j < i ==> self.keys@[j]@ != key@,
            decreases n - i,
        {
            if crate::strutil::str_eq(self.keys[i].as_str(), key.as_str()) {
                return Some(i);
            }
            i = i + 1;
        }
        None
    }

    /// Look up a key.
    pub fn get(&self, key: &String) -> (r: Option<u64>)
        requires
            self.wf(),
        ensures
            r == if self.contains_path(key@) {
                Some(self.value_of(key@))
            } else {
                None::<u64>
            },
    {
        match self.find(key) {
            Some(i) => {
                proof {
                    self.lemma_key_at(key@, i as int);
                }
                Some(self.vals[i])
            },
            None => None,
        }
    }

    /// Add `v` to the entry of `key` (inserting it at zero first),
    /// saturating at `u64::MAX`.
    pub fn add_saturating(&mut self, key: &String, v: u64)
        requires
            old(self).wf(),
        ensures
            final(self).wf(),
            forall|k: Seq<char>|
                final(self).contains_path(k) <==> (old(self).contains_path(k) || k == key@),
            final(self).value_of(key@) as int == min(
                old(self).get_or_zero(key@) + v as int,
                u64::MAX as int,
            ),
            forall|k: Seq<char>|
                k != key@ && old(self).contains_path(k) ==> final(self).value_of(k) == old(
                    self,
                ).value_of(k),
    {
        match self.find(key) {
            Some(i) => {
                proof {
                    self.lemma_key_at(key@, i as int);
                }
                let nv = self.vals[i].saturating_add(v);
                self.vals[i] = nv;
                proof {
                    let post = *self;
                    let pre = *old(self);
                    assert(post.keys@ == pre.keys@);
                    assert forall|k: Seq<char>| post.contains_path(k) implies pre.contains_path(
                        k,
                    ) by {}
                    assert forall|k: Seq<char>| pre.contains_path(k) implies post.contains_path(
                        k,
                    ) by {}
                    post.lemma_key_at(key@, i as int);
                    assert forall|k: Seq<char>|
                        k != key@ && pre.contains_path(k) implies post.value_of(k) == pre.value_of(
                        k,
                    ) by {
                        let j = pre.key_index(k);
                        pre.lemma_key_at(k, j);
                        post.lemma_key_at(k, j);
                        assert(j != i);
                    }
                }
            },
            None => {
                let ghost pre = *self;
                self.keys.push(key.clone());
                self.vals.push(v);
                proof {
                    let post = *self;
                    let n = pre.keys@.len();
                    assert(post.keys@ =~= pre.keys@.push(*key));
                    assert(post.vals@ =~= pre.vals@.push(v));
                    assert forall|i: int, j: int|
                        0 <= i < j < post.keys@.len() implies post.keys@[i]@ != post.keys@[j]@ by {
                        if j < n {
                            assert(post.keys@[i] == pre.keys@[i]);
                            assert(post.keys@[j] == pre.keys@[j]);
                        } else {
                            assert(post.keys@[j]@ == key@);
                            assert(post.keys@[i] == pre.keys@[i]);
                            assert(pre.keys@[i]@ != key@);
                        }
                    }
                    assert(post.keys@[n as int]@ == key@);
                    post.lemma_key_at(key@, n as int);
                    assert forall|k: Seq<char>|
                        post.contains_path(k) implies (pre.contains_path(k) || k == key@) by {
                        let idx = choose|idx: int|
                            0 <= idx < post.keys@.len() && post.keys@[idx]@ == k;
                        if idx < n {
                            assert(pre.keys@[idx]@ == k);
                        }
                    }
                    assert forall|k: Seq<char>|
                        pre.contains_path(k) implies post.contains_path(k) by {
                        let idx = choose|idx: int| 0 <= idx < n && pre.keys@[idx]@ == k;
                        assert(post.keys@[idx]@ == k);
                    }
                    assert forall|k: Seq<char>|
                        k != key@ && pre.contains_path(k) implies post.value_of(k) == pre.value_of(
                        k,
                    ) by {
                        let j = pre.key_index(k);
                        pre.lemma_key_at(k, j);
                        post.lemma_key_at(k, j);
                    }
                }
            },
        }
    }
}

/// The chain of `p`, as owned strings, outermost first.
pub fn ancestor_chain_exec(p: &str) -> (c: Vec<String>)
    ensures
        c@.len() == ancestor_chain(p@).len(),
        forall|j: int| 0 <= j < c@.len() ==> c@[j]@ == ancestor_chain(p@)[j],
    decreases p@.len(),
{
    let mut out: Vec<String> = Vec::new();
    out.push(p.to_owned());
    match rfind_backslash(p) {
        Some(i) => {
            proof {
                lemma_rfind_bs_range(p@);
            }
            if i > 0 {
                let n = p.unicode_len();
                let parent = p.substring_char(0, i);
                proof {
                    assert(parent@ =~= p@.take(i as int));
                }
                let mut tail = ancestor_chain_exec(parent);
                out.append(&mut tail);
                proof {
                    let whole = ancestor_chain(p@);
                    assert(whole == seq![p@] + ancestor_chain(p@.take(i as int)));
                    assert forall|j: int| 0 <= j < out@.len() implies out@[j]@ == whole[j] by {
                        if j == 0 {
                        } else {
                            assert(whole[j] == ancestor_chain(p@.take(i as int))[j - 1]);
                        }
                    }
                }
            }
        },
        None => {},
    }
    out
}

/// Build the recursive size map of a record buffer: each record's size is
/// charged to its trimmed path and to every proper ancestor, saturating at
/// `u64::MAX`; records whose trimmed path is empty charge nothing.
pub fn build_recursive_size_map(records: &Vec<MftRecord>) -> (m: SizeMap)
    ensures
        m.wf(),
        forall|k: Seq<char>|
            m.contains_path(k) <==> exists|i: int|
                0 <= i < records@.len() && contributes(#[trigger] records@[i], k),
        forall|k: Seq<char>|
            m.contains_path(k) ==> m.value_of(k) as int == min(
                total_for(records@, k),
                u64::MAX as int,
            ),
        forall|i: int, k: Seq<char>|
            0 <= i < records@.len() && #[trigger] contributes(records@[i], k) ==> m.contains_path(
                k,
            ) && m.value_of(k) >= records@[i].size,
{
    let n = records.len();
    let mut m = SizeMap::new();
    let mut i: usize = 0;
    while i < n
        invariant
            n == records@.len(),
            0 <= i <= n,
            m.wf(),
            forall|k: Seq<char>|
                m.contains_path(k) <==> exists|ii: int|
                    0 <= ii < i && contributes(#[trigger] records@[ii], k),
            forall|k: Seq<char>|
                m.contains_path(k) ==> m.value_of(k) as int == min(
                    total_for(records@.take(i as int), k),
                    u64::MAX as int,
                ),
        decreases n - i,
    {
        let r = &records[i];
        let trimmed = trim_end_backslashes(r.full_path.as_str());
        if trimmed.unicode_len() > 0 {
            let chain = ancestor_chain_exec(trimmed);
            let ghost cs = ancestor_chain(rec_trimmed(records@[i as int]));
            proof {
                lemma_chain_shape(rec_trimmed(records@[i as int]));
            }
            let cn = chain.len();
            let rsize = r.size;
            let mut j: usize = 0;
            while j < cn
                invariant
                    n == records@.len(),
                    0 <= i < n,
                    rsize == records@[i as int].size,
                    cn == cs.len(),
                    chain@.len() == cs.len(),
                    forall|jj: int| 0 <= jj < cs.len() ==> chain@[jj]@ == cs[jj],
                    forall|a: int, b: int| 0 <= a < b < cs.len() ==> cs[a].len() > cs[b].len(),
                    rec_trimmed(records@[i as int]).len() > 0,
                    cs == ancestor_chain(rec_trimmed(records@[i as int])),
                    0 <= j <= cn,
                    m.wf(),
                    forall|k: Seq<char>|
                        m.contains_path(k) <==> ((exists|ii: int|
                            0 <= ii < i && contributes(#[trigger] records@[ii], k)) || cs.take(
                            j as int,
                        ).contains(k)),
                    forall|k: Seq<char>|
                        m.contains_path(k) ==> m.value_of(k) as int == min(
                            total_for(records@.take(i as int), k) + if cs.take(
                                j as int,
                            ).contains(k) {
                                records@[i as int].size as int
                            } else {
                                0
                            },
                            u64::MAX as int,
                        ),
                decreases cn - j,
            {
                let ghost pre_m = m;
                let ghost k0 = cs[j as int];
                proof {
                    assert(chain@[j as int]@ == cs[j as int]);
                    // the key being added never sits in the part of the
                    // chain already charged: chain entries strictly shrink
                    assert forall|a: int| 0 <= a < j implies cs[a] != k0 by {
                        assert(cs[a].len() > cs[j as int].len());
                    }
                    assert(!cs.take(j as int).contains(k0));
                    if !pre_m.contains_path(k0) {
                        lemma_total_zero(records@.take(i as int), k0);
                    }
                    lemma_total_nonneg(records@.take(i as int), k0);
                }
                m.add_saturating(&chain[j], rsize);
                proof {
                    lemma_take_push_contains(cs, j as int, k0);
                    assert forall|k: Seq<char>|
                        m.contains_path(k) implies m.value_of(k) as int == min(
                        total_for(records@.take(i as int), k) + if cs.take(j + 1).contains(k) {
                            records@[i as int].size as int
                        } else {
                            0
                        },
                        u64::MAX as int,
                    ) by {
                        lemma_take_push_contains(cs, j as int, k);
                        if k == k0 {
                            assert(m.value_of(k0) as int == min(
                                pre_m.get_or_zero(k0) + records@[i as int].size as int,
                                u64::MAX as int,
                            ));
                        } else {
                            assert(cs.take(j + 1).contains(k) == cs.take(j as int).contains(k));
                            assert(pre_m.contains_path(k));
                            assert(m.value_of(k) == pre_m.value_of(k));
                        }
                    }
                    assert forall|k: Seq<char>|
                        m.contains_path(k) <==> ((exists|ii: int|
                            0 <= ii < i && contributes(#[trigger] records@[ii], k)) || cs.take(
                            j + 1,
                        ).contains(k)) by {
                        lemma_take_push_contains(cs, j as int, k);
                        assert(m.contains_path(k) <==> (pre_m.contains_path(k) || k == k0));
                    }
                }
                j = j + 1;
            }
            proof {
                assert(cs.take(cs.len() as int) =~= cs);
                assert forall|k: Seq<char>|
                    m.contains_path(k) <==> ((exists|ii: int|
                        0 <= ii < i && contributes(#[trigger] records@[ii], k)) || contributes(
                        records@[i as int],
                        k,
                    )) by {}
                assert forall|k: Seq<char>| m.contains_path(k) implies m.value_of(k) as int == min(
                    total_for(records@.take(i + 1), k),
                    u64::MAX as int,
                ) by {
                    lemma_total_unroll(records@, i as int, k);
                }
                assert forall|k: Seq<char>|
                    m.contains_path(k) <==> exists|ii: int|
                        0 <= ii < i + 1 && contributes(#[trigger] records@[ii], k) by {
                    if exists|ii: int| 0 <= ii < i + 1 && contributes(#[trigger] records@[ii], k) {
                        let ii = choose|ii: int|
                            0 <= ii < i + 1 && contributes(#[trigger] records@[ii], k);
                    }
                }
            }
        } else {
            proof {
                assert(rec_trimmed(records@[i as int]).len() == 0);
                assert forall|k: Seq<char>| m.contains_path(k) implies m.value_of(k) as int == min(
                    total_for(records@.take(i + 1), k),
                    u64::MAX as int,
                ) by {
                    lemma_total_unroll(records@, i as int, k);
                }
                assert forall|k: Seq<char>|
                    m.contains_path(k) <==> exists|ii: int|
                        0 <= ii < i + 1 && contributes(#[trigger] records@[ii], k) by {
                    if exists|ii: int| 0 <= ii < i + 1 && contributes(#[trigger] records@[ii], k) {
                        let ii = choose|ii: int|
                            0 <= ii < i + 1 && contributes(#[trigger] records@[ii], k);
                        assert(ii < i);
                    }
                }
            }
        }
        i = i + 1;
    }
    proof {
        assert(records@.take(n as int) =~= records@);
        assert forall|i: int, k: Seq<char>|
            0 <= i < records@.len() && #[trigger] contributes(records@[i], k) implies m
            .contains_path(k) && m.value_of(k) >= records@[i].size by {
            lemma_total_ge_single(records@, i, k);
        }
    }
    m
}

} // verus!
