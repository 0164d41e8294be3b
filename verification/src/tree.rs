//! The bounded result tree: node type, the recursive materializer with its
//! depth cap, fan-out cap and shallow-directory policy, and the structural
//! laws the built tree obeys.
//!
//! The materializer's contract is relational: `subtree_ok` pins every field
//! of every node against the abstract views of the child index and the
//! recursive size map, which are themselves functions of the record buffer
//! alone (`index_map_of`, `size_map_of`).

use vstd::prelude::*;
use vstd::math::min;
use vstd::math::max;

use crate::strutil::seq_eq_ic;
use crate::strutil::last_segment;
use crate::strutil::last_segment_of;
use crate::strutil::trim_end_bs;
use crate::strutil::trim_end_backslashes;
use crate::strutil::str_eq_ignore_ascii_case;
use crate::records::MftRecord;
use crate::records::MAX_DEPTH;
use crate::records::MAX_CHILDREN_PER_DIR;
use crate::size_map::SizeMap;
use crate::size_map::contributes;
use crate::size_map::total_for;
use crate::size_map::lemma_total_nonneg;
use crate::child_index::ChildIndex;
use crate::child_index::child_indices;
use crate::child_index::root_info;
use crate::child_index::positions_of;
use crate::child_index::all_below;
use crate::errors::DiskAnalyzerError;

verus! {

broadcast use vstd::std_specs::vec::group_vec_axioms;

/// One node of the result tree: canonical path, display name, subtree total
/// (for directories) or own size (for files), and the emitted children.
pub struct FileNode {
    pub path: String,
    pub name: String,
    pub size: u64,
    pub is_dir: bool,
    pub modified: Option<u64>,
    pub children: Vec<FileNode>,
}

/// The number of nodes of the subtree rooted at `n`.
pub open spec fn node_count(n: FileNode) -> int
    decreases n, 0int,
{
    1 + count_from(n.children@, 0)
}

/// The number of nodes of the subtrees rooted at `s[i..]`.
pub open spec fn count_from(s: Seq<FileNode>, i: int) -> int
    decreases s, s.len() - i, 1int,
{
    if 0 <= i < s.len() {
        node_count(s[i]) + count_from(s, i + 1)
    } else {
        0
    }
}

/// The sum of the `size` fields of `s[i..]`.
pub open spec fn sum_sizes_from(s: Seq<FileNode>, i: int) -> int
    decreases s.len() - i,
{
    if 0 <= i < s.len() {
        s[i].size + sum_sizes_from(s, i + 1)
    } else {
        0
    }
}

/// The number of nodes on a longest root-to-leaf path of `n`.
pub open spec fn height(n: FileNode) -> int
    decreases n, 0int,
{
    1 + max_height_from(n.children@, 0)
}

/// The greatest height among the subtrees rooted at `s[i..]`.
pub open spec fn max_height_from(s: Seq<FileNode>, i: int) -> int
    decreases s, s.len() - i, 1int,
{
    if 0 <= i < s.len() {
        max(height(s[i]), max_height_from(s, i + 1))
    } else {
        0
    }
}

/// Every node of the subtree has at most `MAX_CHILDREN_PER_DIR` children.
pub open spec fn fanout_ok(n: FileNode) -> bool
    decreases n,
{
    &&& n.children@.len() <= MAX_CHILDREN_PER_DIR as int
    &&& forall|q: int| 0 <= q < n.children@.len() ==> fanout_ok(#[trigger] n.children@[q])
}

/// Every node of the subtree that has children carries the saturating sum
/// of its children's sizes.
pub open spec fn tree_sizes_ok(n: FileNode) -> bool
    decreases n,
{
    &&& (n.children@.len() > 0 ==> n.size as int == min(
        sum_sizes_from(n.children@, 0),
        u64::MAX as int,
    ))
    &&& forall|q: int| 0 <= q < n.children@.len() ==> tree_sizes_ok(#[trigger] n.children@[q])
}

/// Every node strictly below `n` has its path in `ps`.
pub open spec fn paths_within(n: FileNode, ps: Set<Seq<char>>) -> bool
    decreases n,
{
    forall|q: int|
        0 <= q < n.children@.len() ==> (ps.contains((#[trigger] n.children@[q]).path@)
            && paths_within(n.children@[q], ps))
}

/// The set of full paths of the record buffer.
pub open spec fn record_paths(records: Seq<MftRecord>) -> Set<Seq<char>> {
    Set::new(
        |p: Seq<char>|
            exists|i: int| 0 <= i < records.len() && (#[trigger] records[i]).full_path@ == p,
    )
}

/// Node counts are positive.
pub proof fn lemma_count_pos(n: FileNode)
    ensures
        node_count(n) >= 1,
    decreases n, 0int,
{
    lemma_count_from_nonneg(n.children@, 0);
}

/// Sums of node counts are non-negative.
pub proof fn lemma_count_from_nonneg(s: Seq<FileNode>, i: int)
    ensures
        count_from(s, i) >= 0,
    decreases s, s.len() - i, 1int,
{
    if 0 <= i < s.len() {
        lemma_count_pos(s[i]);
        lemma_count_from_nonneg(s, i + 1);
    }
}

/// Counting restarted after a pushed node adds that node's count.
proof fn lemma_count_push(s: Seq<FileNode>, x: FileNode, i: int)
    requires
        0 <= i <= s.len(),
    ensures
        count_from(s.push(x), i) == count_from(s, i) + node_count(x),
    decreases s.len() - i,
{
    if i < s.len() {
        assert(s.push(x)[i] == s[i]);
        lemma_count_push(s, x, i + 1);
    } else {
        assert(s.push(x)[i] == x);
        assert(count_from(s.push(x), i + 1) == 0);
        assert(count_from(s, i) == 0);
    }
}

/// Summing restarted after a pushed node adds that node's size.
proof fn lemma_sum_push(s: Seq<FileNode>, x: FileNode, i: int)
    requires
        0 <= i <= s.len(),
    ensures
        sum_sizes_from(s.push(x), i) == sum_sizes_from(s, i) + x.size,
    decreases s.len() - i,
{
    if i < s.len() {
        assert(s.push(x)[i] == s[i]);
        lemma_sum_push(s, x, i + 1);
    } else {
        assert(s.push(x)[i] == x);
        assert(sum_sizes_from(s.push(x), i + 1) == 0);
        assert(sum_sizes_from(s, i) == 0);
    }
}

/// Sizes are non-negative, so partial sums are non-negative.
pub proof fn lemma_sum_nonneg(s: Seq<FileNode>, i: int)
    ensures
        sum_sizes_from(s, i) >= 0,
    decreases s.len() - i,
{
    if 0 <= i < s.len() {
        lemma_sum_nonneg(s, i + 1);
    }
}

/// A bound on every subtree height bounds the maximum.
proof fn lemma_max_height_bound(s: Seq<FileNode>, i: int, b: int)
    requires
        0 <= i <= s.len(),
        b >= 0,
        forall|q: int| i <= q < s.len() ==> height(#[trigger] s[q]) <= b,
    ensures
        0 <= max_height_from(s, i) <= b,
    decreases s.len() - i,
{
    if i < s.len() {
        lemma_max_height_bound(s, i + 1, b);
    }
}

/// `x` clamped to the `u64` range.
pub open spec fn clamp_u64(x: int) -> u64 {
    if x > u64::MAX as int {
        u64::MAX
    } else if x < 0 {
        0
    } else {
        x as u64
    }
}

/// The abstract child index determined by the record buffer: parent key to
/// child positions, for the keys that have children.
pub open spec fn index_map_of(records: Seq<MftRecord>, vol: Seq<char>) -> Map<
    Seq<char>,
    Seq<int>,
> {
    Map::new(
        |k: Seq<char>| child_indices(records, vol, k).len() > 0,
        |k: Seq<char>| child_indices(records, vol, k),
    )
}

/// The abstract recursive size map determined by the record buffer.
pub open spec fn size_map_of(records: Seq<MftRecord>) -> Map<Seq<char>, u64> {
    Map::new(
        |k: Seq<char>|
            exists|i: int| 0 <= i < records.len() && contributes(#[trigger] records[i], k),
        |k: Seq<char>| clamp_u64(total_for(records, k)),
    )
}

/// The list under key `k`, or empty when `k` has no entry.
pub open spec fn list_or_empty_of(im: Map<Seq<char>, Seq<int>>, k: Seq<char>) -> Seq<int> {
    if im.dom().contains(k) {
        im[k]
    } else {
        Seq::empty()
    }
}

/// The positions of `l` whose records do not spell `prefix` itself
/// (ASCII-case-insensitively), in order; positions out of range are
/// dropped (none are, for a bounded index).
pub open spec fn filter_skip(l: Seq<int>, records: Seq<MftRecord>, prefix: Seq<char>) -> Seq<int>
    decreases l.len(),
{
    if l.len() == 0 {
        Seq::empty()
    } else {
        let pre = filter_skip(l.drop_last(), records, prefix);
        let idx = l.last();
        if 0 <= idx < records.len() && !seq_eq_ic(records[idx].full_path@, prefix) {
            pre + seq![idx]
        } else {
            pre
        }
    }
}

/// Unrolling the filter over a prefix grown by one position.
proof fn lemma_filter_unroll(l: Seq<int>, records: Seq<MftRecord>, prefix: Seq<char>, j: int)
    requires
        0 <= j < l.len(),
    ensures
        filter_skip(l.take(j + 1), records, prefix) == filter_skip(l.take(j), records, prefix)
            + if 0 <= l[j] < records.len() && !seq_eq_ic(records[l[j]].full_path@, prefix) {
            seq![l[j]]
        } else {
            Seq::<int>::empty()
        },
{
    assert(l.take(j + 1).drop_last() =~= l.take(j));
    assert(l.take(j + 1).last() == l[j]);
    if 0 <= l[j] < records.len() && !seq_eq_ic(records[l[j]].full_path@, prefix) {
    } else {
        assert(filter_skip(l.take(j + 1), records, prefix) =~= filter_skip(
            l.take(j),
            records,
            prefix,
        ) + Seq::<int>::empty());
    }
}

/// The filter of a prefix of `l` is a prefix of the filter of `l`.
proof fn lemma_filter_prefix(l: Seq<int>, records: Seq<MftRecord>, prefix: Seq<char>, j: int)
    requires
        0 <= j <= l.len(),
    ensures
        filter_skip(l.take(j), records, prefix).len() <= filter_skip(l, records, prefix).len(),
        forall|q: int|
            0 <= q < filter_skip(l.take(j), records, prefix).len() ==> filter_skip(
                l.take(j),
                records,
                prefix,
            )[q] == #[trigger] filter_skip(l, records, prefix)[q],
    decreases l.len() - j,
{
    if j == l.len() {
        assert(l.take(j) =~= l);
    } else {
        lemma_filter_unroll(l, records, prefix, j);
        lemma_filter_prefix(l, records, prefix, j + 1);
        let fj = filter_skip(l.take(j), records, prefix);
        let fj1 = filter_skip(l.take(j + 1), records, prefix);
        assert(forall|q: int| 0 <= q < fj.len() ==> fj[q] == fj1[q]);
    }
}

/// `name` matches one of the shallow directory names, ASCII-case-
/// insensitively.
pub open spec fn name_in_shallow(name: Seq<char>, names: Seq<Seq<char>>) -> bool {
    exists|i: int| 0 <= i < names.len() && seq_eq_ic(#[trigger] names[i], name)
}

/// A record collapses to a shallow leaf: the policy is on, the record is a
/// directory, and its display name is a well-known shallow name.
pub open spec fn is_shallow_rec(r: MftRecord, shallow_dirs: bool, names: Seq<Seq<char>>) -> bool {
    shallow_dirs && r.is_dir && name_in_shallow(last_segment(r.full_path@), names)
}

/// The size shown for a shallow leaf: its aggregated subtree total from the
/// size map, or the record's own size when the map has no entry.
pub open spec fn shallow_leaf_size(sm: Map<Seq<char>, u64>, r: MftRecord) -> u64 {
    if sm.dom().contains(trim_end_bs(r.full_path@)) {
        sm[trim_end_bs(r.full_path@)]
    } else {
        r.size
    }
}

/// The node `c` is exactly the child materialized for record `idx` at
/// `depth`: a shallow leaf, a recursively expanded directory (below the
/// depth cap), or a plain leaf carrying the record's own fields.
pub open spec fn child_ok(
    im: Map<Seq<char>, Seq<int>>,
    sm: Map<Seq<char>, u64>,
    records: Seq<MftRecord>,
    c: FileNode,
    idx: int,
    depth: int,
    shallow_dirs: bool,
    names: Seq<Seq<char>>,
) -> bool
    decreases c, 1int,
{
    &&& 0 <= idx < records.len()
    &&& {
        let rec = records[idx];
        &&& c.path@ == rec.full_path@
        &&& c.name@ == last_segment(rec.full_path@)
        &&& if is_shallow_rec(rec, shallow_dirs, names) {
            &&& c.is_dir
            &&& c.modified == rec.modified
            &&& c.size == shallow_leaf_size(sm, rec)
            &&& c.children@.len() == 0
        } else if rec.is_dir && depth < MAX_DEPTH as int {
            subtree_ok(im, sm, records, c, depth + 1, shallow_dirs, names)
        } else {
            &&& c.is_dir == rec.is_dir
            &&& c.modified == rec.modified
            &&& c.size == rec.size
            &&& c.children@.len() == 0
        }
    }
}

/// The node `n` is exactly the subtree materialized for the prefix
/// `n.path` at `depth`: its children are the first (up to the fan-out cap)
/// index entries under that prefix that do not spell the prefix itself,
/// each a correct child, and its size is their saturating sum.
pub open spec fn subtree_ok(
    im: Map<Seq<char>, Seq<int>>,
    sm: Map<Seq<char>, u64>,
    records: Seq<MftRecord>,
    n: FileNode,
    depth: int,
    shallow_dirs: bool,
    names: Seq<Seq<char>>,
) -> bool
    decreases n, 0int,
{
    &&& n.is_dir
    &&& n.modified is None
    &&& n.children@.len() == min(
        filter_skip(list_or_empty_of(im, n.path@), records, n.path@).len() as int,
        MAX_CHILDREN_PER_DIR as int,
    )
    &&& n.size as int == min(sum_sizes_from(n.children@, 0), u64::MAX as int)
    &&& forall|q: int|
        0 <= q < n.children@.len() ==> child_ok(
            im,
            sm,
            records,
            #[trigger] n.children@[q],
            filter_skip(list_or_empty_of(im, n.path@), records, n.path@)[q],
            depth,
            shallow_dirs,
            names,
        )
}

/// Folding the defining clauses back into the subtree predicate.
proof fn lemma_subtree_intro(
    im: Map<Seq<char>, Seq<int>>,
    sm: Map<Seq<char>, u64>,
    records: Seq<MftRecord>,
    n: FileNode,
    depth: int,
    shallow_dirs: bool,
    names: Seq<Seq<char>>,
)
    requires
        n.is_dir,
        n.modified is None,
        n.children@.len() == min(
            filter_skip(list_or_empty_of(im, n.path@), records, n.path@).len() as int,
            MAX_CHILDREN_PER_DIR as int,
        ),
        n.size as int == min(sum_sizes_from(n.children@, 0), u64::MAX as int),
        forall|q: int|
            0 <= q < n.children@.len() ==> child_ok(
                im,
                sm,
                records,
                #[trigger] n.children@[q],
                filter_skip(list_or_empty_of(im, n.path@), records, n.path@)[q],
                depth,
                shallow_dirs,
                names,
            ),
    ensures
        subtree_ok(im, sm, records, n, depth, shallow_dirs, names),
{
}

/// The laws of a materialized child: bounded fan-out, consistent sizes,
/// bounded height, and paths drawn from the record buffer.
proof fn lemma_child_laws(
    im: Map<Seq<char>, Seq<int>>,
    sm: Map<Seq<char>, u64>,
    records: Seq<MftRecord>,
    c: FileNode,
    idx: int,
    depth: int,
    shallow_dirs: bool,
    names: Seq<Seq<char>>,
)
    requires
        child_ok(im, sm, records, c, idx, depth, shallow_dirs, names),
        0 <= depth <= MAX_DEPTH as int,
    ensures
        fanout_ok(c),
        tree_sizes_ok(c),
        height(c) <= MAX_DEPTH as int + 1 - depth,
        paths_within(c, record_paths(records)),
        record_paths(records).contains(c.path@),
    decreases c, 1int,
{
    let rec = records[idx];
    assert(record_paths(records).contains(c.path@)) by {
        assert((records[idx]).full_path@ == c.path@);
    }
    if is_shallow_rec(rec, shallow_dirs, names) || !rec.is_dir || !(depth < MAX_DEPTH as int) {
        assert(c.children@.len() == 0);
        assert(fanout_ok(c));
        assert(tree_sizes_ok(c));
        assert(max_height_from(c.children@, 0) == 0);
        assert(height(c) == 1);
        assert(paths_within(c, record_paths(records)));
    } else {
        lemma_subtree_laws(im, sm, records, c, depth + 1, shallow_dirs, names);
    }
}

/// The laws of a materialized subtree; see `lemma_child_laws`.
proof fn lemma_subtree_laws(
    im: Map<Seq<char>, Seq<int>>,
    sm: Map<Seq<char>, u64>,
    records: Seq<MftRecord>,
    n: FileNode,
    depth: int,
    shallow_dirs: bool,
    names: Seq<Seq<char>>,
)
    requires
        subtree_ok(im, sm, records, n, depth, shallow_dirs, names),
        0 <= depth <= MAX_DEPTH as int,
    ensures
        fanout_ok(n),
        tree_sizes_ok(n),
        height(n) <= MAX_DEPTH as int + 2 - depth,
        paths_within(n, record_paths(records)),
    decreases n, 0int,
{
    let kept = filter_skip(list_or_empty_of(im, n.path@), records, n.path@);
    assert forall|q: int| 0 <= q < n.children@.len() implies fanout_ok(#[trigger] n.children@[q])
        && tree_sizes_ok(n.children@[q]) && height(n.children@[q]) <= MAX_DEPTH as int + 1 - depth
        && paths_within(n.children@[q], record_paths(records)) && record_paths(records).contains(
        n.children@[q].path@,
    ) by {
        assert(child_ok(im, sm, records, n.children@[q], kept[q], depth, shallow_dirs, names));
        lemma_child_laws(im, sm, records, n.children@[q], kept[q], depth, shallow_dirs, names);
    }
    assert(fanout_ok(n));
    assert(tree_sizes_ok(n));
    lemma_max_height_bound(n.children@, 0, MAX_DEPTH as int + 1 - depth);
    assert(height(n) <= MAX_DEPTH as int + 2 - depth);
    assert(paths_within(n, record_paths(records)));
}

/// Fan-out cap law: every node of a materialized subtree emits at most
/// `MAX_CHILDREN_PER_DIR` children.
pub proof fn lemma_subtree_fanout(
    im: Map<Seq<char>, Seq<int>>,
    sm: Map<Seq<char>, u64>,
    records: Seq<MftRecord>,
    n: FileNode,
    depth: int,
    shallow_dirs: bool,
    names: Seq<Seq<char>>,
)
    requires
        subtree_ok(im, sm, records, n, depth, shallow_dirs, names),
        0 <= depth <= MAX_DEPTH as int,
    ensures
        fanout_ok(n),
{
    lemma_subtree_laws(im, sm, records, n, depth, shallow_dirs, names);
}

/// Size conservation law: every node of a materialized subtree that kept
/// children carries the saturating sum of their sizes.
pub proof fn lemma_subtree_sizes(
    im: Map<Seq<char>, Seq<int>>,
    sm: Map<Seq<char>, u64>,
    records: Seq<MftRecord>,
    n: FileNode,
    depth: int,
    shallow_dirs: bool,
    names: Seq<Seq<char>>,
)
    requires
        subtree_ok(im, sm, records, n, depth, shallow_dirs, names),
        0 <= depth <= MAX_DEPTH as int,
    ensures
        tree_sizes_ok(n),
{
    lemma_subtree_laws(im, sm, records, n, depth, shallow_dirs, names);
}

/// Depth cap law: a subtree expanded at `depth` has height at most
/// `MAX_DEPTH + 2 - depth` (its deepest nodes are the leaf children of a
/// directory expanded at the depth cap).
pub proof fn lemma_subtree_height(
    im: Map<Seq<char>, Seq<int>>,
    sm: Map<Seq<char>, u64>,
    records: Seq<MftRecord>,
    n: FileNode,
    depth: int,
    shallow_dirs: bool,
    names: Seq<Seq<char>>,
)
    requires
        subtree_ok(im, sm, records, n, depth, shallow_dirs, names),
        0 <= depth <= MAX_DEPTH as int,
    ensures
        height(n) <= MAX_DEPTH as int + 2 - depth,
{
    lemma_subtree_laws(im, sm, records, n, depth, shallow_dirs, names);
}

/// Path provenance law: every node strictly below a materialized subtree
/// root carries the full path of some record of the buffer.
pub proof fn lemma_subtree_paths(
    im: Map<Seq<char>, Seq<int>>,
    sm: Map<Seq<char>, u64>,
    records: Seq<MftRecord>,
    n: FileNode,
    depth: int,
    shallow_dirs: bool,
    names: Seq<Seq<char>>,
)
    requires
        subtree_ok(im, sm, records, n, depth, shallow_dirs, names),
        0 <= depth <= MAX_DEPTH as int,
    ensures
        paths_within(n, record_paths(records)),
{
    lemma_subtree_laws(im, sm, records, n, depth, shallow_dirs, names);
}

/// Every path below the tree is canonical for drive `d`.
pub open spec fn tree_paths_canonical(n: FileNode, d: char) -> bool
    decreases n,
{
    forall|q: int|
        0 <= q < n.children@.len() ==> (crate::paths::is_canonical_path(
            (#[trigger] n.children@[q]).path@,
            d,
        ) && tree_paths_canonical(n.children@[q], d))
}

/// Path canonicality law: when every record path is canonical for drive
/// `d`, every node below the tree root carries a canonical path.
pub proof fn lemma_tree_paths_canonical(n: FileNode, records: Seq<MftRecord>, d: char)
    requires
        paths_within(n, record_paths(records)),
        forall|i: int|
            0 <= i < records.len() ==> crate::paths::is_canonical_path(
                (#[trigger] records[i]).full_path@,
                d,
            ),
    ensures
        tree_paths_canonical(n, d),
    decreases n,
{
    assert forall|q: int| 0 <= q < n.children@.len() implies (crate::paths::is_canonical_path(
        (#[trigger] n.children@[q]).path@,
        d,
    ) && tree_paths_canonical(n.children@[q], d)) by {
        assert(record_paths(records).contains(n.children@[q].path@));
        let i = choose|i: int|
            0 <= i < records.len() && (#[trigger] records[i]).full_path@ == n.children@[q].path@;
        lemma_tree_paths_canonical(n.children@[q], records, d);
    }
}

/// `name` matches one of the shallow directory names.
pub fn name_matches_shallow(name: &str, shallow_names: &Vec<String>) -> (r: bool)
    ensures
        r == name_in_shallow(name@, shallow_names.deep_view()),
{
    let n = shallow_names.len();
    let mut i: usize = 0;
    while i < n
        invariant
            n == shallow_names@.len(),
            0 <= i <= n,
            forall|j: int|
                0 <= j < i ==> !seq_eq_ic(#[trigger] shallow_names.deep_view()[j], name@),
        decreases n - i,
    {
        proof {
            assert(shallow_names.deep_view()[i as int] == shallow_names@[i as int]@);
        }
        if str_eq_ignore_ascii_case(shallow_names[i].as_str(), name) {
            return true;
        }
        i = i + 1;
    }
    false
}

/// Materialize the subtree rooted at `path_prefix`, reading children from
/// the index: shallow directories collapse to leaves carrying their
/// aggregated size, recursion stops at the depth cap, and at most
/// `MAX_CHILDREN_PER_DIR` children are emitted.  Returns the node and the
/// number of materialized nodes (saturating).
pub fn build_subtree_from_index(
    index: &ChildIndex,
    recursive_sizes: &SizeMap,
    records: &Vec<MftRecord>,
    path_prefix: &str,
    name: &str,
    depth: usize,
    shallow_dirs: bool,
    shallow_names: &Vec<String>,
) -> (r: (FileNode, u64))
    requires
        index.wf(),
        recursive_sizes.wf(),
        index.all_positions_below(records@.len() as int),
        1 <= depth <= MAX_DEPTH,
    ensures
        r.0.path@ == path_prefix@,
        r.0.name@ == name@,
        subtree_ok(
            index.as_map(),
            recursive_sizes.as_map(),
            records@,
            r.0,
            depth as int,
            shallow_dirs,
            shallow_names.deep_view(),
        ),
        r.1 as int == min(node_count(r.0), u64::MAX as int),
    decreases MAX_DEPTH - depth,
{
    let ghost im = index.as_map();
    let ghost sm = recursive_sizes.as_map();
    let ghost names = shallow_names.deep_view();
    let ghost nrec = records@.len();
    let empty_list: Vec<usize> = Vec::new();
    let children_slice: &Vec<usize> = match index.get(path_prefix) {
        Some(l) => l,
        None => &empty_list,
    };
    let ghost list = list_or_empty_of(im, path_prefix@);
    proof {
        assert(positions_of(children_slice@) =~= list);
    }
    let cl = children_slice.len();
    let mut size: u64 = 0;
    let mut fc: u64 = 0;
    let mut children: Vec<FileNode> = Vec::new();
    let mut j: usize = 0;
    while j < cl && children.len() < MAX_CHILDREN_PER_DIR
        invariant
            index.wf(),
            recursive_sizes.wf(),
            index.all_positions_below(nrec as int),
            im == index.as_map(),
            sm == recursive_sizes.as_map(),
            nrec == records@.len(),
            1 <= depth <= MAX_DEPTH,
            names == shallow_names.deep_view(),
            cl == children_slice@.len(),
            positions_of(children_slice@) == list,
            list == list_or_empty_of(im, path_prefix@),
            0 <= j <= cl,
            children@.len() == filter_skip(list.take(j as int), records@, path_prefix@).len(),
            children@.len() <= MAX_CHILDREN_PER_DIR,
            forall|q: int|
                0 <= q < children@.len() ==> child_ok(
                    im,
                    sm,
                    records@,
                    #[trigger] children@[q],
                    filter_skip(list.take(j as int), records@, path_prefix@)[q],
                    depth as int,
                    shallow_dirs,
                    names,
                ),
            size as int == min(sum_sizes_from(children@, 0), u64::MAX as int),
            fc as int == min(count_from(children@, 0), u64::MAX as int),
        decreases cl - j,
    {
        let idx = children_slice[j];
        proof {
            assert(list[j as int] == idx as int);
            assert(im.dom().contains(path_prefix@));
            assert(index.contains_key(path_prefix@));
            assert(all_below(index.list_of(path_prefix@), nrec as int));
            assert(0 <= (idx as int) && (idx as int) < records@.len());
        }
        let rec = &records[idx];
        let ghost kj = filter_skip(list.take(j as int), records@, path_prefix@);
        proof {
            lemma_filter_unroll(list, records@, path_prefix@, j as int);
            lemma_sum_nonneg(children@, 0);
            lemma_count_from_nonneg(children@, 0);
        }
        if !str_eq_ignore_ascii_case(rec.full_path.as_str(), path_prefix) {
            let ghost kj1 = filter_skip(list.take(j + 1), records@, path_prefix@);
            proof {
                assert(kj1 == kj + seq![idx as int]);
                assert(kj1[kj.len() as int] == idx as int);
                assert(forall|q: int| 0 <= q < kj.len() ==> kj1[q] == kj[q]);
            }
            let name_str = last_segment_of(rec.full_path.as_str());
            let is_shallow = shallow_dirs && rec.is_dir && name_matches_shallow(
                name_str,
                shallow_names,
            );
            if is_shallow {
                let key_string = trim_end_backslashes(rec.full_path.as_str()).to_owned();
                let child_size = match recursive_sizes.get(&key_string) {
                    Some(v) => v,
                    None => rec.size,
                };
                let child = FileNode {
                    path: rec.full_path.clone(),
                    name: name_str.to_owned(),
                    size: child_size,
                    is_dir: true,
                    modified: rec.modified,
                    children: Vec::new(),
                };
                proof {
                    assert(child.children@.len() == 0);
                    assert(child_size == shallow_leaf_size(sm, records@[idx as int]));
                    assert(child_ok(
                        im,
                        sm,
                        records@,
                        child,
                        idx as int,
                        depth as int,
                        shallow_dirs,
                        names,
                    ));
                    lemma_sum_push(children@, child, 0);
                    lemma_count_push(children@, child, 0);
                    assert(count_from(child.children@, 0) == 0);
                    assert(node_count(child) == 1);
                }
                size = size.saturating_add(child_size);
                fc = fc.saturating_add(1);
                children.push(child);
            } else if rec.is_dir && depth < MAX_DEPTH {
                let (child_node, cnt) = build_subtree_from_index(
                    index,
                    recursive_sizes,
                    records,
                    rec.full_path.as_str(),
                    name_str,
                    depth + 1,
                    shallow_dirs,
                    shallow_names,
                );
                proof {
                    assert(child_ok(
                        im,
                        sm,
                        records@,
                        child_node,
                        idx as int,
                        depth as int,
                        shallow_dirs,
                        names,
                    ));
                    lemma_sum_push(children@, child_node, 0);
                    lemma_count_push(children@, child_node, 0);
                    lemma_count_pos(child_node);
                    lemma_count_from_nonneg(child_node.children@, 0);
                }
                size = size.saturating_add(child_node.size);
                fc = fc.saturating_add(cnt);
                children.push(child_node);
            } else {
                let child = FileNode {
                    path: rec.full_path.clone(),
                    name: name_str.to_owned(),
                    size: rec.size,
                    is_dir: rec.is_dir,
                    modified: rec.modified,
                    children: Vec::new(),
                };
                proof {
                    assert(child.children@.len() == 0);
                    assert(child_ok(
                        im,
                        sm,
                        records@,
                        child,
                        idx as int,
                        depth as int,
                        shallow_dirs,
                        names,
                    ));
                    lemma_sum_push(children@, child, 0);
                    lemma_count_push(children@, child, 0);
                    assert(node_count(child) == 1);
                }
                size = size.saturating_add(rec.size);
                fc = fc.saturating_add(1);
                children.push(child);
            }
        } else {
            proof {
                assert(seq_eq_ic(records@[idx as int].full_path@, path_prefix@));
                assert(filter_skip(list.take(j + 1), records@, path_prefix@) == kj);
            }
        }
        j = j + 1;
    }
    let ghost kept = filter_skip(list, records@, path_prefix@);
    let ghost kj = filter_skip(list.take(j as int), records@, path_prefix@);
    proof {
        lemma_filter_prefix(list, records@, path_prefix@, j as int);
        if j == cl {
            assert(list.take(cl as int) =~= list);
        } else {
            assert(children@.len() == MAX_CHILDREN_PER_DIR);
        }
        assert(children@.len() == min(kept.len() as int, MAX_CHILDREN_PER_DIR as int));
        assert(forall|q: int| 0 <= q < children@.len() ==> kj[q] == #[trigger] kept[q]);
    }
    let ghost cseq = children@;
    let node = FileNode {
        path: path_prefix.to_owned(),
        name: name.to_owned(),
        size,
        is_dir: true,
        modified: None,
        children,
    };
    proof {
        assert(node.path@ == path_prefix@);
        assert(node.children@ == cseq);
        assert(list_or_empty_of(im, node.path@) == list);
        assert(filter_skip(list_or_empty_of(im, node.path@), records@, node.path@) == kept);
        assert forall|q: int| 0 <= q < node.children@.len() implies child_ok(
            im,
            sm,
            records@,
            #[trigger] node.children@[q],
            kept[q],
            depth as int,
            shallow_dirs,
            names,
        ) by {
            assert(node.children@[q] == cseq[q]);
            assert(kept[q] == kj[q]);
            assert(child_ok(im, sm, records@, cseq[q], kj[q], depth as int, shallow_dirs, names));
        }
        lemma_subtree_intro(im, sm, records@, node, depth as int, shallow_dirs, names);
        lemma_count_from_nonneg(node.children@, 0);
        assert(node_count(node) == 1 + count_from(node.children@, 0));
    }
    (node, fc.saturating_add(1))
}

/// The number of nodes of the materialized subtree, saturating at
/// `u64::MAX`.
pub fn count_nodes(n: &FileNode) -> (r: u64)
    ensures
        r as int == min(node_count(*n), u64::MAX as int),
    decreases *n,
{
    let cl = n.children.len();
    let mut total: u64 = 0;
    let mut j: usize = 0;
    proof {
        lemma_count_from_nonneg(n.children@, 0);
    }
    while j < cl
        invariant
            cl == n.children@.len(),
            0 <= j <= cl,
            total as int == min(
                count_from(n.children@, 0) - count_from(n.children@, j as int),
                u64::MAX as int,
            ),
        decreases cl - j,
    {
        proof {
            lemma_count_pos(n.children@[j as int]);
            lemma_count_from_nonneg(n.children@, j as int);
            lemma_count_from_nonneg(n.children@, j + 1);
        }
        let c = count_nodes(&n.children[j]);
        total = total.saturating_add(c);
        j = j + 1;
    }
    proof {
        assert(count_from(n.children@, cl as int) == 0);
        lemma_count_from_nonneg(n.children@, 0);
    }
    total.saturating_add(1)
}

/// The list the root probe settles on: the list under `key` (such as
/// `F:\`), else under the trimmed root `vol` (such as `F:`), else under
/// the first key matching either ASCII-case-insensitively, else empty.
pub open spec fn root_list_ok(
    records: Seq<MftRecord>,
    vol: Seq<char>,
    key: Seq<char>,
    dl: Seq<int>,
) -> bool {
    if child_indices(records, vol, key).len() > 0 {
        dl == child_indices(records, vol, key)
    } else if child_indices(records, vol, vol).len() > 0 {
        dl == child_indices(records, vol, vol)
    } else if exists|k: Seq<char>|
        (#[trigger] child_indices(records, vol, k)).len() > 0 && (seq_eq_ic(k, key) || seq_eq_ic(
            k,
            vol,
        )) {
        exists|k: Seq<char>|
            (#[trigger] child_indices(records, vol, k)).len() > 0 && (seq_eq_ic(k, key)
                || seq_eq_ic(k, vol)) && dl == child_indices(records, vol, k)
    } else {
        dl.len() == 0
    }
}

/// The root's children correspond, in order and up to the fan-out cap, to
/// the probed list `dl`.
pub open spec fn root_children_ok(
    records: Seq<MftRecord>,
    vol: Seq<char>,
    cs: Seq<FileNode>,
    dl: Seq<int>,
    shallow_dirs: bool,
    names: Seq<Seq<char>>,
) -> bool {
    &&& cs.len() == min(dl.len() as int, MAX_CHILDREN_PER_DIR as int)
    &&& forall|q: int|
        0 <= q < cs.len() ==> child_ok(
            index_map_of(records, vol),
            size_map_of(records),
            records,
            #[trigger] cs[q],
            dl[q],
            0,
            shallow_dirs,
            names,
        )
}

/// Build the whole result tree from the flat record buffer: find the root
/// record, build the child index and the recursive size map, materialize
/// the root's children in index order, and aggregate the totals.  Returns
/// the root node, the count of materialized nodes, and the total size.
pub fn build_tree_from_mft_records(
    records: &Vec<MftRecord>,
    volume_root_trim: &str,
    volume_root_key: &str,
    root_name: &str,
    root_path_str: &str,
    shallow_dirs: bool,
    shallow_names: &Vec<String>,
) -> (r: Result<(FileNode, u64, u64), DiskAnalyzerError>)
    ensures
        r matches Ok(t) && {
            let (root, file_count, total_size) = t;
            &&& root.path@ == root_path_str@
            &&& root.name@ == root_name@
            &&& root.is_dir
            &&& root.modified == root_info(records@, volume_root_trim@).1
            &&& exists|dl: Seq<int>|
                #[trigger] root_list_ok(records@, volume_root_trim@, volume_root_key@, dl)
                    && root_children_ok(
                    records@,
                    volume_root_trim@,
                    root.children@,
                    dl,
                    shallow_dirs,
                    shallow_names.deep_view(),
                )
            &&& total_size as int == min(
                root_info(records@, volume_root_trim@).0 + sum_sizes_from(root.children@, 0),
                u64::MAX as int,
            )
            &&& root.size == total_size
            &&& file_count as int == min(1 + count_from(root.children@, 0), u64::MAX as int)
            &&& fanout_ok(root)
            &&& height(root) <= MAX_DEPTH as int + 2
            &&& forall|q: int|
                0 <= q < root.children@.len() ==> tree_sizes_ok(#[trigger] root.children@[q])
            &&& paths_within(root, record_paths(records@))
        },
{
    let ghost vol = volume_root_trim@;
    let ghost names = shallow_names.deep_view();
    let ghost nrec = records@.len();
    let (root_size, root_modified, index) = crate::child_index::build_child_index(
        records,
        volume_root_trim,
    );
    let recursive_sizes = crate::size_map::build_recursive_size_map(records);
    let ghost im = index.as_map();
    let ghost sm = recursive_sizes.as_map();
    proof {
        assert forall|k: Seq<char>| #[trigger]
            sm.dom().contains(k) implies sm[k] == size_map_of(records@)[k] by {
            lemma_total_nonneg(records@, k);
        }
        assert(im =~= index_map_of(records@, vol));
        assert(sm =~= size_map_of(records@));
    }
    let empty_list: Vec<usize> = Vec::new();
    let probe = index.get_root_children(volume_root_key, volume_root_trim);
    let direct: &Vec<usize> = match probe {
        Some(l) => l,
        None => &empty_list,
    };
    let ghost dl = positions_of(direct@);
    proof {
        let key_a = volume_root_key@;
        let key_b = volume_root_trim@;
        match probe {
            Some(l) => {
                if index.contains_key(key_a) {
                    assert(child_indices(records@, vol, key_a).len() > 0);
                    assert(dl == index.list_of(key_a));
                    assert(dl == child_indices(records@, vol, key_a));
                } else if index.contains_key(key_b) {
                    assert(child_indices(records@, vol, key_a).len() == 0);
                    assert(child_indices(records@, vol, key_b).len() > 0);
                    assert(dl == index.list_of(key_b));
                    assert(dl == child_indices(records@, vol, key_b));
                } else {
                    assert(child_indices(records@, vol, key_a).len() == 0);
                    assert(child_indices(records@, vol, key_b).len() == 0);
                    let k0 = choose|k: Seq<char>|
                        #[trigger] index.contains_key(k) && (seq_eq_ic(k, key_a) || seq_eq_ic(
                            k,
                            key_b,
                        )) && positions_of(l@) == index.list_of(k);
                    assert(child_indices(records@, vol, k0).len() > 0);
                    assert(dl == child_indices(records@, vol, k0));
                    assert(exists|k: Seq<char>|
                        (#[trigger] child_indices(records@, vol, k)).len() > 0 && (seq_eq_ic(
                            k,
                            key_a,
                        ) || seq_eq_ic(k, key_b)));
                    assert(exists|k: Seq<char>|
                        (#[trigger] child_indices(records@, vol, k)).len() > 0 && (seq_eq_ic(
                            k,
                            key_a,
                        ) || seq_eq_ic(k, key_b)) && dl == child_indices(records@, vol, k));
                }
                assert(root_list_ok(records@, vol, key_a, dl));
            },
            None => {
                assert(child_indices(records@, vol, key_a).len() == 0);
                assert(child_indices(records@, vol, key_b).len() == 0);
                assert(dl =~= Seq::<int>::empty());
                assert forall|k: Seq<char>|
                    !((#[trigger] child_indices(records@, vol, k)).len() > 0 && (seq_eq_ic(
                        k,
                        key_a,
                    ) || seq_eq_ic(k, key_b))) by {
                    if child_indices(records@, vol, k).len() > 0 {
                        assert(index.contains_key(k));
                    }
                }
                assert(root_list_ok(records@, vol, key_a, dl));
            },
        }
        assert(all_below(dl, nrec as int));
    }
    let dn = direct.len();
    let mut children: Vec<FileNode> = Vec::new();
    let mut total_size: u64 = root_size;
    let mut file_count: u64 = 1;
    let mut q: usize = 0;
    proof {
        assert(dl.len() == dn as int);
    }
    while q < dn && q < MAX_CHILDREN_PER_DIR
        invariant
            index.wf(),
            recursive_sizes.wf(),
            index.all_positions_below(nrec as int),
            im == index.as_map(),
            sm == recursive_sizes.as_map(),
            im == index_map_of(records@, vol),
            sm == size_map_of(records@),
            nrec == records@.len(),
            names == shallow_names.deep_view(),
            vol == volume_root_trim@,
            dn == direct@.len(),
            dl == positions_of(direct@),
            all_below(dl, nrec as int),
            0 <= q <= dn,
            q <= MAX_CHILDREN_PER_DIR,
            children@.len() == q,
            root_size == root_info(records@, vol).0,
            forall|t: int|
                0 <= t < q ==> child_ok(
                    im,
                    sm,
                    records@,
                    #[trigger] children@[t],
                    dl[t],
                    0,
                    shallow_dirs,
                    names,
                ),
            total_size as int == min(
                root_size as int + sum_sizes_from(children@, 0),
                u64::MAX as int,
            ),
            file_count as int == min(1 + count_from(children@, 0), u64::MAX as int),
        decreases dn - q,
    {
        let idx = direct[q];
        proof {
            assert(dl[q as int] == idx as int);
            assert(0 <= (idx as int) && (idx as int) < records@.len());
            lemma_sum_nonneg(children@, 0);
            lemma_count_from_nonneg(children@, 0);
        }
        let rec = &records[idx];
        let name_str = last_segment_of(rec.full_path.as_str());
        let is_shallow = shallow_dirs && rec.is_dir && name_matches_shallow(
            name_str,
            shallow_names,
        );
        if is_shallow {
            let key_string = trim_end_backslashes(rec.full_path.as_str()).to_owned();
            let child_size = match recursive_sizes.get(&key_string) {
                Some(v) => v,
                None => rec.size,
            };
            let child = FileNode {
                path: rec.full_path.clone(),
                name: name_str.to_owned(),
                size: child_size,
                is_dir: true,
                modified: rec.modified,
                children: Vec::new(),
            };
            proof {
                assert(child.children@.len() == 0);
                assert(child_size == shallow_leaf_size(sm, records@[idx as int]));
                assert(child_ok(im, sm, records@, child, idx as int, 0, shallow_dirs, names));
                lemma_sum_push(children@, child, 0);
                lemma_count_push(children@, child, 0);
                assert(node_count(child) == 1);
            }
            total_size = total_size.saturating_add(child_size);
            file_count = file_count.saturating_add(1);
            children.push(child);
        } else if rec.is_dir {
            let (child_node, cnt) = build_subtree_from_index(
                &index,
                &recursive_sizes,
                records,
                rec.full_path.as_str(),
                name_str,
                1,
                shallow_dirs,
                shallow_names,
            );
            proof {
                assert(child_ok(im, sm, records@, child_node, idx as int, 0, shallow_dirs, names));
                lemma_sum_push(children@, child_node, 0);
                lemma_count_push(children@, child_node, 0);
                lemma_count_pos(child_node);
            }
            total_size = total_size.saturating_add(child_node.size);
            file_count = file_count.saturating_add(cnt);
            children.push(child_node);
        } else {
            let child = FileNode {
                path: rec.full_path.clone(),
                name: name_str.to_owned(),
                size: rec.size,
                is_dir: rec.is_dir,
                modified: rec.modified,
                children: Vec::new(),
            };
            proof {
                assert(child.children@.len() == 0);
                assert(child_ok(im, sm, records@, child, idx as int, 0, shallow_dirs, names));
                lemma_sum_push(children@, child, 0);
                lemma_count_push(children@, child, 0);
                assert(node_count(child) == 1);
            }
            total_size = total_size.saturating_add(rec.size);
            file_count = file_count.saturating_add(1);
            children.push(child);
        }
        q = q + 1;
    }
    let ghost cseq = children@;
    let root = FileNode {
        path: root_path_str.to_owned(),
        name: root_name.to_owned(),
        size: total_size,
        is_dir: true,
        modified: root_modified,
        children,
    };
    proof {
        assert(root.children@ == cseq);
        assert(root.children@.len() == min(dl.len() as int, MAX_CHILDREN_PER_DIR as int));
        assert forall|t: int| 0 <= t < root.children@.len() implies child_ok(
            index_map_of(records@, vol),
            size_map_of(records@),
            records@,
            #[trigger] root.children@[t],
            dl[t],
            0,
            shallow_dirs,
            names,
        ) by {
            assert(root.children@[t] == cseq[t]);
            assert(child_ok(im, sm, records@, cseq[t], dl[t], 0, shallow_dirs, names));
        }
        assert(root_children_ok(records@, vol, root.children@, dl, shallow_dirs, names));
        assert forall|t: int| 0 <= t < root.children@.len() implies fanout_ok(
            #[trigger] root.children@[t],
        ) && tree_sizes_ok(root.children@[t]) && height(root.children@[t]) <= MAX_DEPTH as int + 1
            && paths_within(root.children@[t], record_paths(records@)) && record_paths(
            records@,
        ).contains(root.children@[t].path@) by {
            lemma_child_laws(im, sm, records@, root.children@[t], dl[t], 0, shallow_dirs, names);
        }
        assert(fanout_ok(root));
        lemma_max_height_bound(root.children@, 0, MAX_DEPTH as int + 1);
        assert(height(root) <= MAX_DEPTH as int + 2);
        assert(paths_within(root, record_paths(records@)));
    }
    Ok((root, file_count, total_size))
}

} // verus!
