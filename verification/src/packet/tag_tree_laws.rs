//! What holds of tag-tree queries, one after the other.
use vstd::arithmetic::power2::{lemma2_to64, lemma_pow2_pos, lemma_pow2_unfold, pow2};
use vstd::prelude::*;

use crate::packet::bits::{law_bits_round_trip, packs, payload};
use crate::packet::tag_tree::{
    below, below_threshold, child_min, coarser, consistent, fresh_tree, half_up, halved, leaf_value,
    lemma_cell_bound, lemma_fresh_shape, lemma_node_index, level_dim, min_tree, min_u32,
    node_index, read_leaf, read_node, read_path, tree_depth, tree_shape, write_node, write_path,
    TreeRead,
};
use crate::packet::tag_tree_encoder::{
    law_tag_tree_threshold, law_tag_tree_value, lemma_fresh_consistent, lemma_fresh_nodes,
    lemma_min_tree_shape, lemma_path_rises, lemma_path_to_leaf,
};
use crate::Error;

verus! {

/// Reading a node never takes its value back, and what is left of it to ask is settled.
proof fn lemma_node_read(v: u32, known: bool, limit: Option<u32>, bits: Seq<bool>)
    ensures
        read_node(v, known, limit, bits).0 matches Ok(n) ==> {
            v <= n.0 && (n.1 || !below(n.0, limit))
        },
    decreases bits.len(),
{
    if !known && below(v, limit) && bits.len() > 0 && !bits[0] && v < u32::MAX {
        lemma_node_read((v + 1) as u32, false, limit, bits.skip(1));
    }
}

/// A walk leaves the levels above it as they are, and the shape of all.
proof fn lemma_rows_above(
    levels: Seq<Seq<(u32, bool)>>,
    w: nat,
    h: nat,
    x: nat,
    y: nat,
    limit: Option<u32>,
    level: nat,
    above: u32,
    bits: Seq<bool>,
)
    requires
        tree_shape(levels, w, h),
        x < w,
        y < h,
    ensures
        ({
            let q = read_path(levels, w, h, x, y, limit, level, above, bits);
            &&& tree_shape(q.levels, w, h)
            &&& forall|l: int| 0 <= l < level && l < levels.len() ==> q.levels[l] == levels[l]
        }),
    decreases levels.len() - level,
{
    if level < levels.len() {
        let i = node_index(w, h, level, x, y);
        lemma_node_index(w, h, level, x, y);
        let node = levels[level as int][i];
        let v = if node.0 < above { above } else { node.0 };
        let (r, rest) = read_node(v, node.1, limit, bits);
        if let Ok(n) = r {
            let next = levels.update(level as int, levels[level as int].update(i, n));
            assert(tree_shape(next, w, h));
            if n.1 {
                lemma_rows_above(next, w, h, x, y, limit, level + 1, n.0, rest);
            }
            let q = read_path(levels, w, h, x, y, limit, level, above, bits);
            assert forall|l: int| 0 <= l < level implies q.levels[l] == levels[l] by {
                assert(q.levels[l] == next[l]);
            }
        }
    }
}

/// A walk that found the leaf finds it again under any limit, and one that stopped at its
/// limit stops again, without a bit.
proof fn lemma_walk_again(
    levels: Seq<Seq<(u32, bool)>>,
    w: nat,
    h: nat,
    x: nat,
    y: nat,
    limit: Option<u32>,
    level: nat,
    above: u32,
    bits: Seq<bool>,
    again: Option<u32>,
    others: Seq<bool>,
)
    requires
        tree_shape(levels, w, h),
        x < w,
        y < h,
    ensures
        ({
            let q = read_path(levels, w, h, x, y, limit, level, above, bits);
            q.value is Ok && (q.value->Ok_0 is Some || again == limit) ==> read_path(
                q.levels,
                w,
                h,
                x,
                y,
                again,
                level,
                above,
                others,
            ) == (TreeRead { levels: q.levels, value: q.value, rest: others })
        }),
    decreases levels.len() - level,
{
    let q = read_path(levels, w, h, x, y, limit, level, above, bits);
    if level < levels.len() && q.value is Ok && (q.value->Ok_0 is Some || again == limit) {
        let i = node_index(w, h, level, x, y);
        lemma_node_index(w, h, level, x, y);
        let node = levels[level as int][i];
        let v = if node.0 < above { above } else { node.0 };
        let (r, rest) = read_node(v, node.1, limit, bits);
        lemma_node_read(v, node.1, limit, bits);
        let n = r->Ok_0;
        let next = levels.update(level as int, levels[level as int].update(i, n));
        assert(tree_shape(next, w, h));
        if n.1 {
            lemma_rows_above(next, w, h, x, y, limit, level + 1, n.0, rest);
            lemma_walk_again(next, w, h, x, y, limit, level + 1, n.0, rest, again, others);
        }
        assert(q.levels[level as int] == next[level as int]);
        assert(q.levels.update(level as int, q.levels[level as int].update(i, n)) =~= q.levels) by {
            assert(q.levels[level as int].update(i, n) =~= q.levels[level as int]);
        }
    }
}

/// A threshold query that was answered is answered alike again, without reading a bit. If
/// the leaf was found to be below the threshold, every greater threshold and the value
/// itself are answered without a bit, and the value is below the threshold.
pub proof fn law_answered_query(
    levels: Seq<Seq<(u32, bool)>>,
    w: nat,
    h: nat,
    x: nat,
    y: nat,
    threshold: u32,
    bits: Seq<bool>,
    others: Seq<bool>,
)
    requires
        tree_shape(levels, w, h),
        x < w,
        y < h,
        below_threshold(
            read_leaf(levels, w, h, x, y, Some(threshold), bits).value,
            threshold,
        ) is Ok,
    ensures
        ({
            let q = read_leaf(levels, w, h, x, y, Some(threshold), bits);
            let b = below_threshold(q.value, threshold)->Ok_0;
            let again = read_leaf(q.levels, w, h, x, y, Some(threshold), others);
            &&& below_threshold(again.value, threshold) == Ok::<bool, Error>(b)
            &&& again.rest == others
            &&& again.levels == q.levels
            &&& b ==> {
                let v = read_leaf(q.levels, w, h, x, y, None, others);
                &&& leaf_value(v.value) is Ok
                &&& leaf_value(v.value)->Ok_0 < threshold
                &&& v.rest == others
                &&& v.levels == q.levels
            }
            &&& b ==> forall|t: u32|
                t >= threshold ==> {
                    let more = #[trigger] read_leaf(q.levels, w, h, x, y, Some(t), others);
                    &&& below_threshold(more.value, t) == Ok::<bool, Error>(true)
                    &&& more.rest == others
                    &&& more.levels == q.levels
                }
        }),
{
    let limit = Some(threshold);
    let q = read_leaf(levels, w, h, x, y, limit, bits);
    lemma_walk_again(levels, w, h, x, y, limit, 0, 0, bits, limit, others);
    lemma_walk_again(levels, w, h, x, y, limit, 0, 0, bits, None, others);
    assert forall|t: u32|
        t >= threshold && below_threshold(q.value, threshold)->Ok_0 implies {
        let more = #[trigger] read_leaf(q.levels, w, h, x, y, Some(t), others);
        &&& below_threshold(more.value, t) == Ok::<bool, Error>(true)
        &&& more.rest == others
        &&& more.levels == q.levels
    } by {
        lemma_walk_again(levels, w, h, x, y, limit, 0, 0, bits, Some(t), others);
    }
}

/// A node is read on from where a limit stopped.
proof fn lemma_node_goes_on(v: u32, known: bool, t: u32, bits: Seq<bool>)
    requires
        read_node(v, known, None, bits).0 is Ok,
    ensures
        ({
            let (all, last) = read_node(v, known, None, bits);
            let (part, rest) = read_node(v, known, Some(t), bits);
            &&& all->Ok_0.1
            &&& v <= all->Ok_0.0
            &&& part is Ok
            &&& v <= part->Ok_0.0
            &&& read_node(part->Ok_0.0, part->Ok_0.1, None, rest) == (all, last)
            &&& part->Ok_0.1 ==> part == all && rest == last
            &&& !part->Ok_0.1 ==> t <= all->Ok_0.0
            &&& all->Ok_0.0 < t ==> part == all && rest == last
        }),
    decreases bits.len(),
{
    if !known && v < t && bits.len() > 0 && !bits[0] && v < u32::MAX {
        lemma_node_goes_on((v + 1) as u32, false, t, bits.skip(1));
    } else {
        lemma_node_rises(v, known, bits);
    }
}

/// Reading a node without a limit commits it, at no less than its value.
proof fn lemma_node_rises(v: u32, known: bool, bits: Seq<bool>)
    ensures
        read_node(v, known, None, bits).0 matches Ok(n) ==> v <= n.0 && n.1,
    decreases bits.len(),
{
    if !known && bits.len() > 0 && !bits[0] && v < u32::MAX {
        lemma_node_rises((v + 1) as u32, false, bits.skip(1));
    }
}

/// A walk is taken up where a limit stopped it.
proof fn lemma_walk_goes_on(
    levels: Seq<Seq<(u32, bool)>>,
    w: nat,
    h: nat,
    x: nat,
    y: nat,
    t: u32,
    level: nat,
    above: u32,
    bits: Seq<bool>,
)
    requires
        tree_shape(levels, w, h),
        x < w,
        y < h,
        read_path(levels, w, h, x, y, None, level, above, bits).value is Ok,
    ensures
        ({
            let all = read_path(levels, w, h, x, y, None, level, above, bits);
            let part = read_path(levels, w, h, x, y, Some(t), level, above, bits);
            &&& all.value->Ok_0 is Some
            &&& above <= all.value->Ok_0->0
            &&& tree_shape(part.levels, w, h)
            &&& part.value is Ok
            &&& part.value->Ok_0 is Some ==> part == all
            &&& part.value->Ok_0 is None ==> t <= all.value->Ok_0->0
            &&& all.value->Ok_0->0 < t ==> part == all
            &&& read_path(part.levels, w, h, x, y, None, level, above, part.rest) == all
        }),
    decreases levels.len() - level,
{
    lemma_rows_above(levels, w, h, x, y, Some(t), level, above, bits);
    if level < levels.len() {
        let i = node_index(w, h, level, x, y);
        lemma_node_index(w, h, level, x, y);
        let node = levels[level as int][i];
        let v = if node.0 < above { above } else { node.0 };
        lemma_node_goes_on(v, node.1, t, bits);
        let (all, last) = read_node(v, node.1, None, bits);
        let (part, rest) = read_node(v, node.1, Some(t), bits);
        let n = all->Ok_0;
        let m = part->Ok_0;
        let full = levels.update(level as int, levels[level as int].update(i, n));
        let next = levels.update(level as int, levels[level as int].update(i, m));
        assert(tree_shape(full, w, h) && tree_shape(next, w, h));
        lemma_walk_goes_on(full, w, h, x, y, t, level + 1, n.0, last);
        let q = read_path(levels, w, h, x, y, Some(t), level, above, bits);
        if m.1 {
            lemma_rows_above(next, w, h, x, y, Some(t), level + 1, m.0, rest);
            assert(q.levels[level as int] == next[level as int]);
            assert(q.levels.update(level as int, q.levels[level as int].update(i, n))
                =~= q.levels) by {
                assert(q.levels[level as int].update(i, n) =~= q.levels[level as int]);
            }
        } else {
            assert(next.update(level as int, next[level as int].update(i, n)) =~= full) by {
                assert(next[level as int].update(i, n) =~= full[level as int]);
            }
        }
    }
}

/// What asking for the thresholds 1 to `j` of a leaf, one after the other, leaves behind.
pub open spec fn rising(
    levels: Seq<Seq<(u32, bool)>>,
    w: nat,
    h: nat,
    x: nat,
    y: nat,
    j: nat,
    bits: Seq<bool>,
) -> TreeRead
    decreases j,
{
    if j == 0 {
        TreeRead { levels, value: Ok(None), rest: bits }
    } else {
        let before = rising(levels, w, h, x, y, (j - 1) as nat, bits);
        read_leaf(before.levels, w, h, x, y, Some(j as u32), before.rest)
    }
}

/// Reading a value is asking for rising thresholds: those up to the value are answered no,
/// the next one, if there is one, yes, and by then the same bits have been read and the
/// same is known.
pub proof fn law_value_by_thresholds(
    levels: Seq<Seq<(u32, bool)>>,
    w: nat,
    h: nat,
    x: nat,
    y: nat,
    bits: Seq<bool>,
    v: u32,
)
    requires
        tree_shape(levels, w, h),
        x < w,
        y < h,
        leaf_value(read_leaf(levels, w, h, x, y, None, bits).value) == Ok::<u32, Error>(v),
    ensures
        forall|j: nat|
            1 <= j <= v + 1 && j <= u32::MAX ==> below_threshold(
                (#[trigger] rising(levels, w, h, x, y, j, bits)).value,
                j as u32,
            ) == Ok::<bool, Error>(j == v + 1),
        v < u32::MAX ==> {
            let by_value = read_leaf(levels, w, h, x, y, None, bits);
            let by_thresholds = rising(levels, w, h, x, y, (v + 1) as nat, bits);
            &&& by_thresholds.rest == by_value.rest
            &&& by_thresholds.levels == by_value.levels
        },
{
    lemma_walk_goes_on(levels, w, h, x, y, 0, 0, 0, bits);
    assert forall|j: nat| 1 <= j <= v + 1 && j <= u32::MAX implies below_threshold(
        (#[trigger] rising(levels, w, h, x, y, j, bits)).value,
        j as u32,
    ) == Ok::<bool, Error>(j == v + 1) by {
        lemma_rising(levels, w, h, x, y, bits, v, (j - 1) as nat);
        let before = rising(levels, w, h, x, y, (j - 1) as nat, bits);
        lemma_walk_goes_on(before.levels, w, h, x, y, j as u32, 0, 0, before.rest);
    }
    if v < u32::MAX {
        lemma_rising(levels, w, h, x, y, bits, v, v as nat);
        let before = rising(levels, w, h, x, y, v as nat, bits);
        lemma_walk_goes_on(before.levels, w, h, x, y, (v + 1) as u32, 0, 0, before.rest);
    }
}

/// After any number of thresholds the value is still to be had.
proof fn lemma_rising(
    levels: Seq<Seq<(u32, bool)>>,
    w: nat,
    h: nat,
    x: nat,
    y: nat,
    bits: Seq<bool>,
    v: u32,
    j: nat,
)
    requires
        tree_shape(levels, w, h),
        x < w,
        y < h,
        read_leaf(levels, w, h, x, y, None, bits).value == Ok::<Option<u32>, Error>(Some(v)),
        j <= v,
    ensures
        ({
            let q = rising(levels, w, h, x, y, j, bits);
            &&& tree_shape(q.levels, w, h)
            &&& read_leaf(q.levels, w, h, x, y, None, q.rest) == read_leaf(
                levels,
                w,
                h,
                x,
                y,
                None,
                bits,
            )
        }),
    decreases j,
{
    if j > 0 {
        lemma_rising(levels, w, h, x, y, bits, v, (j - 1) as nat);
        let before = rising(levels, w, h, x, y, (j - 1) as nat, bits);
        lemma_walk_goes_on(before.levels, w, h, x, y, j as u32, 0, 0, before.rest);
    }
}

/// A query for the leaf `(x, y)`: whether it is below a limit or, without one, its value.
pub struct TreeQuery {
    pub x: nat,
    pub y: nat,
    pub limit: Option<u32>,
}

/// The bits for `queries`, asked one after the other, and what is then known of the tree.
pub open spec fn write_queries(
    levels: Seq<Seq<(u32, bool)>>,
    values: Seq<Seq<u32>>,
    w: nat,
    h: nat,
    queries: Seq<TreeQuery>,
) -> (Seq<bool>, Seq<Seq<(u32, bool)>>)
    decreases queries.len(),
{
    if queries.len() == 0 {
        (Seq::empty(), levels)
    } else {
        let q = queries[0];
        let (bits, next) = write_path(levels, values, w, h, q.x, q.y, q.limit, 0, 0);
        let (more, last) = write_queries(next, values, w, h, queries.skip(1));
        (bits + more, last)
    }
}

/// What `queries`, asked one after the other, read from `bits`.
pub open spec fn read_queries(
    levels: Seq<Seq<(u32, bool)>>,
    w: nat,
    h: nat,
    queries: Seq<TreeQuery>,
    bits: Seq<bool>,
) -> Seq<TreeRead>
    decreases queries.len(),
{
    if queries.len() == 0 {
        Seq::empty()
    } else {
        let q = queries[0];
        let read = read_leaf(levels, w, h, q.x, q.y, q.limit, bits);
        seq![read] + read_queries(read.levels, w, h, queries.skip(1), read.rest)
    }
}

/// The query's answer is that of the leaf.
pub open spec fn answered_truly(q: TreeQuery, read: TreeRead, leaf: u32) -> bool {
    match q.limit {
        Some(t) => below_threshold(read.value, t) == Ok::<bool, Error>(leaf < t),
        None => leaf_value(read.value) == Ok::<u32, Error>(leaf),
    }
}

/// Queries written from what is known of a tree are answered truly.
proof fn lemma_replay(
    levels: Seq<Seq<(u32, bool)>>,
    leaves: Seq<u32>,
    w: nat,
    h: nat,
    queries: Seq<TreeQuery>,
    rest: Seq<bool>,
)
    requires
        leaves.len() == w * h,
        forall|k: int|
            0 <= k < queries.len() ==> (#[trigger] queries[k]).x < w && queries[k].y < h,
        consistent(levels, min_tree(leaves, w, h)),
    ensures
        ({
            let (bits, _) = write_queries(levels, min_tree(leaves, w, h), w, h, queries);
            let reads = read_queries(levels, w, h, queries, bits + rest);
            &&& reads.len() == queries.len()
            &&& forall|k: int|
                0 <= k < queries.len() ==> answered_truly(
                    queries[k],
                    #[trigger] reads[k],
                    leaves[(queries[k].y * w + queries[k].x) as int],
                )
        }),
    decreases queries.len(),
{
    if queries.len() > 0 {
        let q = queries[0];
        let values = min_tree(leaves, w, h);
        let (one, next) = write_path(levels, values, w, h, q.x, q.y, q.limit, 0, 0);
        let later = queries.skip(1);
        let (more, _) = write_queries(next, values, w, h, later);
        assert(one + more + rest =~= one + (more + rest));
        match q.limit {
            Some(t) => {
                law_tag_tree_threshold(levels, leaves, w, h, q.x, q.y, t, more + rest);
            },
            None => {
                law_tag_tree_value(levels, leaves, w, h, q.x, q.y, more + rest);
            },
        }
        assert forall|k: int| 0 <= k < later.len() implies (#[trigger] later[k]).x < w
            && later[k].y < h by {
            assert(later[k] == queries[k + 1]);
        }
        lemma_replay(next, leaves, w, h, later, rest);
        let first = read_leaf(levels, w, h, q.x, q.y, q.limit, one + more + rest);
        let others = read_queries(next, w, h, later, more + rest);
        let reads = read_queries(levels, w, h, queries, one + more + rest);
        assert(reads == seq![first] + others);
        assert forall|k: int| 0 <= k < queries.len() implies answered_truly(
            queries[k],
            #[trigger] reads[k],
            leaves[(queries[k].y * w + queries[k].x) as int],
        ) by {
            if k > 0 {
                assert(reads[k] == others[k - 1]);
                assert(later[k - 1] == queries[k]);
            }
        }
    }
}

/// Any queries of a tree, written one after the other and packed into bytes, are answered
/// truly by a reader that starts knowing nothing, whatever follows the bytes.
pub proof fn law_tag_tree_replay(
    leaves: Seq<u32>,
    w: nat,
    h: nat,
    queries: Seq<TreeQuery>,
    bytes: Seq<u8>,
    tail: Seq<u8>,
)
    requires
        leaves.len() == w * h,
        forall|k: int|
            0 <= k < queries.len() ==> (#[trigger] queries[k]).x < w && queries[k].y < h,
        packs(write_queries(fresh_tree(w, h), min_tree(leaves, w, h), w, h, queries).0, bytes),
    ensures
        ({
            let reads = read_queries(fresh_tree(w, h), w, h, queries, payload(bytes + tail));
            &&& reads.len() == queries.len()
            &&& forall|k: int|
                0 <= k < queries.len() ==> answered_truly(
                    queries[k],
                    #[trigger] reads[k],
                    leaves[(queries[k].y * w + queries[k].x) as int],
                )
        }),
{
    let bits = write_queries(fresh_tree(w, h), min_tree(leaves, w, h), w, h, queries).0;
    let all = payload(bytes + tail);
    law_bits_round_trip(bits, bytes, tail);
    let rest = all.skip(bits.len() as int);
    assert(all =~= bits + rest);
    lemma_fresh_consistent(leaves, w, h);
    lemma_replay(fresh_tree(w, h), leaves, w, h, queries, rest);
}

/// How often `b` occurs among `bits`.
pub open spec fn count_bits(bits: Seq<bool>, b: bool) -> nat
    decreases bits.len(),
{
    if bits.len() == 0 {
        0
    } else {
        count_bits(bits.skip(1), b) + if bits[0] == b { 1nat } else { 0nat }
    }
}

/// Counting goes piece by piece.
proof fn lemma_count_concat(s: Seq<bool>, t: Seq<bool>, b: bool)
    ensures
        count_bits(s + t, b) == count_bits(s, b) + count_bits(t, b),
    decreases s.len(),
{
    if s.len() == 0 {
        assert(s + t =~= t);
    } else {
        assert((s + t).skip(1) =~= s.skip(1) + t);
        lemma_count_concat(s.skip(1), t, b);
    }
}

/// The value, as far as a query up to `limit` tells it.
pub open spec fn capped(v: u32, limit: Option<u32>) -> u32 {
    if below(v, limit) {
        v
    } else {
        limit->0
    }
}

/// The nodes from `level` down to the leaf `(x, y)` whose values a query up to `limit`
/// tells.
pub open spec fn nodes_below(
    values: Seq<Seq<u32>>,
    w: nat,
    h: nat,
    x: nat,
    y: nat,
    limit: Option<u32>,
    level: nat,
) -> nat
    decreases values.len() - level,
{
    if level >= values.len() {
        0
    } else {
        nodes_below(values, w, h, x, y, limit, level + 1) + if below(
            values[level as int][node_index(w, h, level, x, y)],
            limit,
        ) {
            1nat
        } else {
            0nat
        }
    }
}

/// Below a node that has reached the limit, so have all.
proof fn lemma_none_below(
    leaves: Seq<u32>,
    w: nat,
    h: nat,
    x: nat,
    y: nat,
    limit: Option<u32>,
    level: nat,
)
    requires
        leaves.len() == w * h,
        x < w,
        y < h,
        level < tree_depth(w, h),
        !below(min_tree(leaves, w, h)[level as int][node_index(w, h, level, x, y)], limit),
    ensures
        nodes_below(min_tree(leaves, w, h), w, h, x, y, limit, level) == 0,
    decreases tree_depth(w, h) - level,
{
    lemma_min_tree_shape(leaves, w, h);
    let values = min_tree(leaves, w, h);
    if level + 1 < tree_depth(w, h) {
        lemma_path_rises(leaves, w, h, x, y, level);
        lemma_none_below(leaves, w, h, x, y, limit, level + 1);
    } else {
        assert(nodes_below(values, w, h, x, y, limit, level + 1) == 0);
    }
}

/// Without a limit every node counts.
proof fn lemma_all_below(values: Seq<Seq<u32>>, w: nat, h: nat, x: nat, y: nat, level: nat)
    requires
        level <= values.len(),
    ensures
        nodes_below(values, w, h, x, y, None, level) == values.len() - level,
    decreases values.len() - level,
{
    if level < values.len() {
        lemma_all_below(values, w, h, x, y, level + 1);
    }
}

/// The bits of a node of which nothing but a lower bound is known: zeros, and a one if the
/// value is below the limit.
proof fn lemma_open_node(v: u32, actual: u32, limit: Option<u32>)
    requires
        v <= actual,
        v <= capped(actual, limit),
    ensures
        ({
            let (bits, n) = write_node(v, false, actual, limit);
            let zeros = capped(actual, limit) - v;
            &&& count_bits(bits, false) == zeros
            &&& count_bits(bits, true) == if below(actual, limit) { 1nat } else { 0nat }
            &&& n == (capped(actual, limit), below(actual, limit))
            &&& bits.len() == zeros + if below(actual, limit) { 1nat } else { 0nat }
            &&& forall|i: int| 0 <= i < zeros ==> !bits[i]
            &&& below(actual, limit) ==> bits[zeros]
        }),
    decreases actual - v,
{
    let (bits, n) = write_node(v, false, actual, limit);
    reveal_with_fuel(count_bits, 2);
    if below(v, limit) {
        if v < actual {
            lemma_open_node((v + 1) as u32, actual, limit);
            let (more, _) = write_node((v + 1) as u32, false, actual, limit);
            assert(bits == seq![false] + more);
            assert(bits.skip(1) =~= more);
        } else {
            assert(bits == seq![true]);
            assert(bits.skip(1) =~= Seq::empty());
        }
    }
}

/// The bits of a path of which nothing but a lower bound is known.
proof fn lemma_open_path(
    levels: Seq<Seq<(u32, bool)>>,
    leaves: Seq<u32>,
    w: nat,
    h: nat,
    x: nat,
    y: nat,
    limit: Option<u32>,
    level: nat,
    above: u32,
)
    requires
        leaves.len() == w * h,
        x < w,
        y < h,
        tree_shape(levels, w, h),
        level <= tree_depth(w, h),
        forall|l: int|
            level <= l < levels.len() ==> (#[trigger] levels[l])[node_index(w, h, l as nat, x, y)]
                == (0u32, false),
        level == 0 ==> above == 0,
        level > 0 ==> below(above, limit) && above == min_tree(leaves, w, h)[level - 1][node_index(
            w,
            h,
            (level - 1) as nat,
            x,
            y,
        )],
    ensures
        ({
            let values = min_tree(leaves, w, h);
            let bits = write_path(levels, values, w, h, x, y, limit, level, above).0;
            let leaf = leaves[(y * w + x) as int];
            &&& count_bits(bits, false) == capped(leaf, limit) - above
            &&& count_bits(bits, true) == nodes_below(values, w, h, x, y, limit, level)
        }),
    decreases levels.len() - level,
{
    let values = min_tree(leaves, w, h);
    lemma_min_tree_shape(leaves, w, h);
    if level == levels.len() {
        assert(node_index(w, h, (level - 1) as nat, x, y) == y * w + x);
    } else {
        let i = node_index(w, h, level, x, y);
        lemma_node_index(w, h, level, x, y);
        if level > 0 {
            lemma_path_rises(leaves, w, h, x, y, (level - 1) as nat);
        }
        lemma_path_to_leaf(leaves, w, h, x, y, level);
        let actual = values[level as int][i];
        assert(levels[level as int][i] == (0u32, false));
        lemma_open_node(above, actual, limit);
        let (bits, n) = write_node(above, false, actual, limit);
        let next = levels.update(level as int, levels[level as int].update(i, n));
        if n.1 {
            assert(tree_shape(next, w, h));
            lemma_open_path(next, leaves, w, h, x, y, limit, level + 1, n.0);
            let (more, _) = write_path(next, values, w, h, x, y, limit, level + 1, n.0);
            lemma_count_concat(bits, more, false);
            lemma_count_concat(bits, more, true);
        } else {
            lemma_none_below(leaves, w, h, x, y, limit, level);
        }
    }
}

/// A query of a fresh tree up to `limit` writes as many zeros as the leaf has, the limit at
/// most, and a one for every node on the way that is below the limit.
proof fn lemma_first_query(
    leaves: Seq<u32>,
    w: nat,
    h: nat,
    x: nat,
    y: nat,
    limit: Option<u32>,
)
    requires
        leaves.len() == w * h,
        x < w,
        y < h,
    ensures
        ({
            let values = min_tree(leaves, w, h);
            let bits = write_path(fresh_tree(w, h), values, w, h, x, y, limit, 0, 0).0;
            let leaf = leaves[(y * w + x) as int];
            &&& count_bits(bits, false) == capped(leaf, limit)
            &&& count_bits(bits, true) == nodes_below(values, w, h, x, y, limit, 0)
        }),
{
    let levels = fresh_tree(w, h);
    lemma_fresh_shape(w, h);
    lemma_fresh_nodes(w, h);
    assert forall|l: int| 0 <= l < levels.len() implies (#[trigger] levels[l])[node_index(
        w,
        h,
        l as nat,
        x,
        y,
    )] == (0u32, false) by {
        lemma_node_index(w, h, l as nat, x, y);
    }
    lemma_open_path(levels, leaves, w, h, x, y, limit, 0, 0);
}

/// The first threshold query of a tree writes as many zeros as the leaf has, the threshold
/// at most, and a one for every node on the way to the leaf that is below the threshold.
pub proof fn law_first_threshold(
    leaves: Seq<u32>,
    w: nat,
    h: nat,
    x: nat,
    y: nat,
    threshold: u32,
)
    requires
        leaves.len() == w * h,
        x < w,
        y < h,
    ensures
        ({
            let values = min_tree(leaves, w, h);
            let bits = write_path(
                fresh_tree(w, h),
                values,
                w,
                h,
                x,
                y,
                Some(threshold),
                0,
                0,
            ).0;
            &&& count_bits(bits, false) == min_u32(leaves[(y * w + x) as int], threshold)
            &&& count_bits(bits, true) == nodes_below(values, w, h, x, y, Some(threshold), 0)
        }),
{
    lemma_first_query(leaves, w, h, x, y, Some(threshold));
}

/// The top of a pyramid is one node.
proof fn lemma_top(w: nat, h: nat)
    requires
        1 <= w,
        1 <= h,
    ensures
        level_dim(w, (tree_depth(w, h) - 1) as nat) == 1,
        level_dim(h, (tree_depth(w, h) - 1) as nat) == 1,
        1 <= tree_depth(w, h),
    decreases w + h,
{
    if w > 1 || h > 1 {
        lemma_top(half_up(w), half_up(h));
    }
}

/// A node takes its value from a child.
proof fn lemma_coarser_from(finer: Seq<u32>, w: nat, h: nat, i: int)
    requires
        finer.len() == w * h,
        1 <= w,
        1 <= h,
        0 <= i < half_up(w) * half_up(h),
    ensures
        finer.contains(coarser(finer, w, h)[i]),
{
    let cw = half_up(w) as int;
    let x = i % cw;
    let y = i / cw;
    vstd::arithmetic::div_mod::lemma_fundamental_div_mod(i, cw);
    assert(0 <= x < cw && 0 <= y < half_up(h)) by (nonlinear_arith)
        requires
            x == i % cw,
            y == i / cw,
            0 < cw,
            0 <= i < cw * half_up(h),
    ;
    lemma_cell_bound(2 * x, 2 * y, w as int, h as int);
    if 2 * x + 1 < w {
        lemma_cell_bound(2 * x + 1, 2 * y, w as int, h as int);
    }
    if 2 * y + 1 < h {
        lemma_cell_bound(2 * x, 2 * y + 1, w as int, h as int);
        if 2 * x + 1 < w {
            lemma_cell_bound(2 * x + 1, 2 * y + 1, w as int, h as int);
        }
    }
    assert(coarser(finer, w, h)[i] == child_min(finer, w, h, x, y));
}

/// The top of a pyramid takes its value from a leaf.
proof fn lemma_top_from(leaves: Seq<u32>, w: nat, h: nat)
    requires
        leaves.len() == w * h,
        1 <= w,
        1 <= h,
    ensures
        min_tree(leaves, w, h)[0].len() == 1,
        leaves.contains(min_tree(leaves, w, h)[0][0]),
    decreases w + h,
{
    if w <= 1 && h <= 1 {
        assert(w * h == 1) by (nonlinear_arith)
            requires
                w == 1,
                h == 1,
        ;
        assert(leaves.contains(leaves[0]));
    } else {
        let upper = coarser(leaves, w, h);
        lemma_top_from(upper, half_up(w), half_up(h));
        lemma_min_tree_shape(upper, half_up(w), half_up(h));
        let top = min_tree(upper, half_up(w), half_up(h))[0][0];
        let i = choose|i: int| 0 <= i < upper.len() && upper[i] == top;
        lemma_coarser_from(leaves, w, h, i);
    }
}

/// The top of a pyramid is the least leaf.
proof fn lemma_top_least(leaves: Seq<u32>, w: nat, h: nat, x: nat, y: nat, least: u32)
    requires
        leaves.len() == w * h,
        x < w,
        y < h,
        leaves.contains(least),
        forall|i: int| 0 <= i < leaves.len() ==> least <= #[trigger] leaves[i],
    ensures
        min_tree(leaves, w, h)[0][node_index(w, h, 0, x, y)] == least,
{
    lemma_top(w, h);
    lemma_top_from(leaves, w, h);
    lemma_node_index(w, h, 0, x, y);
    let i = choose|i: int| 0 <= i < leaves.len() && leaves[i] == least;
    let lx = i % w as int;
    let ly = i / w as int;
    vstd::arithmetic::div_mod::lemma_fundamental_div_mod(i, w as int);
    assert(0 <= lx < w && 0 <= ly < h && ly * w + lx == i) by (nonlinear_arith)
        requires
            lx == i % w as int,
            ly == i / w as int,
            i == w as int * (i / w as int) + i % w as int,
            0 < w,
            0 <= i < w * h,
    ;
    lemma_node_index(w, h, 0, lx as nat, ly as nat);
    lemma_path_to_leaf(leaves, w, h, lx as nat, ly as nat, 0);
}

/// The first value that is written of a tree starts with as many zeros as the least leaf
/// has, and a one. In all it takes as many zeros as the leaf has, and a one for each level.
pub proof fn law_first_value(leaves: Seq<u32>, w: nat, h: nat, x: nat, y: nat, least: u32)
    requires
        leaves.len() == w * h,
        x < w,
        y < h,
        leaves.contains(least),
        forall|i: int| 0 <= i < leaves.len() ==> least <= #[trigger] leaves[i],
    ensures
        ({
            let values = min_tree(leaves, w, h);
            let bits = write_path(fresh_tree(w, h), values, w, h, x, y, None, 0, 0).0;
            &&& least < bits.len()
            &&& forall|i: int| 0 <= i < least ==> !bits[i]
            &&& bits[least as int]
            &&& count_bits(bits, false) == leaves[(y * w + x) as int]
            &&& count_bits(bits, true) == tree_depth(w, h)
        }),
{
    let values = min_tree(leaves, w, h);
    let levels = fresh_tree(w, h);
    lemma_first_query(leaves, w, h, x, y, None);
    lemma_min_tree_shape(leaves, w, h);
    lemma_all_below(values, w, h, x, y, 0);
    lemma_top(w, h);
    lemma_top_least(leaves, w, h, x, y, least);
    lemma_fresh_shape(w, h);
    lemma_fresh_nodes(w, h);
    let i = node_index(w, h, 0, x, y);
    lemma_node_index(w, h, 0, x, y);
    assert(levels[0][i] == (0u32, false));
    lemma_open_node(0, least, None);
    let (bits, n) = write_node(0, false, least, None);
    let next = levels.update(0, levels[0].update(i, n));
    let (more, _) = write_path(next, values, w, h, x, y, None, 1, n.0);
    assert(write_path(levels, values, w, h, x, y, None, 0, 0).0 == bits + more);
}

/// Writing a node never takes its value back, and settles what was asked of it.
proof fn lemma_node_written(v: u32, known: bool, actual: u32, limit: Option<u32>)
    ensures
        ({
            let (_, n) = write_node(v, known, actual, limit);
            v <= n.0 && (n.1 || !below(n.0, limit))
        }),
    decreases actual - v,
{
    if !known && below(v, limit) && v < actual {
        lemma_node_written((v + 1) as u32, false, actual, limit);
    }
}

/// What was written once is not written again.
proof fn lemma_write_again(
    levels: Seq<Seq<(u32, bool)>>,
    values: Seq<Seq<u32>>,
    w: nat,
    h: nat,
    x: nat,
    y: nat,
    limit: Option<u32>,
    level: nat,
    above: u32,
)
    requires
        tree_shape(levels, w, h),
        x < w,
        y < h,
    ensures
        ({
            let (_, last) = write_path(levels, values, w, h, x, y, limit, level, above);
            &&& last.len() == levels.len()
            &&& forall|l: int| 0 <= l < level && l < levels.len() ==> last[l] == levels[l]
            &&& write_path(last, values, w, h, x, y, limit, level, above) == (
                Seq::<bool>::empty(),
                last,
            )
        }),
    decreases levels.len() - level,
{
    if level < levels.len() {
        let i = node_index(w, h, level, x, y);
        lemma_node_index(w, h, level, x, y);
        let node = levels[level as int][i];
        let v = if node.0 < above { above } else { node.0 };
        let actual = values[level as int][i];
        lemma_node_written(v, node.1, actual, limit);
        let (_, n) = write_node(v, node.1, actual, limit);
        let next = levels.update(level as int, levels[level as int].update(i, n));
        assert(tree_shape(next, w, h));
        let (_, last) = write_path(levels, values, w, h, x, y, limit, level, above);
        if n.1 {
            lemma_write_again(next, values, w, h, x, y, limit, level + 1, n.0);
            assert(last == write_path(next, values, w, h, x, y, limit, level + 1, n.0).1);
        }
        assert(last[level as int] == next[level as int]);
        assert forall|l: int| 0 <= l < level implies last[l] == levels[l] by {
            assert(last[l] == next[l]);
        }
        assert(last[level as int].update(i, n) =~= last[level as int]);
        assert(last.update(level as int, last[level as int].update(i, n)) =~= last);
        assert(write_node(n.0, n.1, actual, limit) == (Seq::<bool>::empty(), n));
        assert(Seq::<bool>::empty() + Seq::<bool>::empty() =~= Seq::<bool>::empty());
    }
}

/// A query that was written is not written again: the same one a second time takes no bit
/// and changes nothing.
pub proof fn law_query_written_once(
    levels: Seq<Seq<(u32, bool)>>,
    values: Seq<Seq<u32>>,
    w: nat,
    h: nat,
    x: nat,
    y: nat,
    limit: Option<u32>,
)
    requires
        tree_shape(levels, w, h),
        x < w,
        y < h,
    ensures
        ({
            let (_, last) = write_path(levels, values, w, h, x, y, limit, 0, 0);
            write_path(last, values, w, h, x, y, limit, 0, 0) == (Seq::<bool>::empty(), last)
        }),
{
    lemma_write_again(levels, values, w, h, x, y, limit, 0, 0);
}

/// A coordinate that is halved `k` times is divided by `2^k`.
proof fn lemma_halved(x: nat, k: nat)
    ensures
        halved(x, k) == x / pow2(k),
    decreases k,
{
    lemma2_to64();
    if k > 0 {
        lemma_halved(x / 2, (k - 1) as nat);
        lemma_pow2_unfold(k);
        lemma_pow2_pos((k - 1) as nat);
        let p = pow2((k - 1) as nat) as int;
        vstd::arithmetic::div_mod::lemma_div_denominator(x as int, 2, p);
        assert(x as int / (2 * p) == x as int / 2 / p);
        assert(pow2(k) as int == 2 * p);
    } else {
        vstd::arithmetic::div_mod::lemma_div_basics(x as int);
    }
}

/// A side that is halved `k` times, rounding up, is as many blocks of `2^k`.
proof fn lemma_level_dim(x: nat, k: nat)
    requires
        x >= 1,
    ensures
        1 <= level_dim(x, k),
        (level_dim(x, k) - 1) * pow2(k) < x <= level_dim(x, k) * pow2(k),
    decreases k,
{
    lemma2_to64();
    if k > 0 {
        lemma_level_dim(half_up(x), (k - 1) as nat);
        lemma_pow2_unfold(k);
        let d = level_dim(x, k) as int;
        let p = pow2((k - 1) as nat) as int;
        assert((d - 1) * (2 * p) == 2 * ((d - 1) * p)) by (nonlinear_arith);
        assert(d * (2 * p) == 2 * (d * p)) by (nonlinear_arith);
    }
}

/// The pyramid over a grid: `k` levels above the leaves a node stands for a square of `2^k`
/// leaves a side, and the nodes of a level stand row by row. The highest level is the first
/// with a single node.
pub proof fn law_tree_levels(w: nat, h: nat, x: nat, y: nat, k: nat)
    requires
        x < w,
        y < h,
        k < tree_depth(w, h),
    ensures
        ({
            let across = level_dim(w, k);
            let down = level_dim(h, k);
            let side = pow2(k);
            &&& node_index(w, h, (tree_depth(w, h) - 1 - k) as nat, x, y) == (y / side) * across + x
                / side
            &&& (across - 1) * side < w <= across * side
            &&& (down - 1) * side < h <= down * side
            &&& across == 1 && down == 1 <==> k == tree_depth(w, h) - 1
        }),
{
    lemma_halved(x, k);
    lemma_halved(y, k);
    lemma_level_dim(w, k);
    lemma_level_dim(h, k);
    lemma_top(w, h);
    if k + 1 < tree_depth(w, h) {
        lemma_not_top(w, h, k);
    }
}

/// Below the top there is more than one node.
proof fn lemma_not_top(w: nat, h: nat, k: nat)
    requires
        1 <= w,
        1 <= h,
        k + 1 < tree_depth(w, h),
    ensures
        level_dim(w, k) > 1 || level_dim(h, k) > 1,
    decreases k,
{
    if k > 0 {
        lemma_not_top(half_up(w), half_up(h), (k - 1) as nat);
    }
}

/// A child from which a node takes its value.
proof fn lemma_child(finer: Seq<u32>, w: nat, h: nat, x: nat, y: nat) -> (c: (nat, nat))
    requires
        finer.len() == w * h,
        x < half_up(w),
        y < half_up(h),
    ensures
        c.0 < w,
        c.1 < h,
        c.0 / 2 == x,
        c.1 / 2 == y,
        finer[(c.1 * w + c.0) as int] == coarser(finer, w, h)[(y * half_up(w) + x) as int],
{
    let cw = half_up(w) as int;
    let i = y * cw + x;
    lemma_cell_bound(x as int, y as int, cw, half_up(h) as int);
    vstd::arithmetic::div_mod::lemma_fundamental_div_mod_converse(i, cw, y as int, x as int);
    let v = coarser(finer, w, h)[i];
    assert(v == child_min(finer, w, h, x as int, y as int));
    let row = (2 * y) as nat;
    let col = (2 * x) as nat;
    if v == finer[(row * w + col) as int] {
        (col, row)
    } else if col + 1 < w && v == finer[(row * w + col + 1) as int] {
        assert(row * w + (col + 1) == row * w + col + 1);
        ((col + 1) as nat, row)
    } else if row + 1 < h && v == finer[((row + 1) * w + col) as int] {
        (col, (row + 1) as nat)
    } else {
        assert((row + 1) * w + (col + 1) == (row + 1) * w + col + 1);
        ((col + 1) as nat, (row + 1) as nat)
    }
}

/// A leaf from which a node takes its value.
proof fn lemma_leaf_of(leaves: Seq<u32>, w: nat, h: nat, x: nat, y: nat, k: nat) -> (c: (nat, nat))
    requires
        leaves.len() == w * h,
        x < w,
        y < h,
        k < tree_depth(w, h),
    ensures
        c.0 < w,
        c.1 < h,
        halved(c.0, k) == halved(x, k),
        halved(c.1, k) == halved(y, k),
        leaves[(c.1 * w + c.0) as int] == min_tree(leaves, w, h)[tree_depth(w, h) - 1
            - k][node_index(w, h, (tree_depth(w, h) - 1 - k) as nat, x, y)],
    decreases k,
{
    lemma_min_tree_shape(leaves, w, h);
    if k == 0 {
        (x, y)
    } else {
        let upper = coarser(leaves, w, h);
        let d = tree_depth(w, h);
        lemma_min_tree_shape(upper, half_up(w), half_up(h));
        let up = lemma_leaf_of(upper, half_up(w), half_up(h), x / 2, y / 2, (k - 1) as nat);
        assert(min_tree(leaves, w, h)[d - 1 - k] == min_tree(
            upper,
            half_up(w),
            half_up(h),
        )[d - 1 - k]);
        let c = lemma_child(leaves, w, h, up.0, up.1);
        assert(halved(c.0, k) == halved(c.0 / 2, (k - 1) as nat));
        assert(halved(c.1, k) == halved(c.1 / 2, (k - 1) as nat));
        c
    }
}

/// A node is the least of the leaves for which it stands: no leaf of its square is less,
/// and one of them is the node.
pub proof fn law_node_least(leaves: Seq<u32>, w: nat, h: nat, x: nat, y: nat, k: nat) -> (c: (
    nat,
    nat,
))
    requires
        leaves.len() == w * h,
        x < w,
        y < h,
        k < tree_depth(w, h),
    ensures
        ({
            let level = (tree_depth(w, h) - 1 - k) as nat;
            let node = min_tree(leaves, w, h)[level as int][node_index(w, h, level, x, y)];
            &&& c.0 < w && c.1 < h
            &&& c.0 / pow2(k) == x / pow2(k) && c.1 / pow2(k) == y / pow2(k)
            &&& leaves[(c.1 * w + c.0) as int] == node
            &&& forall|u: nat, v: nat|
                u < w && v < h && u / pow2(k) == x / pow2(k) && v / pow2(k) == y / pow2(k)
                    ==> node <= #[trigger] leaves[(v * w + u) as int]
        }),
{
    let level = (tree_depth(w, h) - 1 - k) as nat;
    let node = min_tree(leaves, w, h)[level as int][node_index(w, h, level, x, y)];
    lemma_halved(x, k);
    lemma_halved(y, k);
    assert forall|u: nat, v: nat|
        u < w && v < h && u / pow2(k) == x / pow2(k) && v / pow2(k) == y / pow2(k) implies node
        <= #[trigger] leaves[(v * w + u) as int] by {
        lemma_halved(u, k);
        lemma_halved(v, k);
        lemma_path_to_leaf(leaves, w, h, u, v, level);
    }
    let c = lemma_leaf_of(leaves, w, h, x, y, k);
    lemma_halved(c.0, k);
    lemma_halved(c.1, k);
    c
}

/// A bit read at a node counts it up if it is 0 and commits it if it is 1; nothing is read
/// of a node that is committed or has reached the limit.
pub proof fn law_node_bits(v: u32, limit: Option<u32>, b: bool, rest: Seq<bool>)
    ensures
        ({
            let open = match limit {
                Some(t) => v < t,
                None => true,
            };
            let bits = seq![b] + rest;
            &&& open && b ==> read_node(v, false, limit, bits) == (
                Ok::<(u32, bool), Error>((v, true)),
                rest,
            )
            &&& open && !b && v < u32::MAX ==> read_node(v, false, limit, bits) == read_node(
                (v + 1) as u32,
                false,
                limit,
                rest,
            )
            &&& open ==> read_node(v, false, limit, Seq::empty()).0 == Err::<(u32, bool), Error>(
                Error::UnexpectedEof,
            )
            &&& !open ==> read_node(v, false, limit, bits) == (
                Ok::<(u32, bool), Error>((v, false)),
                bits,
            )
            &&& read_node(v, true, limit, bits) == (Ok::<(u32, bool), Error>((v, true)), bits)
        }),
{
    assert((seq![b] + rest).skip(1) =~= rest);
}

/// A leaf outside the grid is an error, and nothing is read for it. A value that is found
/// is handed over, and compared with a threshold.
pub proof fn law_answers(
    levels: Seq<Seq<(u32, bool)>>,
    w: nat,
    h: nat,
    x: nat,
    y: nat,
    limit: Option<u32>,
    bits: Seq<bool>,
    v: u32,
    t: u32,
)
    ensures
        x >= w || y >= h ==> read_leaf(levels, w, h, x, y, limit, bits) == (TreeRead {
            levels,
            value: Err(Error::InvalidPacketHeader),
            rest: bits,
        }),
        below_threshold(Ok(Some(v)), t) == Ok::<bool, Error>(v < t),
        below_threshold(Ok(None), t) == Ok::<bool, Error>(false),
        leaf_value(Ok(Some(v))) == Ok::<u32, Error>(v),
{
}

} // verus!
