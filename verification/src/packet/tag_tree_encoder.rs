//! The writing side of tag trees (T.800 §B.10.2), and that the reading side of
//! [`crate::packet::tag_tree`] undoes it.
use vstd::prelude::*;

use crate::packet::bits::PacketBitWriter;
use crate::packet::tag_tree::{
    below, below_threshold, child_min, coarser, consistent, fresh_levels, fresh_tree, half_up,
    halved, leaf_value, lemma_cell_bound, lemma_fresh_shape, lemma_node_index, level_dim,
    level_views, min_tree, node_index, node_position, read_leaf, read_node, read_path, tree_depth,
    tree_shape, write_node, write_path,
};
use crate::Error;

verus! {

/// The pyramid of minima has the shape of a tree; its last level holds the leaves.
pub proof fn lemma_min_tree_shape(leaves: Seq<u32>, w: nat, h: nat)
    requires
        leaves.len() == w * h,
    ensures
        tree_shape(min_tree(leaves, w, h), w, h),
        min_tree(leaves, w, h).len() >= 1,
        min_tree(leaves, w, h).last() == leaves,
    decreases w + h,
{
    let t = min_tree(leaves, w, h);
    if w <= 1 && h <= 1 {
    } else {
        let upper = coarser(leaves, w, h);
        let sub = min_tree(upper, half_up(w), half_up(h));
        lemma_min_tree_shape(upper, half_up(w), half_up(h));
        assert forall|i: int| 0 <= i < t.len() implies (#[trigger] t[i]).len() == level_dim(
            w,
            (t.len() - 1 - i) as nat,
        ) * level_dim(h, (t.len() - 1 - i) as nat) by {
            if i < sub.len() {
                assert(t[i] == sub[i]);
            }
        }
    }
}

/// A node is no larger than any of its children.
proof fn lemma_child_min(finer: Seq<u32>, w: nat, h: nat, x: nat, y: nat)
    requires
        finer.len() == w * h,
        x < w,
        y < h,
    ensures
        coarser(finer, w, h)[((y / 2) * half_up(w) + x / 2) as int] <= finer[(y * w + x) as int],
{
    let cw = half_up(w) as int;
    let cx = (x / 2) as int;
    let cy = (y / 2) as int;
    lemma_cell_bound(cx, cy, cw, half_up(h) as int);
    let i = cy * cw + cx;
    vstd::arithmetic::div_mod::lemma_fundamental_div_mod_converse(i, cw, cy, cx);
    assert(coarser(finer, w, h)[i] == child_min(finer, w, h, cx, cy));
    assert(y == 2 * cy || y == 2 * cy + 1);
    assert(x == 2 * cx || x == 2 * cx + 1);
}

/// Values do not fall on the way from the root to a leaf.
pub proof fn lemma_path_rises(leaves: Seq<u32>, w: nat, h: nat, x: nat, y: nat, l: nat)
    requires
        leaves.len() == w * h,
        x < w,
        y < h,
        l + 1 < tree_depth(w, h),
    ensures
        min_tree(leaves, w, h)[l as int][node_index(w, h, l, x, y)] <= min_tree(
            leaves,
            w,
            h,
        )[(l + 1) as int][node_index(w, h, l + 1, x, y)],
    decreases w + h,
{
    let upper = coarser(leaves, w, h);
    let t = min_tree(leaves, w, h);
    let sub = min_tree(upper, half_up(w), half_up(h));
    let d = tree_depth(w, h);
    lemma_min_tree_shape(upper, half_up(w), half_up(h));
    assert(t == sub.push(leaves));
    assert(node_index(w, h, l, x, y) == node_index(half_up(w), half_up(h), l, x / 2, y / 2));
    if l + 2 == d {
        lemma_child_min(leaves, w, h, x, y);
        assert(t[l as int] == upper);
        reveal_with_fuel(halved, 2);
        reveal_with_fuel(level_dim, 2);
        assert(node_index(w, h, l + 1, x, y) == y * w + x);
        assert(node_index(w, h, l, x, y) == (y / 2) * half_up(w) + x / 2);
    } else {
        lemma_path_rises(upper, half_up(w), half_up(h), x / 2, y / 2, l);
        assert(node_index(w, h, l + 1, x, y) == node_index(
            half_up(w),
            half_up(h),
            l + 1,
            x / 2,
            y / 2,
        ));
    }
}

/// The bits of one node are read back, and tell what they should.
proof fn lemma_node_round_trip(
    v: u32,
    known: bool,
    actual: u32,
    limit: Option<u32>,
    rest: Seq<bool>,
)
    requires
        v <= actual,
        known ==> v == actual,
    ensures
        ({
            let (bits, n) = write_node(v, known, actual, limit);
            &&& read_node(v, known, limit, bits + rest) == (Ok::<(u32, bool), Error>(n), rest)
            &&& n.0 <= actual
            &&& n.1 ==> n.0 == actual
            &&& !n.1 ==> !below(n.0, limit)
        }),
    decreases actual - v,
{
    let (bits, n) = write_node(v, known, actual, limit);
    if known || !below(v, limit) {
        assert(bits + rest =~= rest);
    } else if v < actual {
        lemma_node_round_trip((v + 1) as u32, false, actual, limit, rest);
        let (more, _) = write_node((v + 1) as u32, false, actual, limit);
        assert((bits + rest).skip(1) =~= more + rest);
    } else {
        assert((bits + rest).skip(1) =~= rest);
    }
}

/// The bits of a path are read back, and tell what they should of the leaf.
proof fn lemma_path_round_trip(
    levels: Seq<Seq<(u32, bool)>>,
    leaves: Seq<u32>,
    w: nat,
    h: nat,
    x: nat,
    y: nat,
    limit: Option<u32>,
    level: nat,
    above: u32,
    rest: Seq<bool>,
)
    requires
        leaves.len() == w * h,
        x < w,
        y < h,
        consistent(levels, min_tree(leaves, w, h)),
        level <= tree_depth(w, h),
        level == 0 ==> above == 0,
        level > 0 ==> above == min_tree(leaves, w, h)[level - 1][node_index(
            w,
            h,
            (level - 1) as nat,
            x,
            y,
        )],
    ensures
        ({
            let values = min_tree(leaves, w, h);
            let leaf = leaves[(y * w + x) as int];
            let (bits, last) = write_path(levels, values, w, h, x, y, limit, level, above);
            let read = read_path(levels, w, h, x, y, limit, level, above, bits + rest);
            &&& read.levels == last
            &&& read.rest == rest
            &&& match read.value {
                Ok(Some(v)) => v == leaf,
                Ok(None) => limit matches Some(t) && t <= leaf,
                Err(_) => false,
            }
            &&& consistent(last, values)
        }),
    decreases levels.len() - level,
{
    let values = min_tree(leaves, w, h);
    let d = tree_depth(w, h);
    lemma_min_tree_shape(leaves, w, h);
    if level == d {
        assert(node_index(w, h, (d - 1) as nat, x, y) == y * w + x);
        assert(Seq::<bool>::empty() + rest =~= rest);
    } else {
        let i = node_index(w, h, level, x, y);
        lemma_node_index(w, h, level, x, y);
        if level > 0 {
            lemma_path_rises(leaves, w, h, x, y, (level - 1) as nat);
        }
        let node = levels[level as int][i];
        let actual = values[level as int][i];
        let v = if node.0 < above { above } else { node.0 };
        let (bits, n) = write_node(v, node.1, actual, limit);
        let next = levels.update(level as int, levels[level as int].update(i, n));
        if n.1 {
            let (more, _) = write_path(next, values, w, h, x, y, limit, level + 1, n.0);
            lemma_node_round_trip(v, node.1, actual, limit, more + rest);
            assert(bits + more + rest =~= bits + (more + rest));
            assert(consistent(next, values));
            lemma_path_round_trip(next, leaves, w, h, x, y, limit, level + 1, n.0, rest);
        } else {
            lemma_node_round_trip(v, node.1, actual, limit, rest);
            lemma_path_to_leaf(leaves, w, h, x, y, level);
        }
    }
}

/// A node bounds the leaf below it.
pub proof fn lemma_path_to_leaf(leaves: Seq<u32>, w: nat, h: nat, x: nat, y: nat, level: nat)
    requires
        leaves.len() == w * h,
        x < w,
        y < h,
        level < tree_depth(w, h),
    ensures
        min_tree(leaves, w, h)[level as int][node_index(w, h, level, x, y)] <= leaves[(y * w
            + x) as int],
    decreases tree_depth(w, h) - level,
{
    lemma_min_tree_shape(leaves, w, h);
    if level + 1 == tree_depth(w, h) {
        assert(node_index(w, h, level, x, y) == y * w + x);
    } else {
        lemma_path_rises(leaves, w, h, x, y, level);
        lemma_path_to_leaf(leaves, w, h, x, y, level + 1);
    }
}

/// A threshold query is answered truly: from the bits that were written for it the
/// reader, knowing what the writer knows, learns whether the leaf is below the
/// threshold, reads no bit more, and again knows what the writer knows.
pub proof fn law_tag_tree_threshold(
    levels: Seq<Seq<(u32, bool)>>,
    leaves: Seq<u32>,
    w: nat,
    h: nat,
    x: nat,
    y: nat,
    threshold: u32,
    rest: Seq<bool>,
)
    requires
        leaves.len() == w * h,
        x < w,
        y < h,
        consistent(levels, min_tree(leaves, w, h)),
    ensures
        ({
            let values = min_tree(leaves, w, h);
            let (bits, last) = write_path(levels, values, w, h, x, y, Some(threshold), 0, 0);
            let read = read_leaf(levels, w, h, x, y, Some(threshold), bits + rest);
            &&& below_threshold(read.value, threshold) == Ok::<bool, Error>(
                leaves[(y * w + x) as int] < threshold,
            )
            &&& read.levels == last
            &&& read.rest == rest
            &&& consistent(last, values)
        }),
{
    lemma_path_round_trip(levels, leaves, w, h, x, y, Some(threshold), 0, 0, rest);
}

/// A value query is answered truly: from the bits that were written for it the
/// reader, knowing what the writer knows, learns the leaf, reads no bit more, and
/// again knows what the writer knows.
pub proof fn law_tag_tree_value(
    levels: Seq<Seq<(u32, bool)>>,
    leaves: Seq<u32>,
    w: nat,
    h: nat,
    x: nat,
    y: nat,
    rest: Seq<bool>,
)
    requires
        leaves.len() == w * h,
        x < w,
        y < h,
        consistent(levels, min_tree(leaves, w, h)),
    ensures
        ({
            let values = min_tree(leaves, w, h);
            let (bits, last) = write_path(levels, values, w, h, x, y, None, 0, 0);
            let read = read_leaf(levels, w, h, x, y, None, bits + rest);
            &&& leaf_value(read.value) == Ok::<u32, Error>(leaves[(y * w + x) as int])
            &&& read.levels == last
            &&& read.rest == rest
            &&& consistent(last, values)
        }),
{
    lemma_path_round_trip(levels, leaves, w, h, x, y, None, 0, 0, rest);
}

/// What a fresh reader knows fits every tree.
pub proof fn lemma_fresh_consistent(leaves: Seq<u32>, w: nat, h: nat)
    requires
        leaves.len() == w * h,
    ensures
        consistent(fresh_tree(w, h), min_tree(leaves, w, h)),
{
    lemma_fresh_shape(w, h);
    lemma_min_tree_shape(leaves, w, h);
    lemma_fresh_nodes(w, h);
}

/// Every node of a fresh tree is at 0.
pub proof fn lemma_fresh_nodes(w: nat, h: nat)
    ensures
        forall|l: int, i: int|
            0 <= l < fresh_tree(w, h).len() && 0 <= i < fresh_tree(w, h)[l].len()
                ==> #[trigger] fresh_tree(w, h)[l][i] == (0u32, false),
    decreases w + h,
{
    if w <= 1 && h <= 1 {
    } else {
        lemma_fresh_nodes(half_up(w), half_up(h));
        let t = fresh_tree(w, h);
        let sub = fresh_tree(half_up(w), half_up(h));
        assert forall|l: int, i: int| 0 <= l < t.len() && 0 <= i < t[l].len() implies #[trigger] t[l][i]
            == (0u32, false) by {
            if l < sub.len() {
                assert(t[l] == sub[l]);
                assert(sub[l][i] == (0u32, false));
            }
        }
    }
}

/// Writing a path keeps what is known consistent.
proof fn lemma_write_path_consistent(
    levels: Seq<Seq<(u32, bool)>>,
    leaves: Seq<u32>,
    w: nat,
    h: nat,
    x: nat,
    y: nat,
    limit: Option<u32>,
)
    requires
        leaves.len() == w * h,
        x < w,
        y < h,
        consistent(levels, min_tree(leaves, w, h)),
    ensures
        consistent(
            write_path(levels, min_tree(leaves, w, h), w, h, x, y, limit, 0, 0).1,
            min_tree(leaves, w, h),
        ),
{
    lemma_path_round_trip(levels, leaves, w, h, x, y, limit, 0, 0, Seq::empty());
}

/// The smaller of two numbers.
fn smaller(a: u32, b: u32) -> (m: u32)
    ensures
        m == crate::packet::tag_tree::min_u32(a, b),
{
    if a <= b {
        a
    } else {
        b
    }
}

/// The level above a `w` by `h` level.
fn coarser_level(finer: &Vec<u32>, w: u32, h: u32) -> (level: Vec<u32>)
    requires
        1 <= w,
        1 <= h,
        finer@.len() == w * h,
    ensures
        level@ == coarser(finer@, w as nat, h as nat),
{
    let cw: usize = (w / 2 + w % 2) as usize;
    let ch: usize = (h / 2 + h % 2) as usize;
    let fw: usize = w as usize;
    let fh: usize = h as usize;
    let total: usize = finer.len();
    let mut level: Vec<u32> = Vec::new();
    let ghost want = coarser(finer@, w as nat, h as nat);
    let mut y: usize = 0;
    while y < ch
        invariant
            fw == w,
            fh == h,
            cw == half_up(w as nat),
            ch == half_up(h as nat),
            y <= ch,
            1 <= w,
            1 <= h,
            finer@.len() == w * h,
            total == w * h,
            want == coarser(finer@, w as nat, h as nat),
            level@ == want.take(y * cw),
            0 <= y * cw <= want.len(),
        decreases ch - y,
    {
        proof {
            assert(want.len() == cw * ch);
            lemma_cell_bound(0, y as int, cw as int, ch as int);
            assert(y * cw + 0 == y * cw);
        }
        let mut x: usize = 0;
        while x < cw
            invariant
                fw == w,
                fh == h,
                cw == half_up(w as nat),
                ch == half_up(h as nat),
                y < ch,
                x <= cw,
                1 <= w,
                1 <= h,
                finer@.len() == w * h,
                total == w * h,
                want == coarser(finer@, w as nat, h as nat),
                want.len() == cw * ch,
                0 <= y * cw,
                y * cw + cw <= want.len(),
                level@ == want.take(y * cw + x),
            decreases cw - x,
        {
            proof {
                lemma_cell_bound(2 * x as int, 2 * y as int, fw as int, fh as int);
                if 2 * x + 1 < fw {
                    lemma_cell_bound(2 * x + 1, 2 * y as int, fw as int, fh as int);
                }
                if 2 * y + 1 < fh {
                    lemma_cell_bound(2 * x as int, 2 * y + 1, fw as int, fh as int);
                    if 2 * x + 1 < fw {
                        lemma_cell_bound(2 * x + 1, 2 * y + 1, fw as int, fh as int);
                    }
                }
            }
            let at: usize = 2 * y * fw + 2 * x;
            let mut m: u32 = finer[at];
            if 2 * x + 1 < fw {
                m = smaller(m, finer[at + 1]);
            }
            if 2 * y + 1 < fh {
                let next: usize = (2 * y + 1) * fw + 2 * x;
                m = smaller(m, finer[next]);
                if 2 * x + 1 < fw {
                    m = smaller(m, finer[next + 1]);
                }
            }
            proof {
                let i = y * cw + x;
                vstd::arithmetic::div_mod::lemma_fundamental_div_mod_converse(
                    i,
                    cw as int,
                    y as int,
                    x as int,
                );
                assert(want[i] == child_min(finer@, w as nat, h as nat, x as int, y as int));
                assert(want.take(i + 1) =~= want.take(i).push(want[i]));
            }
            level.push(m);
            x = x + 1;
        }
        proof {
            assert((y + 1) * cw == y * cw + cw) by (nonlinear_arith);
        }
        y = y + 1;
    }
    proof {
        assert(y * cw == cw * ch) by (nonlinear_arith)
            requires
                y == ch,
        ;
        assert(want.take(want.len() as int) =~= want);
    }
    level
}

/// The pyramid of minima over the leaves, root first.
fn min_levels(leaves: Vec<u32>, w: u32, h: u32) -> (levels: Vec<Vec<u32>>)
    requires
        1 <= w,
        1 <= h,
        leaves@.len() == w * h,
    ensures
        level_views(levels@) == min_tree(leaves@, w as nat, h as nat),
    decreases w + h,
{
    let ghost all = leaves@;
    let mut levels: Vec<Vec<u32>> = Vec::new();
    if w > 1 || h > 1 {
        let upper: Vec<u32> = coarser_level(&leaves, w, h);
        levels = min_levels(upper, w / 2 + w % 2, h / 2 + h % 2);
    }
    let ghost before = levels@;
    levels.push(leaves);
    proof {
        assert(level_views(levels@) =~= level_views(before).push(all));
        if w <= 1 && h <= 1 {
            assert(level_views(levels@) =~= min_tree(all, w as nat, h as nat));
        }
    }
    levels
}

/// A tag tree on the writing side.
#[derive(Debug, Clone)]
pub struct TagTreeEncoder {
    width: u32,
    height: u32,
    values: Vec<Vec<u32>>,
    state: Vec<Vec<(u32, bool)>>,
}

impl TagTreeEncoder {
    /// Width of the leaf grid.
    pub closed spec fn width(&self) -> nat {
        self.width as nat
    }

    /// Height of the leaf grid.
    pub closed spec fn height(&self) -> nat {
        self.height as nat
    }

    /// The values of all nodes, root level first.
    pub closed spec fn values(&self) -> Seq<Seq<u32>> {
        level_views(self.values@)
    }

    /// The values of the leaves, row by row.
    pub open spec fn leaves(&self) -> Seq<u32> {
        if self.width() == 0 || self.height() == 0 {
            Seq::empty()
        } else {
            self.values().last()
        }
    }

    /// What a reader of the bits written so far knows.
    pub closed spec fn state(&self) -> Seq<Seq<(u32, bool)>> {
        level_views(self.state@)
    }

    /// The values are the minima over the leaves, and what was written agrees with
    /// them.
    pub closed spec fn wf(&self) -> bool {
        &&& self.leaves().len() == self.width * self.height
        &&& self.width > 0 && self.height > 0 ==> {
            &&& self.values() == min_tree(self.leaves(), self.width as nat, self.height as nat)
            &&& consistent(self.state(), self.values())
        }
    }

    /// A writer for the leaves of a `width` by `height` grid, row by row.
    pub fn new(width: u32, height: u32, leaves: &[u32]) -> (t: Self)
        requires
            leaves@.len() == width * height,
        ensures
            t.wf(),
            t.width() == width,
            t.height() == height,
            t.leaves() == leaves@,
            t.state() == if width == 0 || height == 0 {
                Seq::empty()
            } else {
                fresh_tree(width as nat, height as nat)
            },
    {
        if width == 0 || height == 0 {
            let t = TagTreeEncoder { width, height, values: Vec::new(), state: Vec::new() };
            proof {
                assert(leaves@.len() == 0) by (nonlinear_arith)
                    requires
                        leaves@.len() == width * height,
                        width == 0 || height == 0,
                ;
                assert(t.leaves() =~= leaves@);
                assert(t.state() =~= Seq::empty());
            }
            return t;
        }
        let mut copy: Vec<u32> = Vec::with_capacity(leaves.len());
        for i in 0..leaves.len()
            invariant
                copy@ == leaves@.take(i as int),
        {
            copy.push(leaves[i]);
            assert(leaves@.take(i + 1) =~= leaves@.take(i as int).push(leaves@[i as int]));
        }
        assert(copy@ =~= leaves@);
        proof {
            lemma_min_tree_shape(leaves@, width as nat, height as nat);
            lemma_fresh_consistent(leaves@, width as nat, height as nat);
        }
        let values: Vec<Vec<u32>> = min_levels(copy, width, height);
        TagTreeEncoder { width, height, values, state: fresh_levels(width, height) }
    }

    /// Writes what a reader needs to query the leaf `(x, y)` up to `limit`.
    fn write(&mut self, x: u32, y: u32, limit: Option<u32>, writer: &mut PacketBitWriter)
        requires
            old(self).wf(),
            x < old(self).width(),
            y < old(self).height(),
            old(writer).wf(),
        ensures
            final(self).wf(),
            final(self).width() == old(self).width(),
            final(self).height() == old(self).height(),
            final(self).leaves() == old(self).leaves(),
            final(writer).wf(),
            ({
                let (bits, last) = write_path(
                    old(self).state(),
                    min_tree(old(self).leaves(), old(self).width(), old(self).height()),
                    old(self).width(),
                    old(self).height(),
                    x as nat,
                    y as nat,
                    limit,
                    0,
                    0,
                );
                &&& final(writer)@ == old(writer)@ + bits
                &&& final(self).state() == last
            }),
    {
        let w: u32 = self.width;
        let h: u32 = self.height;
        let depth: usize = self.values.len();
        let ghost leaves = self.leaves();
        let ghost values = self.values();
        let ghost (bits, last) = write_path(
            self.state(),
            values,
            w as nat,
            h as nat,
            x as nat,
            y as nat,
            limit,
            0,
            0,
        );
        let ghost mut done = Seq::<bool>::empty();
        proof {
            lemma_min_tree_shape(leaves, w as nat, h as nat);
            lemma_write_path_consistent(
                self.state(),
                leaves,
                w as nat,
                h as nat,
                x as nat,
                y as nat,
                limit,
            );
            assert(writer@ + done =~= writer@);
            assert(done + bits =~= bits);
        }
        let mut above: u32 = 0;
        let mut level: usize = 0;
        let mut open: bool = true;
        while open && level < depth
            invariant
                self.width == w,
                self.height == h,
                self.values() == values,
                values == min_tree(leaves, w as nat, h as nat),
                tree_shape(values, w as nat, h as nat),
                old(self).width() == w,
                old(self).height() == h,
                old(self).leaves() == leaves,
                x < w,
                y < h,
                depth == self.values@.len(),
                level <= depth,
                self.state@.len() == depth,
                forall|l: int|
                    0 <= l < depth ==> (#[trigger] self.state()[l]).len() == values[l].len(),
                writer.wf(),
                writer@ == old(writer)@ + done,
                open ==> ({
                    let (more, end) = write_path(
                        self.state(),
                        values,
                        w as nat,
                        h as nat,
                        x as nat,
                        y as nat,
                        limit,
                        level as nat,
                        above,
                    );
                    &&& bits == done + more
                    &&& last == end
                }),
                !open ==> bits == done && self.state() == last,
            decreases depth - level,
        {
            proof {
                assert(self.values()[level as int] == self.values@[level as int]@);
                assert(self.state()[level as int] == self.state@[level as int]@);
            }
            let i: usize = node_position(w, h, depth, level, x, y, self.values[level].len());
            let node: (u32, bool) = self.state[level][i];
            let actual: u32 = self.values[level][i];
            let bound: u32 = if node.0 < above { above } else { node.0 };
            let ghost before = self.state();
            let ghost (piece, n) = write_node(bound, node.1, actual, limit);
            let (v, known): (u32, bool) = write_node_value(bound, node.1, actual, limit, writer);
            self.state[level][i] = (v, known);
            proof {
                let next = before.update(
                    level as int,
                    before[level as int].update(i as int, (v, known)),
                );
                assert(self.state() =~= next);
                assert(self.values() =~= values);
                let (more, end) = write_path(
                    before,
                    values,
                    w as nat,
                    h as nat,
                    x as nat,
                    y as nat,
                    limit,
                    level as nat,
                    above,
                );
                if known {
                    let (tail, _) = write_path(
                        next,
                        values,
                        w as nat,
                        h as nat,
                        x as nat,
                        y as nat,
                        limit,
                        (level + 1) as nat,
                        v,
                    );
                    assert(done + (piece + tail) =~= (done + piece) + tail);
                }
                assert(old(writer)@ + done + piece =~= old(writer)@ + (done + piece));
                done = done + piece;
            }
            open = known;
            above = v;
            level = level + 1;
        }
        proof {
            if open {
                assert(bits =~= done);
            }
            assert(self.leaves() == leaves);
        }
    }

    /// Writes what a reader needs to tell whether the leaf `(x, y)` is below
    /// `threshold`.
    pub fn encode_below_threshold(
        &mut self,
        x: u32,
        y: u32,
        threshold: u32,
        writer: &mut PacketBitWriter,
    )
        requires
            old(self).wf(),
            x < old(self).width(),
            y < old(self).height(),
            old(writer).wf(),
        ensures
            final(self).wf(),
            final(self).width() == old(self).width(),
            final(self).height() == old(self).height(),
            final(self).leaves() == old(self).leaves(),
            final(writer).wf(),
            ({
                let (bits, last) = write_path(
                    old(self).state(),
                    min_tree(old(self).leaves(), old(self).width(), old(self).height()),
                    old(self).width(),
                    old(self).height(),
                    x as nat,
                    y as nat,
                    Some(threshold),
                    0,
                    0,
                );
                &&& final(writer)@ == old(writer)@ + bits
                &&& final(self).state() == last
            }),
    {
        self.write(x, y, Some(threshold), writer);
    }

    /// Writes what a reader needs to learn the leaf `(x, y)`.
    pub fn encode_value(&mut self, x: u32, y: u32, writer: &mut PacketBitWriter)
        requires
            old(self).wf(),
            x < old(self).width(),
            y < old(self).height(),
            old(writer).wf(),
        ensures
            final(self).wf(),
            final(self).width() == old(self).width(),
            final(self).height() == old(self).height(),
            final(self).leaves() == old(self).leaves(),
            final(writer).wf(),
            ({
                let (bits, last) = write_path(
                    old(self).state(),
                    min_tree(old(self).leaves(), old(self).width(), old(self).height()),
                    old(self).width(),
                    old(self).height(),
                    x as nat,
                    y as nat,
                    None,
                    0,
                    0,
                );
                &&& final(writer)@ == old(writer)@ + bits
                &&& final(self).state() == last
            }),
    {
        self.write(x, y, None, writer);
    }
}

/// Writes the bits of one node and says what is then known of it.
fn write_node_value(
    bound: u32,
    committed: bool,
    actual: u32,
    limit: Option<u32>,
    writer: &mut PacketBitWriter,
) -> (n: (u32, bool))
    requires
        old(writer).wf(),
    ensures
        final(writer).wf(),
        final(writer)@ == old(writer)@ + write_node(bound, committed, actual, limit).0,
        n == write_node(bound, committed, actual, limit).1,
{
    let mut v: u32 = bound;
    let mut known: bool = committed;
    let ghost (bits, last) = write_node(bound, committed, actual, limit);
    let ghost mut done = Seq::<bool>::empty();
    assert(old(writer)@ + done =~= old(writer)@);
    assert(done + bits =~= bits);
    loop
        invariant
            writer.wf(),
            writer@ == old(writer)@ + done,
            bits == done + write_node(v, known, actual, limit).0,
            last == write_node(v, known, actual, limit).1,
            bits == write_node(bound, committed, actual, limit).0,
            last == write_node(bound, committed, actual, limit).1,
        decreases
                if known {
                    0
                } else {
                    1 + if v < actual {
                        (actual - v) as int
                    } else {
                        0
                    }
                },
    {
        let open: bool = match limit {
            Some(t) => v < t,
            None => true,
        };
        if known || !open {
            assert(bits =~= done);
            return (v, known);
        }
        let ghost tail = write_node(v, known, actual, limit).0;
        if v < actual {
            writer.write_bit(0);
            proof {
                assert(old(writer)@ + done.push(false) =~= (old(writer)@ + done).push(false));
                assert(done + tail =~= done.push(false) + write_node(
                    (v + 1) as u32,
                    false,
                    actual,
                    limit,
                ).0);
                done = done.push(false);
            }
            v = v + 1;
        } else {
            writer.write_bit(1);
            proof {
                assert(old(writer)@ + done.push(true) =~= (old(writer)@ + done).push(true));
                assert(done + tail =~= done.push(true) + Seq::<bool>::empty());
                done = done.push(true);
            }
            known = true;
        }
    }
}

} // verus!
