//! Tag trees (T.800 §B.10.2).
//!
//! A tag tree holds a grid of numbers as a pyramid: every node above the leaves is
//! the minimum of its up to four children. A query walks from the root to a leaf;
//! at each node zeros count its value up from what is known of it and a one commits
//! it. What a query has revealed is remembered and never coded again.
use vstd::prelude::*;

use crate::packet::bits::PacketBitReader;
use crate::Error;

verus! {

/// Half, rounded up.
pub open spec fn half_up(x: nat) -> nat {
    (x + 1) / 2
}

/// The size of a side after it was halved, rounding up, `k` times.
pub open spec fn level_dim(x: nat, k: nat) -> nat
    decreases k,
{
    if k == 0 {
        x
    } else {
        level_dim(half_up(x), (k - 1) as nat)
    }
}

/// A coordinate, halved `k` times.
pub open spec fn halved(x: nat, k: nat) -> nat
    decreases k,
{
    if k == 0 {
        x
    } else {
        halved(x / 2, (k - 1) as nat)
    }
}

/// How many levels the pyramid over a `w` by `h` grid has.
pub open spec fn tree_depth(w: nat, h: nat) -> nat
    decreases w + h,
{
    if w <= 1 && h <= 1 {
        1
    } else {
        1 + tree_depth(half_up(w), half_up(h))
    }
}

/// Where, in its level, the node above the leaf `(x, y)` stands. Level 0 is the root.
pub open spec fn node_index(w: nat, h: nat, level: nat, x: nat, y: nat) -> int {
    let up = (tree_depth(w, h) - 1 - level) as nat;
    (halved(y, up) * level_dim(w, up) + halved(x, up)) as int
}

/// The levels have the sizes of the pyramid over a `w` by `h` grid.
pub open spec fn tree_shape<T>(levels: Seq<Seq<T>>, w: nat, h: nat) -> bool {
    &&& levels.len() == tree_depth(w, h)
    &&& forall|i: int|
        0 <= i < levels.len() ==> (#[trigger] levels[i]).len() == level_dim(
            w,
            (levels.len() - 1 - i) as nat,
        ) * level_dim(h, (levels.len() - 1 - i) as nat)
}

/// `n` nodes of which nothing is known: at 0, not committed.
pub open spec fn unknown_nodes(n: nat) -> Seq<(u32, bool)> {
    Seq::new(n, |i: int| (0u32, false))
}

/// A tree of which nothing is known.
pub open spec fn fresh_tree(w: nat, h: nat) -> Seq<Seq<(u32, bool)>>
    decreases w + h,
{
    let leaves = unknown_nodes(w * h);
    if w <= 1 && h <= 1 {
        seq![leaves]
    } else {
        fresh_tree(half_up(w), half_up(h)).push(leaves)
    }
}

/// The smaller of two numbers.
pub open spec fn min_u32(a: u32, b: u32) -> u32 {
    if a <= b {
        a
    } else {
        b
    }
}

/// The minimum over the children of node `(x, y)`, in a `w` by `h` level below it.
pub open spec fn child_min(finer: Seq<u32>, w: nat, h: nat, x: int, y: int) -> u32 {
    let a = finer[2 * y * w + 2 * x];
    let b = if 2 * x + 1 < w { min_u32(a, finer[2 * y * w + 2 * x + 1]) } else { a };
    let c = if 2 * y + 1 < h { min_u32(b, finer[(2 * y + 1) * w + 2 * x]) } else { b };
    if 2 * x + 1 < w && 2 * y + 1 < h {
        min_u32(c, finer[(2 * y + 1) * w + 2 * x + 1])
    } else {
        c
    }
}

/// The level above a `w` by `h` level.
pub open spec fn coarser(finer: Seq<u32>, w: nat, h: nat) -> Seq<u32> {
    Seq::new(
        half_up(w) * half_up(h),
        |i: int| child_min(finer, w, h, i % (half_up(w) as int), i / (half_up(w) as int)),
    )
}

/// The pyramid of minima over the leaves.
pub open spec fn min_tree(leaves: Seq<u32>, w: nat, h: nat) -> Seq<Seq<u32>>
    decreases w + h,
{
    if w <= 1 && h <= 1 {
        seq![leaves]
    } else {
        min_tree(coarser(leaves, w, h), half_up(w), half_up(h)).push(leaves)
    }
}

/// Whether a query that stops at `limit` is still open at `v`.
pub open spec fn below(v: u32, limit: Option<u32>) -> bool {
    match limit {
        Some(t) => v < t,
        None => true,
    }
}

/// Reads what is needed of one node: zeros count `v` up, a one commits it, until it
/// is committed or has reached the limit.
pub open spec fn read_node(v: u32, known: bool, limit: Option<u32>, bits: Seq<bool>) -> (
    Result<(u32, bool), Error>,
    Seq<bool>,
)
    decreases bits.len(),
{
    if known || !below(v, limit) {
        (Ok((v, known)), bits)
    } else if bits.len() == 0 {
        (Err(Error::UnexpectedEof), bits)
    } else if bits[0] {
        (Ok((v, true)), bits.skip(1))
    } else if v == u32::MAX {
        (Err(Error::InvalidPacketHeader), bits.skip(1))
    } else {
        read_node((v + 1) as u32, false, limit, bits.skip(1))
    }
}

/// What a query leaves behind: the tree, the leaf's value (`None` when the query
/// stopped at the limit) or an error, and the bits that were not read.
pub struct TreeRead {
    pub levels: Seq<Seq<(u32, bool)>>,
    pub value: Result<Option<u32>, Error>,
    pub rest: Seq<bool>,
}

/// Walks from `level` down to the leaf `(x, y)`; `above` is the value of the node
/// above, a lower bound of every node below it.
pub open spec fn read_path(
    levels: Seq<Seq<(u32, bool)>>,
    w: nat,
    h: nat,
    x: nat,
    y: nat,
    limit: Option<u32>,
    level: nat,
    above: u32,
    bits: Seq<bool>,
) -> TreeRead
    decreases levels.len() - level,
{
    if level >= levels.len() {
        TreeRead { levels, value: Ok(Some(above)), rest: bits }
    } else {
        let i = node_index(w, h, level, x, y);
        let node = levels[level as int][i];
        let (r, rest) = read_node(if node.0 < above { above } else { node.0 }, node.1, limit, bits);
        match r {
            Err(e) => TreeRead { levels, value: Err(e), rest },
            Ok(n) => {
                let next = levels.update(level as int, levels[level as int].update(i, n));
                if n.1 {
                    read_path(next, w, h, x, y, limit, level + 1, n.0, rest)
                } else {
                    TreeRead { levels: next, value: Ok(None), rest }
                }
            },
        }
    }
}

/// A query for the leaf `(x, y)`.
pub open spec fn read_leaf(
    levels: Seq<Seq<(u32, bool)>>,
    w: nat,
    h: nat,
    x: nat,
    y: nat,
    limit: Option<u32>,
    bits: Seq<bool>,
) -> TreeRead {
    if w == 0 || h == 0 || x >= w || y >= h {
        TreeRead { levels, value: Err(Error::InvalidPacketHeader), rest: bits }
    } else {
        read_path(levels, w, h, x, y, limit, 0, 0, bits)
    }
}

/// The bits for one node whose value is `actual`, and what is then known of it.
pub open spec fn write_node(v: u32, known: bool, actual: u32, limit: Option<u32>) -> (
    Seq<bool>,
    (u32, bool),
)
    decreases actual - v,
{
    if known || !below(v, limit) {
        (Seq::empty(), (v, known))
    } else if v < actual {
        let (bits, n) = write_node((v + 1) as u32, false, actual, limit);
        (seq![false] + bits, n)
    } else {
        (seq![true], (v, true))
    }
}

/// The bits for the way from `level` down to the leaf `(x, y)`, and what is then
/// known of the tree.
pub open spec fn write_path(
    levels: Seq<Seq<(u32, bool)>>,
    values: Seq<Seq<u32>>,
    w: nat,
    h: nat,
    x: nat,
    y: nat,
    limit: Option<u32>,
    level: nat,
    above: u32,
) -> (Seq<bool>, Seq<Seq<(u32, bool)>>)
    decreases levels.len() - level,
{
    if level >= levels.len() {
        (Seq::empty(), levels)
    } else {
        let i = node_index(w, h, level, x, y);
        let node = levels[level as int][i];
        let v = if node.0 < above { above } else { node.0 };
        let (bits, n) = write_node(v, node.1, values[level as int][i], limit);
        let next = levels.update(level as int, levels[level as int].update(i, n));
        if n.1 {
            let (more, last) = write_path(next, values, w, h, x, y, limit, level + 1, n.0);
            (bits + more, last)
        } else {
            (bits, next)
        }
    }
}

/// What is known of a tree agrees with its values.
pub open spec fn consistent(levels: Seq<Seq<(u32, bool)>>, values: Seq<Seq<u32>>) -> bool {
    &&& levels.len() == values.len()
    &&& forall|l: int| 0 <= l < levels.len() ==> (#[trigger] levels[l]).len() == values[l].len()
    &&& forall|l: int, i: int|
        0 <= l < levels.len() && 0 <= i < levels[l].len() ==> {
            let n = #[trigger] levels[l][i];
            n.0 <= values[l][i] && (n.1 ==> n.0 == values[l][i])
        }
}

/// A halved coordinate stays inside a halved side.
pub proof fn lemma_halved_bound(x: nat, w: nat, k: nat)
    requires
        x < w,
    ensures
        halved(x, k) < level_dim(w, k),
    decreases k,
{
    if k > 0 {
        lemma_halved_bound(x / 2, half_up(w), (k - 1) as nat);
    }
}

/// A cell of a grid has an index below the size of the grid.
pub proof fn lemma_cell_bound(x: int, y: int, w: int, h: int)
    requires
        0 <= x < w,
        0 <= y < h,
    ensures
        0 <= y * w,
        0 <= y * w + x < w * h,
        y * w + w <= w * h,
{
    assert(0 <= y * w && y * w + w <= w * h) by (nonlinear_arith)
        requires
            0 <= y < h,
            0 < w,
    ;
}

/// Every node on the way to a leaf exists.
pub proof fn lemma_node_index(w: nat, h: nat, level: nat, x: nat, y: nat)
    requires
        x < w,
        y < h,
        level < tree_depth(w, h),
    ensures
        ({
            let up = (tree_depth(w, h) - 1 - level) as nat;
            0 <= node_index(w, h, level, x, y) < level_dim(w, up) * level_dim(h, up)
        }),
{
    let up = (tree_depth(w, h) - 1 - level) as nat;
    lemma_halved_bound(x, w, up);
    lemma_halved_bound(y, h, up);
    lemma_cell_bound(
        halved(x, up) as int,
        halved(y, up) as int,
        level_dim(w, up) as int,
        level_dim(h, up) as int,
    );
}

/// A fresh tree has the shape of a tree.
pub proof fn lemma_fresh_shape(w: nat, h: nat)
    ensures
        tree_shape(fresh_tree(w, h), w, h),
    decreases w + h,
{
    let t = fresh_tree(w, h);
    if w <= 1 && h <= 1 {
    } else {
        let sub = fresh_tree(half_up(w), half_up(h));
        lemma_fresh_shape(half_up(w), half_up(h));
        assert forall|i: int| 0 <= i < t.len() implies (#[trigger] t[i]).len() == level_dim(
            w,
            (t.len() - 1 - i) as nat,
        ) * level_dim(h, (t.len() - 1 - i) as nat) by {
            if i < sub.len() {
                assert(t[i] == sub[i]);
            }
        }
    }
}

/// Halving a grid does not make it larger.
proof fn lemma_half_area(w: nat, h: nat)
    requires
        1 <= w,
        1 <= h,
    ensures
        half_up(w) * half_up(h) <= w * h,
{
    assert(half_up(w) * half_up(h) <= w * h) by (nonlinear_arith)
        requires
            half_up(w) <= w,
            half_up(h) <= h,
            0 <= half_up(w),
            0 <= half_up(h),
    ;
}

/// A walk keeps the shape of the tree.
pub proof fn lemma_read_path_shape(
    levels: Seq<Seq<(u32, bool)>>,
    w: nat,
    h: nat,
    x: nat,
    y: nat,
    limit: Option<u32>,
    level: nat,
    above: u32,
    bits: Seq<bool>,
)
    requires
        tree_shape(levels, w, h),
        x < w,
        y < h,
    ensures
        tree_shape(
            read_path(levels, w, h, x, y, limit, level, above, bits).levels,
            w,
            h,
        ),
    decreases levels.len() - level,
{
    if level < levels.len() {
        let i = node_index(w, h, level, x, y);
        let node = levels[level as int][i];
        let (r, rest) = read_node(if node.0 < above { above } else { node.0 }, node.1, limit, bits);
        if let Ok(n) = r {
            let next = levels.update(level as int, levels[level as int].update(i, n));
            lemma_node_index(w, h, level, x, y);
            assert(tree_shape(next, w, h));
            lemma_read_path_shape(next, w, h, x, y, limit, level + 1, n.0, rest);
        }
    }
}

/// A query without a limit finds the value or fails.
pub proof fn lemma_value_found(
    levels: Seq<Seq<(u32, bool)>>,
    w: nat,
    h: nat,
    x: nat,
    y: nat,
    level: nat,
    above: u32,
    bits: Seq<bool>,
)
    ensures
        read_path(levels, w, h, x, y, None, level, above, bits).value != Ok::<Option<u32>, Error>(
            None,
        ),
    decreases levels.len() - level,
{
    if level < levels.len() {
        let i = node_index(w, h, level, x, y);
        let node = levels[level as int][i];
        let v = if node.0 < above { above } else { node.0 };
        lemma_node_committed(v, node.1, bits);
        let (r, rest) = read_node(v, node.1, None, bits);
        if let Ok(n) = r {
            let next = levels.update(level as int, levels[level as int].update(i, n));
            lemma_value_found(next, w, h, x, y, level + 1, n.0, rest);
        }
    }
}

/// Without a limit a node is committed or the reading fails.
proof fn lemma_node_committed(v: u32, known: bool, bits: Seq<bool>)
    ensures
        read_node(v, known, None, bits).0 matches Ok(n) ==> n.1,
    decreases bits.len(),
{
    if !known && bits.len() > 0 && !bits[0] && v < u32::MAX {
        lemma_node_committed((v + 1) as u32, false, bits.skip(1));
    }
}

/// `n` nodes of which nothing is known.
fn fresh_nodes(n: usize) -> (v: Vec<(u32, bool)>)
    ensures
        v@ == unknown_nodes(n as nat),
{
    let mut v: Vec<(u32, bool)> = Vec::with_capacity(n);
    for i in 0..n
        invariant
            v@ =~= unknown_nodes(i as nat),
    {
        v.push((0, false));
    }
    v
}

/// The levels, as sequences.
pub open spec fn level_views<T>(levels: Seq<Vec<T>>) -> Seq<Seq<T>> {
    Seq::new(levels.len(), |i: int| levels[i]@)
}

/// The levels of a fresh tree over a `w` by `h` grid, root first.
pub(crate) fn fresh_levels(w: u32, h: u32) -> (levels: Vec<Vec<(u32, bool)>>)
    requires
        1 <= w,
        1 <= h,
        w * h <= usize::MAX,
    ensures
        level_views(levels@) == fresh_tree(w as nat, h as nat),
    decreases w + h,
{
    let mut levels: Vec<Vec<(u32, bool)>> = Vec::new();
    if w > 1 || h > 1 {
        let half_w: u32 = w / 2 + w % 2;
        let half_h: u32 = h / 2 + h % 2;
        proof {
            assert(half_w as nat == half_up(w as nat));
            assert(half_h as nat == half_up(h as nat));
            lemma_half_area(w as nat, h as nat);
        }
        levels = fresh_levels(half_w, half_h);
        assert(level_views(levels@) == fresh_tree(half_up(w as nat), half_up(h as nat)));
    }
    let ghost before = levels@;
    levels.push(fresh_nodes(w as usize * h as usize));
    proof {
        let leaves = unknown_nodes(w as nat * h as nat);
        assert(w * h == w as nat * h as nat);
        assert(level_views(levels@) =~= level_views(before).push(leaves));
        if w <= 1 && h <= 1 {
            assert(level_views(levels@) =~= seq![leaves]);
        } else {
            assert(level_views(before) == fresh_tree(half_up(w as nat), half_up(h as nat)));
        }
    }
    levels
}

/// The side `x`, halved and rounded up `k` times.
fn level_side(x: u32, k: usize) -> (s: u32)
    ensures
        s == level_dim(x as nat, k as nat),
        s <= x,
{
    let mut s: u32 = x;
    for i in 0..k
        invariant
            s <= x,
            level_dim(s as nat, (k - i) as nat) == level_dim(x as nat, k as nat),
    {
        s = s / 2 + s % 2;
    }
    s
}

/// The coordinate `x`, halved `k` times.
fn level_coordinate(x: u32, k: usize) -> (c: u32)
    ensures
        c == halved(x as nat, k as nat),
{
    let mut c: u32 = x;
    for i in 0..k
        invariant
            halved(c as nat, (k - i) as nat) == halved(x as nat, k as nat),
    {
        c = c / 2;
    }
    c
}

/// Index of the node above the leaf `(x, y)` in `level`, one of `depth` levels.
pub(crate) fn node_position(w: u32, h: u32, depth: usize, level: usize, x: u32, y: u32, size: usize) -> (i:
    usize)
    requires
        x < w,
        y < h,
        depth == tree_depth(w as nat, h as nat),
        level < depth,
        size == level_dim(w as nat, (depth - 1 - level) as nat) * level_dim(
            h as nat,
            (depth - 1 - level) as nat,
        ),
    ensures
        i == node_index(w as nat, h as nat, level as nat, x as nat, y as nat),
        i < size,
{
    let up: usize = depth - 1 - level;
    let lw: u32 = level_side(w, up);
    let lx: u32 = level_coordinate(x, up);
    let ly: u32 = level_coordinate(y, up);
    proof {
        lemma_node_index(w as nat, h as nat, level as nat, x as nat, y as nat);
        lemma_halved_bound(x as nat, w as nat, up as nat);
        lemma_halved_bound(y as nat, h as nat, up as nat);
        lemma_cell_bound(
            lx as int,
            ly as int,
            lw as int,
            level_dim(h as nat, up as nat) as int,
        );
    }
    ly as usize * lw as usize + lx as usize
}

/// Reads what is needed of one node.
fn node_value(
    bound: u32,
    committed: bool,
    limit: Option<u32>,
    reader: &mut PacketBitReader<'_>,
) -> (r: Result<(u32, bool), Error>)
    requires
        old(reader).wf(),
    ensures
        final(reader).wf(),
        final(reader).bytes() == old(reader).bytes(),
        (r, final(reader)@) == read_node(bound, committed, limit, old(reader)@),
{
    let mut v: u32 = bound;
    let mut known: bool = committed;
    loop
        invariant
            reader.wf(),
            reader.bytes() == old(reader).bytes(),
            read_node(v, known, limit, reader@) == read_node(
                bound,
                committed,
                limit,
                old(reader)@,
            ),
        decreases reader@.len(),
    {
        let open: bool = match limit {
            Some(t) => v < t,
            None => true,
        };
        if known || !open {
            return Ok((v, known));
        }
        match reader.read_bit() {
            Ok(bit) => {
                if bit == 1 {
                    known = true;
                } else if v == u32::MAX {
                    return Err(Error::InvalidPacketHeader);
                } else {
                    v = v + 1;
                }
            },
            Err(e) => {
                return Err(e);
            },
        }
    }
}

/// A tag tree on the reading side.
#[derive(Debug, Clone)]
pub struct TagTree {
    width: u32,
    height: u32,
    levels: Vec<Vec<(u32, bool)>>,
}

impl TagTree {
    /// Width of the leaf grid.
    pub closed spec fn width(&self) -> nat {
        self.width as nat
    }

    /// Height of the leaf grid.
    pub closed spec fn height(&self) -> nat {
        self.height as nat
    }

    /// What is known of every node, root level first: a lower bound, and whether it
    /// is the value.
    pub closed spec fn levels(&self) -> Seq<Seq<(u32, bool)>> {
        level_views(self.levels@)
    }

    /// The levels fit the grid; an empty grid has none.
    pub open spec fn wf(&self) -> bool {
        if self.width() == 0 || self.height() == 0 {
            self.levels() == Seq::<Seq<(u32, bool)>>::empty()
        } else {
            tree_shape(self.levels(), self.width(), self.height())
        }
    }

    /// A tree over a `width` by `height` grid of which nothing is known.
    pub fn new(width: u32, height: u32) -> (t: Self)
        requires
            width * height <= usize::MAX,
        ensures
            t.wf(),
            t.width() == width,
            t.height() == height,
            width > 0 && height > 0 ==> t.levels() == fresh_tree(width as nat, height as nat),
    {
        if width == 0 || height == 0 {
            let t = TagTree { width, height, levels: Vec::new() };
            assert(t.levels() =~= Seq::<Seq<(u32, bool)>>::empty());
            return t;
        }
        proof {
            lemma_fresh_shape(width as nat, height as nat);
        }
        TagTree { width, height, levels: fresh_levels(width, height) }
    }

    /// Width and height of the leaf grid.
    pub fn dimensions(&self) -> (d: (u32, u32))
        ensures
            d.0 == self.width(),
            d.1 == self.height(),
    {
        (self.width, self.height)
    }

    /// The number of levels.
    pub fn depth(&self) -> (d: usize)
        ensures
            d == self.levels().len(),
    {
        self.levels.len()
    }

    /// Queries the leaf `(x, y)` up to `limit`.
    fn query(
        &mut self,
        x: u32,
        y: u32,
        limit: Option<u32>,
        reader: &mut PacketBitReader<'_>,
    ) -> (r: Result<Option<u32>, Error>)
        requires
            old(self).wf(),
            old(reader).wf(),
        ensures
            final(self).wf(),
            final(self).width() == old(self).width(),
            final(self).height() == old(self).height(),
            final(reader).wf(),
            final(reader).bytes() == old(reader).bytes(),
            (TreeRead { levels: final(self).levels(), value: r, rest: final(reader)@ })
                == read_leaf(
                old(self).levels(),
                old(self).width(),
                old(self).height(),
                x as nat,
                y as nat,
                limit,
                old(reader)@,
            ),
    {
        if x >= self.width || y >= self.height {
            return Err(Error::InvalidPacketHeader);
        }
        let w: u32 = self.width;
        let h: u32 = self.height;
        let depth: usize = self.levels.len();
        let ghost goal = read_leaf(
            self.levels(),
            w as nat,
            h as nat,
            x as nat,
            y as nat,
            limit,
            reader@,
        );
        let mut above: u32 = 0;
        let mut level: usize = 0;
        while level < depth
            invariant
                self.width == w,
                self.height == h,
                old(self).width() == w,
                old(self).height() == h,
                x < w,
                y < h,
                goal == read_leaf(
                    old(self).levels(),
                    w as nat,
                    h as nat,
                    x as nat,
                    y as nat,
                    limit,
                    old(reader)@,
                ),
                depth == self.levels@.len(),
                level <= depth,
                tree_shape(self.levels(), w as nat, h as nat),
                reader.wf(),
                reader.bytes() == old(reader).bytes(),
                goal == read_path(
                    self.levels(),
                    w as nat,
                    h as nat,
                    x as nat,
                    y as nat,
                    limit,
                    level as nat,
                    above,
                    reader@,
                ),
            decreases depth - level,
        {
            assert(self.levels()[level as int] == self.levels@[level as int]@);
            let i: usize = node_position(w, h, depth, level, x, y, self.levels[level].len());
            let node: (u32, bool) = self.levels[level][i];
            let bound: u32 = if node.0 < above { above } else { node.0 };
            let (v, known): (u32, bool) = match node_value(bound, node.1, limit, reader) {
                Ok(n) => n,
                Err(e) => {
                    return Err(e);
                },
            };
            let ghost before = self.levels();
            self.levels[level][i] = (v, known);
            assert(self.levels() =~= before.update(
                level as int,
                before[level as int].update(i as int, (v, known)),
            ));
            if !known {
                return Ok(None);
            }
            above = v;
            level = level + 1;
        }
        Ok(Some(above))
    }

    /// Whether the value of the leaf `(x, y)` is below `threshold`.
    ///
    /// Reads no more than it takes to tell, and remembers what it has read. A leaf
    /// outside the grid is an [`Error::InvalidPacketHeader`].
    pub fn decode_below_threshold(
        &mut self,
        x: u32,
        y: u32,
        threshold: u32,
        reader: &mut PacketBitReader<'_>,
    ) -> (r: Result<bool, Error>)
        requires
            old(self).wf(),
            old(reader).wf(),
        ensures
            final(self).wf(),
            final(self).width() == old(self).width(),
            final(self).height() == old(self).height(),
            final(reader).wf(),
            final(reader).bytes() == old(reader).bytes(),
            ({
                let read = read_leaf(
                    old(self).levels(),
                    old(self).width(),
                    old(self).height(),
                    x as nat,
                    y as nat,
                    Some(threshold),
                    old(reader)@,
                );
                &&& final(self).levels() == read.levels
                &&& final(reader)@ == read.rest
                &&& r == below_threshold(read.value, threshold)
            }),
    {
        match self.query(x, y, Some(threshold), reader) {
            Ok(Some(v)) => Ok(v < threshold),
            Ok(None) => Ok(false),
            Err(e) => Err(e),
        }
    }

    /// The value of the leaf `(x, y)`.
    ///
    /// Reads what is not known of it yet. A leaf outside the grid, or a value above
    /// `u32::MAX`, is an [`Error::InvalidPacketHeader`].
    pub fn decode_value(&mut self, x: u32, y: u32, reader: &mut PacketBitReader<'_>) -> (r: Result<
        u32,
        Error,
    >)
        requires
            old(self).wf(),
            old(reader).wf(),
        ensures
            final(self).wf(),
            final(self).width() == old(self).width(),
            final(self).height() == old(self).height(),
            final(reader).wf(),
            final(reader).bytes() == old(reader).bytes(),
            ({
                let read = read_leaf(
                    old(self).levels(),
                    old(self).width(),
                    old(self).height(),
                    x as nat,
                    y as nat,
                    None,
                    old(reader)@,
                );
                &&& final(self).levels() == read.levels
                &&& final(reader)@ == read.rest
                &&& r == leaf_value(read.value)
            }),
    {
        proof {
            lemma_value_found(
                self.levels(),
                self.width(),
                self.height(),
                x as nat,
                y as nat,
                0,
                0,
                reader@,
            );
        }
        match self.query(x, y, None, reader) {
            Ok(Some(v)) => Ok(v),
            Ok(None) => {
                assert(false);
                Err(Error::InvalidPacketHeader)
            },
            Err(e) => Err(e),
        }
    }
}

/// Whether a query found a value below its threshold.
pub open spec fn below_threshold(value: Result<Option<u32>, Error>, threshold: u32) -> Result<
    bool,
    Error,
> {
    match value {
        Ok(Some(v)) => Ok(v < threshold),
        Ok(None) => Ok(false),
        Err(e) => Err(e),
    }
}

/// The value that a query without a limit found.
pub open spec fn leaf_value(value: Result<Option<u32>, Error>) -> Result<u32, Error> {
    match value {
        Ok(v) => Ok(v->0),
        Err(e) => Err(e),
    }
}

} // verus!
