//! Greedy meshing: merging neighbouring blocks of one type into boxes.
use vstd::prelude::*;

verus! {

broadcast use vstd::seq_lib::group_to_multiset_ensures;

/// A block placed in the world, in Minecraft coordinates.
pub struct VmfBlock {
    pub x: i32,
    pub y: i32,
    pub z: i32,
    pub block_type: String,
}

/// A box of blocks of one type: it spans `width` blocks along x, `height`
/// along y and `depth` along z, starting at `(x, y, z)`.
pub struct OptimizedBlock {
    pub x: i32,
    pub y: i32,
    pub z: i32,
    pub width: i32,
    pub height: i32,
    pub depth: i32,
    pub block_type: String,
}

/// A world position `(x, y, z)`.
pub type Cell = (int, int, int);

/// The mathematical value of an `OptimizedBlock`.
pub struct BoxView {
    pub x: int,
    pub y: int,
    pub z: int,
    pub width: int,
    pub height: int,
    pub depth: int,
    pub block_type: Seq<char>,
}

impl View for OptimizedBlock {
    type V = BoxView;

    open spec fn view(&self) -> BoxView {
        BoxView {
            x: self.x as int,
            y: self.y as int,
            z: self.z as int,
            width: self.width as int,
            height: self.height as int,
            depth: self.depth as int,
            block_type: self.block_type@,
        }
    }
}

pub open spec fn block_cell(b: VmfBlock) -> Cell {
    (b.x as int, b.y as int, b.z as int)
}

/// The positions covered by a box anchored at `c`.
pub open spec fn box_cells(c: Cell, w: int, h: int, d: int) -> Set<Cell> {
    Set::new(
        |q: Cell|
            c.0 <= q.0 < c.0 + w && c.1 <= q.1 < c.1 + h && c.2 <= q.2 < c.2 + d,
    )
}

pub open spec fn view_cells(b: BoxView) -> Set<Cell> {
    box_cells((b.x, b.y, b.z), b.width, b.height, b.depth)
}

/// The positions of the blocks of type `t`.
pub open spec fn type_cells(blocks: Seq<VmfBlock>, t: Seq<char>) -> Set<Cell> {
    Set::new(
        |c: Cell|
            exists|i: int|
                0 <= i < blocks.len() && (#[trigger] blocks[i]).block_type@ == t && block_cell(
                    blocks[i],
                ) == c,
    )
}

/// The processing order of positions: by y, then z, then x.
pub open spec fn cell_lt(a: Cell, b: Cell) -> bool {
    a.1 < b.1 || (a.1 == b.1 && (a.2 < b.2 || (a.2 == b.2 && a.0 < b.0)))
}

pub open spec fn cells_sorted(s: Seq<Cell>) -> bool {
    forall|i: int, j: int| 0 <= i < j < s.len() ==> cell_lt(#[trigger] s[i], #[trigger] s[j])
}

/// The positions of `p`, each once, in processing order.
pub open spec fn ordered_cells(p: Set<Cell>) -> Seq<Cell> {
    choose|s: Seq<Cell>| cells_sorted(s) && (forall|c: Cell| s.contains(c) <==> p.contains(c))
}

/// A position that is a block of the type and not yet in a box.
pub open spec fn avail(p: Set<Cell>, used: Set<Cell>, c: Cell) -> bool {
    p.contains(c) && !used.contains(c)
}

pub open spec fn row_free(p: Set<Cell>, used: Set<Cell>, c: Cell, w: int) -> bool {
    forall|k: int| 1 <= k < w ==> #[trigger] avail(p, used, (c.0 + k, c.1, c.2))
}

pub open spec fn layer_y_free(p: Set<Cell>, used: Set<Cell>, c: Cell, w: int, k: int) -> bool {
    forall|dx: int| 0 <= dx < w ==> #[trigger] avail(p, used, (c.0 + dx, c.1 + k, c.2))
}

pub open spec fn layer_z_free(
    p: Set<Cell>,
    used: Set<Cell>,
    c: Cell,
    w: int,
    h: int,
    k: int,
) -> bool {
    forall|dx: int, dy: int|
        0 <= dx < w && 0 <= dy < h ==> #[trigger] avail(p, used, (c.0 + dx, c.1 + dy, c.2 + k))
}

/// `w` is how far a row grows along x from `c`: the first position past it is taken.
pub open spec fn is_width(p: Set<Cell>, used: Set<Cell>, c: Cell, w: int) -> bool {
    w >= 1 && row_free(p, used, c, w) && !avail(p, used, (c.0 + w, c.1, c.2))
}

/// `h` is how far the row of width `w` grows along y.
pub open spec fn is_height(p: Set<Cell>, used: Set<Cell>, c: Cell, w: int, h: int) -> bool {
    &&& h >= 1
    &&& forall|k: int| 1 <= k < h ==> #[trigger] layer_y_free(p, used, c, w, k)
    &&& !layer_y_free(p, used, c, w, h)
}

/// `d` is how far the `w` by `h` rectangle grows along z.
pub open spec fn is_depth(p: Set<Cell>, used: Set<Cell>, c: Cell, w: int, h: int, d: int) -> bool {
    &&& d >= 1
    &&& forall|k: int| 1 <= k < d ==> #[trigger] layer_z_free(p, used, c, w, h, k)
    &&& !layer_z_free(p, used, c, w, h, d)
}

/// The box that greedy meshing grows from `c`: first along x, then y, then z.
pub open spec fn is_greedy_box(
    p: Set<Cell>,
    used: Set<Cell>,
    c: Cell,
    w: int,
    h: int,
    d: int,
) -> bool {
    is_width(p, used, c, w) && is_height(p, used, c, w, h) && is_depth(p, used, c, w, h, d)
}

pub open spec fn greedy_dims(p: Set<Cell>, used: Set<Cell>, c: Cell) -> (int, int, int) {
    choose|w: int, h: int, d: int| is_greedy_box(p, used, c, w, h, d)
}

/// Greedy meshing of the positions `p` visited in the order `s`: the positions
/// already in a box, and the boxes (anchor and dimensions) made so far.
pub open spec fn mesh_cells(p: Set<Cell>, s: Seq<Cell>) -> (Set<Cell>, Seq<(Cell, (int, int, int))>)
    decreases s.len(),
{
    if s.len() == 0 {
        (Set::empty(), Seq::empty())
    } else {
        let prev = mesh_cells(p, s.drop_last());
        let c = s.last();
        if prev.0.contains(c) {
            prev
        } else {
            let dims = greedy_dims(p, prev.0, c);
            (prev.0.union(box_cells(c, dims.0, dims.1, dims.2)), prev.1.push((c, dims)))
        }
    }
}

pub open spec fn box_view(e: (Cell, (int, int, int)), t: Seq<char>) -> BoxView {
    BoxView {
        x: e.0.0,
        y: e.0.1,
        z: e.0.2,
        width: e.1.0,
        height: e.1.1,
        depth: e.1.2,
        block_type: t,
    }
}

/// The boxes made of the blocks of type `t`.
pub open spec fn mesh_of_type(blocks: Seq<VmfBlock>, t: Seq<char>) -> Seq<BoxView> {
    let p = type_cells(blocks, t);
    mesh_cells(p, ordered_cells(p)).1.map_values(|e: (Cell, (int, int, int))| box_view(e, t))
}

/// The block types, each once, in the order in which they first occur.
pub open spec fn block_types(blocks: Seq<VmfBlock>) -> Seq<Seq<char>>
    decreases blocks.len(),
{
    if blocks.len() == 0 {
        Seq::empty()
    } else {
        let ts = block_types(blocks.drop_last());
        if ts.contains(blocks.last().block_type@) {
            ts
        } else {
            ts.push(blocks.last().block_type@)
        }
    }
}

pub open spec fn mesh_types(blocks: Seq<VmfBlock>, ts: Seq<Seq<char>>) -> Seq<BoxView>
    decreases ts.len(),
{
    if ts.len() == 0 {
        Seq::empty()
    } else {
        mesh_types(blocks, ts.drop_last()) + mesh_of_type(blocks, ts.last())
    }
}

/// Greedy meshing of all blocks, one block type after another.
pub open spec fn optimize_spec(blocks: Seq<VmfBlock>) -> Seq<BoxView> {
    mesh_types(blocks, block_types(blocks))
}

// ---------------------------------------------------------------------------
// Lemmas
// ---------------------------------------------------------------------------

proof fn lemma_sorted_unique(s1: Seq<Cell>, s2: Seq<Cell>)
    requires
        cells_sorted(s1),
        cells_sorted(s2),
        forall|c: Cell| s1.contains(c) <==> s2.contains(c),
    ensures
        s1 == s2,
    decreases s1.len(),
{
    if s1.len() == 0 {
        if s2.len() > 0 {
            assert(s2.contains(s2[0]));
        }
        assert(s1 =~= s2);
    } else {
        assert(s1.contains(s1[0]));
        assert(s2.contains(s1[0]));
        assert(s2.len() > 0);
        assert(s2.contains(s2[0]));
        assert(s1.contains(s2[0]));
        let j = choose|j: int| 0 <= j < s2.len() && s2[j] == s1[0];
        let i = choose|i: int| 0 <= i < s1.len() && s1[i] == s2[0];
        if j > 0 {
            assert(cell_lt(s2[0], s2[j]));
            if i > 0 {
                assert(cell_lt(s1[0], s1[i]));
            }
        }
        assert(s1[0] == s2[0]);
        let t1 = s1.drop_first();
        let t2 = s2.drop_first();
        assert forall|c: Cell| t1.contains(c) <==> t2.contains(c) by {
            if t1.contains(c) {
                let k = choose|k: int| 0 <= k < t1.len() && t1[k] == c;
                assert(s1[k + 1] == c);
                assert(cell_lt(s1[0], s1[k + 1]));
                assert(s2.contains(c));
                let m = choose|m: int| 0 <= m < s2.len() && s2[m] == c;
                assert(m != 0);
                assert(t2[m - 1] == c);
            }
            if t2.contains(c) {
                let k = choose|k: int| 0 <= k < t2.len() && t2[k] == c;
                assert(s2[k + 1] == c);
                assert(cell_lt(s2[0], s2[k + 1]));
                assert(s1.contains(c));
                let m = choose|m: int| 0 <= m < s1.len() && s1[m] == c;
                assert(m != 0);
                assert(t1[m - 1] == c);
            }
        }
        lemma_sorted_unique(t1, t2);
        assert(s1 =~= seq![s1[0]] + t1);
        assert(s2 =~= seq![s2[0]] + t2);
    }
}

proof fn lemma_greedy_unique(
    p: Set<Cell>,
    used: Set<Cell>,
    c: Cell,
    w: int,
    h: int,
    d: int,
    w2: int,
    h2: int,
    d2: int,
)
    requires
        is_greedy_box(p, used, c, w, h, d),
        is_greedy_box(p, used, c, w2, h2, d2),
    ensures
        w == w2 && h == h2 && d == d2,
{
    if w < w2 {
        assert(avail(p, used, (c.0 + w, c.1, c.2)));
    }
    if w2 < w {
        assert(avail(p, used, (c.0 + w2, c.1, c.2)));
    }
    if h < h2 {
        assert(layer_y_free(p, used, c, w, h));
    }
    if h2 < h {
        assert(layer_y_free(p, used, c, w, h2));
    }
    if d < d2 {
        assert(layer_z_free(p, used, c, w, h, d));
    }
    if d2 < d {
        assert(layer_z_free(p, used, c, w, h, d2));
    }
}

proof fn lemma_greedy_dims(p: Set<Cell>, used: Set<Cell>, c: Cell, w: int, h: int, d: int)
    requires
        is_greedy_box(p, used, c, w, h, d),
    ensures
        greedy_dims(p, used, c) == (w, h, d),
{
    let g = greedy_dims(p, used, c);
    lemma_greedy_unique(p, used, c, w, h, d, g.0, g.1, g.2);
}

/// Every position of a greedy box grown from a free anchor was free.
proof fn lemma_box_cells_avail(p: Set<Cell>, used: Set<Cell>, c: Cell, w: int, h: int, d: int)
    requires
        is_greedy_box(p, used, c, w, h, d),
        avail(p, used, c),
    ensures
        forall|q: Cell| box_cells(c, w, h, d).contains(q) ==> avail(p, used, q),
{
    assert forall|q: Cell| box_cells(c, w, h, d).contains(q) implies avail(p, used, q) by {
        let dx = q.0 - c.0;
        let dy = q.1 - c.1;
        let dz = q.2 - c.2;
        if dz >= 1 {
            assert(layer_z_free(p, used, c, w, h, dz));
            assert(avail(p, used, (c.0 + dx, c.1 + dy, c.2 + dz)));
        } else if dy >= 1 {
            assert(layer_y_free(p, used, c, w, dy));
            assert(avail(p, used, (c.0 + dx, c.1 + dy, c.2)));
        } else if dx >= 1 {
            assert(avail(p, used, (c.0 + dx, c.1, c.2)));
        } else {
            assert(q == c);
        }
    }
}

// ---------------------------------------------------------------------------
// Sort keys: a position as (y, z, x), so that the order of tuples is the
// processing order.
// ---------------------------------------------------------------------------

pub open spec fn key_cell(k: (i32, i32, i32)) -> Cell {
    (k.2 as int, k.0 as int, k.1 as int)
}

/// The lexicographic order of tuples.
pub open spec fn key_le(a: (i32, i32, i32), b: (i32, i32, i32)) -> bool {
    a.0 < b.0 || (a.0 == b.0 && (a.1 < b.1 || (a.1 == b.1 && a.2 <= b.2)))
}

pub open spec fn keys_sorted(s: Seq<(i32, i32, i32)>) -> bool {
    forall|i: int, j: int| 0 <= i < j < s.len() ==> key_le(#[trigger] s[i], #[trigger] s[j])
}

pub open spec fn keys_strict(s: Seq<(i32, i32, i32)>) -> bool {
    forall|i: int, j: int|
        0 <= i < j < s.len() ==> cell_lt(key_cell(#[trigger] s[i]), key_cell(#[trigger] s[j]))
}

pub open spec fn key_set(s: Seq<(i32, i32, i32)>) -> Set<Cell> {
    Set::new(|c: Cell| exists|j: int| 0 <= j < s.len() && key_cell(#[trigger] s[j]) == c)
}

pub open spec fn key_cells(s: Seq<(i32, i32, i32)>) -> Seq<Cell> {
    s.map_values(|k: (i32, i32, i32)| key_cell(k))
}

/// No coordinate is `i32::MAX`, so a box can grow one step past any position.
pub open spec fn keys_below_max(s: Seq<(i32, i32, i32)>) -> bool {
    forall|j: int|
        0 <= j < s.len() ==> (#[trigger] s[j]).0 < i32::MAX && s[j].1 < i32::MAX && s[j].2
            < i32::MAX
}

/// `flags[j]` tells whether the position of `keys[j]` is already in a box.
pub open spec fn flags_ok(keys: Seq<(i32, i32, i32)>, flags: Seq<bool>, used: Set<Cell>) -> bool {
    flags.len() == keys.len() && forall|j: int|
        0 <= j < keys.len() ==> #[trigger] flags[j] == used.contains(key_cell(keys[j]))
}

fn key_before(a: (i32, i32, i32), b: (i32, i32, i32)) -> (r: bool)
    ensures
        r == cell_lt(key_cell(a), key_cell(b)),
{
    a.0 < b.0 || (a.0 == b.0 && (a.1 < b.1 || (a.1 == b.1 && a.2 < b.2)))
}

/// Sorts position keys in the order of tuples, through `slice::sort`.
/// Trusted: std documents that `sort` permutes the slice into ascending order,
/// and that tuples are ordered lexicographically.
#[verifier::external_body]
fn sort_keys(v: &mut Vec<(i32, i32, i32)>)
    ensures
        final(v)@.to_multiset() == old(v)@.to_multiset(),
        keys_sorted(final(v)@),
{
    v.sort();
}

/// Drops repeated keys from a sorted sequence.
fn dedup_sorted(v: &Vec<(i32, i32, i32)>) -> (r: Vec<(i32, i32, i32)>)
    requires
        keys_sorted(v@),
    ensures
        keys_strict(r@),
        r.len() <= v.len(),
        forall|j: int| 0 <= j < r.len() ==> v@.contains(#[trigger] r@[j]),
        forall|j: int| 0 <= j < v.len() ==> r@.contains(#[trigger] v@[j]),
{
    let mut r: Vec<(i32, i32, i32)> = Vec::new();
    let n = v.len();
    for i in 0..n
        invariant
            n == v.len(),
            keys_sorted(v@),
            keys_strict(r@),
            r.len() <= i,
            forall|j: int| 0 <= j < r.len() ==> v@.contains(#[trigger] r@[j]),
            forall|j: int| 0 <= j < i ==> r@.contains(#[trigger] v@[j]),
            i > 0 ==> r.len() > 0 && r@.last() == v@[i - 1],
    {
        let k = v[i];
        let fresh = if r.len() == 0 {
            true
        } else {
            let last = r[r.len() - 1];
            !(last.0 == k.0 && last.1 == k.1 && last.2 == k.2)
        };
        if fresh {
            proof {
                if r.len() > 0 {
                    assert(key_le(v@[i - 1], v@[i as int]));
                }
            }
            let ghost old_r = r@;
            r.push(k);
            proof {
                assert(v@.contains(k)) by { assert(v@[i as int] == k); }
                assert forall|j: int| 0 <= j < i + 1 implies r@.contains(#[trigger] v@[j]) by {
                    if j < i {
                        assert(old_r.contains(v@[j]));
                        let m = choose|m: int| 0 <= m < old_r.len() && old_r[m] == v@[j];
                        assert(r@[m] == v@[j]);
                    } else {
                        assert(r@[r.len() - 1] == v@[j]);
                    }
                }
            }
        } else {
            proof {
                assert forall|j: int| 0 <= j < i + 1 implies r@.contains(#[trigger] v@[j]) by {
                    if j == i {
                        assert(r@[r.len() - 1] == v@[j]);
                    }
                }
            }
        }
    }
    r
}

/// Binary search for a key in a strictly sorted sequence.
fn find_key(keys: &Vec<(i32, i32, i32)>, k: (i32, i32, i32)) -> (r: Option<usize>)
    requires
        keys_strict(keys@),
    ensures
        match r {
            Some(j) => j < keys.len() && keys@[j as int] == k,
            None => !key_set(keys@).contains(key_cell(k)),
        },
{
    let mut lo: usize = 0;
    let mut hi: usize = keys.len();
    while lo < hi
        invariant
            lo <= hi <= keys.len(),
            keys_strict(keys@),
            forall|j: int| 0 <= j < lo ==> cell_lt(key_cell(#[trigger] keys@[j]), key_cell(k)),
            forall|j: int|
                hi <= j < keys.len() ==> !cell_lt(key_cell(#[trigger] keys@[j]), key_cell(k)),
        decreases hi - lo,
    {
        let mid = lo + (hi - lo) / 2;
        if key_before(keys[mid], k) {
            lo = mid + 1;
        } else {
            hi = mid;
        }
    }
    if lo < keys.len() {
        let f = keys[lo];
        if f.0 == k.0 && f.1 == k.1 && f.2 == k.2 {
            return Some(lo);
        }
    }
    proof {
        if key_set(keys@).contains(key_cell(k)) {
            let j = choose|j: int| 0 <= j < keys.len() && key_cell(#[trigger] keys@[j]) == key_cell(k);
            assert(keys@[j] == k);
            if j > lo {
                assert(cell_lt(key_cell(keys@[lo as int]), key_cell(keys@[j])));
            }
        }
    }
    None
}

/// Whether the position `k` is a block of the type that is in no box yet.
fn is_avail(
    keys: &Vec<(i32, i32, i32)>,
    flags: &Vec<bool>,
    Ghost(used): Ghost<Set<Cell>>,
    k: (i32, i32, i32),
) -> (r: bool)
    requires
        keys_strict(keys@),
        flags_ok(keys@, flags@, used),
    ensures
        r == avail(key_set(keys@), used, key_cell(k)),
{
    match find_key(keys, k) {
        Some(j) => {
            assert(key_set(keys@).contains(key_cell(k))) by {
                assert(key_cell(keys@[j as int]) == key_cell(k));
            }
            !flags[j]
        },
        None => false,
    }
}

proof fn lemma_present_below_max(keys: Seq<(i32, i32, i32)>, c: Cell)
    requires
        keys_below_max(keys),
        key_set(keys).contains(c),
    ensures
        c.0 < i32::MAX,
        c.1 < i32::MAX,
        c.2 < i32::MAX,
{
    let j = choose|j: int| 0 <= j < keys.len() && key_cell(#[trigger] keys[j]) == c;
    assert(keys_below_max(keys) ==> keys[j].0 < i32::MAX);
}


/// A position present in `keys` has an index there.
proof fn lemma_index_of(keys: Seq<(i32, i32, i32)>, c: Cell) -> (j: int)
    requires
        key_set(keys).contains(c),
    ensures
        0 <= j < keys.len(),
        key_cell(keys[j]) == c,
{
    choose|j: int| 0 <= j < keys.len() && key_cell(#[trigger] keys[j]) == c
}

/// In strictly sorted keys, a later position has a later index.
proof fn lemma_index_order(keys: Seq<(i32, i32, i32)>, i: int, j: int)
    requires
        keys_strict(keys),
        0 <= i < keys.len(),
        0 <= j < keys.len(),
        cell_lt(key_cell(keys[i]), key_cell(keys[j])),
    ensures
        i < j,
{
    if j < i {
        assert(cell_lt(key_cell(keys[j]), key_cell(keys[i])));
    }
}

/// Whether the positions (x + dx, y, z), 0 <= dx < w, are all free.
fn row_is_free(
    keys: &Vec<(i32, i32, i32)>,
    flags: &Vec<bool>,
    Ghost(used): Ghost<Set<Cell>>,
    y: i32,
    z: i32,
    x: i32,
    w: i32,
) -> (r: bool)
    requires
        keys_strict(keys@),
        flags_ok(keys@, flags@, used),
        0 <= w,
        x + w <= i32::MAX + 1,
    ensures
        r == (forall|dx: int|
            0 <= dx < w ==> #[trigger] avail(key_set(keys@), used, (x + dx, y as int, z as int))),
{
    let mut dx: i32 = 0;
    while dx < w
        invariant
            0 <= dx <= w,
            x + w <= i32::MAX + 1,
            keys_strict(keys@),
            flags_ok(keys@, flags@, used),
            forall|e: int|
                0 <= e < dx ==> #[trigger] avail(key_set(keys@), used, (x + e, y as int, z as int)),
        decreases w - dx,
    {
        if !is_avail(keys, flags, Ghost(used), (y, z, x + dx)) {
            return false;
        }
        dx = dx + 1;
    }
    true
}

/// Whether the positions (x + dx, y + dy, z), 0 <= dx < w, 0 <= dy < h, are all free.
fn rect_is_free(
    keys: &Vec<(i32, i32, i32)>,
    flags: &Vec<bool>,
    Ghost(used): Ghost<Set<Cell>>,
    y: i32,
    z: i32,
    x: i32,
    w: i32,
    h: i32,
) -> (r: bool)
    requires
        keys_strict(keys@),
        flags_ok(keys@, flags@, used),
        0 <= w,
        0 <= h,
        x + w <= i32::MAX + 1,
        y + h <= i32::MAX + 1,
    ensures
        r == (forall|dx: int, dy: int|
            0 <= dx < w && 0 <= dy < h ==> #[trigger] avail(
                key_set(keys@),
                used,
                (x + dx, y + dy, z as int),
            )),
{
    let mut dy: i32 = 0;
    while dy < h
        invariant
            0 <= dy <= h,
            0 <= w,
            x + w <= i32::MAX + 1,
            y + h <= i32::MAX + 1,
            keys_strict(keys@),
            flags_ok(keys@, flags@, used),
            forall|dx: int, e: int|
                0 <= dx < w && 0 <= e < dy ==> #[trigger] avail(
                    key_set(keys@),
                    used,
                    (x + dx, y + e, z as int),
                ),
        decreases h - dy,
    {
        if !row_is_free(keys, flags, Ghost(used), y + dy, z, x, w) {
            proof {
                let dx = choose|dx: int|
                    !(0 <= dx < w ==> #[trigger] avail(
                        key_set(keys@),
                        used,
                        (x + dx, (y + dy) as int, z as int),
                    ));
                assert(!avail(key_set(keys@), used, (x + dx, y + dy, z as int)));
            }
            return false;
        }
        dy = dy + 1;
    }
    true
}

/// Grows the greedy box from the free position `a`.
fn grow_box(
    keys: &Vec<(i32, i32, i32)>,
    flags: &Vec<bool>,
    Ghost(used): Ghost<Set<Cell>>,
    a: (i32, i32, i32),
) -> (r: (i32, i32, i32))
    requires
        keys_strict(keys@),
        keys_below_max(keys@),
        flags_ok(keys@, flags@, used),
        avail(key_set(keys@), used, key_cell(a)),
        keys.len() <= i32::MAX,
    ensures
        is_greedy_box(key_set(keys@), used, key_cell(a), r.0 as int, r.1 as int, r.2 as int),
        a.2 + r.0 <= i32::MAX,
        a.0 + r.1 <= i32::MAX,
        a.1 + r.2 <= i32::MAX,
{
    let ghost p = key_set(keys@);
    let ghost c = key_cell(a);
    let y = a.0;
    let z = a.1;
    let x = a.2;
    proof {
        lemma_present_below_max(keys@, c);
    }
    let ghost mut gj = lemma_index_of(keys@, c);
    let mut w: i32 = 1;
    loop
        invariant
            keys_strict(keys@),
            keys_below_max(keys@),
            flags_ok(keys@, flags@, used),
            p == key_set(keys@),
            c == key_cell(a),
            x == a.2 && y == a.0 && z == a.1,
            1 <= w,
            x + w <= i32::MAX,
            row_free(p, used, c, w as int),
            keys.len() <= i32::MAX,
            0 <= gj < keys.len(),
            gj >= w - 1,
            key_cell(keys@[gj]) == (x + w - 1, y as int, z as int),
        ensures
            is_width(p, used, c, w as int),
            1 <= w,
            x + w <= i32::MAX,
        decreases i32::MAX - (x + w),
    {
        if !is_avail(keys, flags, Ghost(used), (y, z, x + w)) {
            break;
        }
        proof {
            lemma_present_below_max(keys@, (x + w, y as int, z as int));
            let j2 = lemma_index_of(keys@, (x + w, y as int, z as int));
            lemma_index_order(keys@, gj, j2);
            gj = j2;
        }
        w = w + 1;
    }
    proof {
        assert(avail(p, used, (x + 0, y as int, z as int)));
    }
    let ghost mut gj = lemma_index_of(keys@, c);
    let mut h: i32 = 1;
    loop
        invariant
            keys_strict(keys@),
            keys_below_max(keys@),
            flags_ok(keys@, flags@, used),
            p == key_set(keys@),
            c == key_cell(a),
            x == a.2 && y == a.0 && z == a.1,
            is_width(p, used, c, w as int),
            1 <= w,
            x + w <= i32::MAX,
            1 <= h,
            y + h <= i32::MAX,
            forall|k: int| 1 <= k < h ==> #[trigger] layer_y_free(p, used, c, w as int, k),
            keys.len() <= i32::MAX,
            0 <= gj < keys.len(),
            gj >= h - 1,
            key_cell(keys@[gj]) == (x as int, y + h - 1, z as int),
        ensures
            is_height(p, used, c, w as int, h as int),
            1 <= h,
            y + h <= i32::MAX,
        decreases i32::MAX - (y + h),
    {
        if !row_is_free(keys, flags, Ghost(used), y + h, z, x, w) {
            proof {
                assert(!layer_y_free(p, used, c, w as int, h as int));
            }
            break;
        }
        proof {
            assert(avail(p, used, (x + 0, (y + h) as int, z as int)));
            lemma_present_below_max(keys@, (x + 0, (y + h) as int, z as int));
            assert(layer_y_free(p, used, c, w as int, h as int));
            let j2 = lemma_index_of(keys@, (x + 0, (y + h) as int, z as int));
            lemma_index_order(keys@, gj, j2);
            gj = j2;
        }
        h = h + 1;
    }
    let ghost mut gj = lemma_index_of(keys@, c);
    let mut d: i32 = 1;
    loop
        invariant
            keys_strict(keys@),
            keys_below_max(keys@),
            flags_ok(keys@, flags@, used),
            p == key_set(keys@),
            c == key_cell(a),
            x == a.2 && y == a.0 && z == a.1,
            is_width(p, used, c, w as int),
            is_height(p, used, c, w as int, h as int),
            1 <= w,
            x + w <= i32::MAX,
            1 <= h,
            y + h <= i32::MAX,
            1 <= d,
            z + d <= i32::MAX,
            forall|k: int| 1 <= k < d ==> #[trigger] layer_z_free(p, used, c, w as int, h as int, k),
            keys.len() <= i32::MAX,
            0 <= gj < keys.len(),
            gj >= d - 1,
            key_cell(keys@[gj]) == (x as int, y as int, z + d - 1),
        ensures
            is_depth(p, used, c, w as int, h as int, d as int),
            1 <= d,
            z + d <= i32::MAX,
        decreases i32::MAX - (z + d),
    {
        if !rect_is_free(keys, flags, Ghost(used), y, z + d, x, w, h) {
            proof {
                assert(!layer_z_free(p, used, c, w as int, h as int, d as int));
            }
            break;
        }
        proof {
            assert(avail(p, used, (x + 0, y + 0, (z + d) as int)));
            lemma_present_below_max(keys@, (x + 0, y + 0, (z + d) as int));
            assert(layer_z_free(p, used, c, w as int, h as int, d as int));
            let j2 = lemma_index_of(keys@, (x + 0, y + 0, (z + d) as int));
            lemma_index_order(keys@, gj, j2);
            gj = j2;
        }
        d = d + 1;
    }
    (w, h, d)
}

/// Records that the position `k` is now in a box.
fn mark_cell(
    keys: &Vec<(i32, i32, i32)>,
    flags: &mut Vec<bool>,
    Ghost(used): Ghost<Set<Cell>>,
    k: (i32, i32, i32),
)
    requires
        keys_strict(keys@),
        flags_ok(keys@, old(flags)@, used),
        key_set(keys@).contains(key_cell(k)),
    ensures
        flags_ok(keys@, final(flags)@, used.insert(key_cell(k))),
{
    match find_key(keys, k) {
        Some(j) => {
            flags.set(j, true);
            proof {
                assert forall|i: int| 0 <= i < keys.len() implies #[trigger] flags@[i]
                    == used.insert(key_cell(k)).contains(key_cell(keys@[i])) by {
                    if i < j {
                        assert(cell_lt(key_cell(keys@[i]), key_cell(keys@[j as int])));
                    } else if i > j {
                        assert(cell_lt(key_cell(keys@[j as int]), key_cell(keys@[i])));
                    }
                }
            }
        },
        None => {},
    }
}

/// Records that the positions of the box are now in a box.
fn mark_box(
    keys: &Vec<(i32, i32, i32)>,
    flags: &mut Vec<bool>,
    Ghost(used): Ghost<Set<Cell>>,
    a: (i32, i32, i32),
    w: i32,
    h: i32,
    d: i32,
)
    requires
        keys_strict(keys@),
        flags_ok(keys@, old(flags)@, used),
        0 <= w && 0 <= h && 0 <= d,
        a.2 + w <= i32::MAX,
        a.0 + h <= i32::MAX,
        a.1 + d <= i32::MAX,
        forall|q: Cell|
            box_cells(key_cell(a), w as int, h as int, d as int).contains(q) ==> key_set(
                keys@,
            ).contains(q),
    ensures
        flags_ok(
            keys@,
            final(flags)@,
            used.union(box_cells(key_cell(a), w as int, h as int, d as int)),
        ),
{
    let ghost c = key_cell(a);
    let y = a.0;
    let z = a.1;
    let x = a.2;
    let ghost mut u = used;
    let mut dz: i32 = 0;
    while dz < d
        invariant
            keys_strict(keys@),
            flags_ok(keys@, flags@, u),
            c == key_cell(a),
            x == a.2 && y == a.0 && z == a.1,
            0 <= w && 0 <= h && 0 <= dz <= d,
            x + w <= i32::MAX,
            y + h <= i32::MAX,
            z + d <= i32::MAX,
            forall|q: Cell|
                box_cells(c, w as int, h as int, d as int).contains(q) ==> key_set(
                    keys@,
                ).contains(q),
            u == used.union(box_cells(c, w as int, h as int, dz as int)),
        decreases d - dz,
    {
        let mut dy: i32 = 0;
        while dy < h
            invariant
                keys_strict(keys@),
                flags_ok(keys@, flags@, u),
                c == key_cell(a),
                x == a.2 && y == a.0 && z == a.1,
                0 <= w && 0 <= dy <= h && 0 <= dz < d,
                x + w <= i32::MAX,
                y + h <= i32::MAX,
                z + d <= i32::MAX,
                forall|q: Cell|
                    box_cells(c, w as int, h as int, d as int).contains(q) ==> key_set(
                        keys@,
                    ).contains(q),
                u == used.union(box_cells(c, w as int, h as int, dz as int)).union(
                    box_cells((x as int, y as int, z + dz), w as int, dy as int, 1),
                ),
            decreases h - dy,
        {
            let mut dx: i32 = 0;
            while dx < w
                invariant
                    keys_strict(keys@),
                    flags_ok(keys@, flags@, u),
                    c == key_cell(a),
                    x == a.2 && y == a.0 && z == a.1,
                    0 <= dx <= w && 0 <= dy < h && 0 <= dz < d,
                    x + w <= i32::MAX,
                    y + h <= i32::MAX,
                    z + d <= i32::MAX,
                    forall|q: Cell|
                        box_cells(c, w as int, h as int, d as int).contains(q) ==> key_set(
                            keys@,
                        ).contains(q),
                    u == used.union(box_cells(c, w as int, h as int, dz as int)).union(
                        box_cells((x as int, y as int, z + dz), w as int, dy as int, 1),
                    ).union(box_cells((x as int, y + dy, z + dz), dx as int, 1, 1)),
                decreases w - dx,
            {
                let k = (y + dy, z + dz, x + dx);
                proof {
                    assert(box_cells(c, w as int, h as int, d as int).contains(key_cell(k)));
                }
                mark_cell(keys, flags, Ghost(u), k);
                proof {
                    let u2 = u.insert(key_cell(k));
                    assert(u2 =~= used.union(box_cells(c, w as int, h as int, dz as int)).union(
                        box_cells((x as int, y as int, z + dz), w as int, dy as int, 1),
                    ).union(box_cells((x as int, y + dy, z + dz), dx + 1, 1, 1)));
                    u = u2;
                }
                dx = dx + 1;
            }
            proof {
                assert(u =~= used.union(box_cells(c, w as int, h as int, dz as int)).union(
                    box_cells((x as int, y as int, z + dz), w as int, dy + 1, 1),
                ));
            }
            dy = dy + 1;
        }
        proof {
            assert(u =~= used.union(box_cells(c, w as int, h as int, dz + 1)));
        }
        dz = dz + 1;
    }
}

pub open spec fn entry_cells(e: (Cell, (int, int, int))) -> Set<Cell> {
    box_cells(e.0, e.1.0, e.1.1, e.1.2)
}

pub open spec fn out_views(s: Seq<OptimizedBlock>) -> Seq<BoxView> {
    s.map_values(|b: OptimizedBlock| b@)
}

/// What greedy meshing of the positions `p`, visited in the order `s`, guarantees:
/// boxes are non-empty, lie within `p`, do not overlap, cover every visited
/// position, and are no more than the positions visited.
pub open spec fn mesh_laws(
    p: Set<Cell>,
    s: Seq<Cell>,
    st: (Set<Cell>, Seq<(Cell, (int, int, int))>),
) -> bool {
    &&& forall|i: int|
        0 <= i < st.1.len() ==> (#[trigger] st.1[i]).1.0 >= 1 && st.1[i].1.1 >= 1 && st.1[i].1.2
            >= 1
    &&& forall|i: int, q: Cell|
        0 <= i < st.1.len() && #[trigger] entry_cells(st.1[i]).contains(q) ==> p.contains(q)
    &&& forall|i: int, j: int, q: Cell|
        0 <= i < j < st.1.len() && #[trigger] entry_cells(st.1[i]).contains(q)
            ==> !#[trigger] entry_cells(st.1[j]).contains(q)
    &&& forall|q: Cell|
        st.0.contains(q) <==> exists|i: int|
            0 <= i < st.1.len() && #[trigger] entry_cells(st.1[i]).contains(q)
    &&& forall|k: int| 0 <= k < s.len() ==> st.0.contains(#[trigger] s[k])
    &&& st.1.len() <= s.len()
}

/// Greedy meshing of the positions `keys` of blocks of type `t`; the boxes are
/// appended to `out`.
fn mesh_type(t: &String, keys: &Vec<(i32, i32, i32)>, out: &mut Vec<OptimizedBlock>)
    requires
        keys_strict(keys@),
        keys_below_max(keys@),
        keys.len() <= i32::MAX,
    ensures
        out_views(final(out)@) == out_views(old(out)@) + mesh_cells(
            key_set(keys@),
            key_cells(keys@),
        ).1.map_values(|e: (Cell, (int, int, int))| box_view(e, t@)),
        mesh_laws(key_set(keys@), key_cells(keys@), mesh_cells(key_set(keys@), key_cells(keys@))),
{
    let n = keys.len();
    let mut flags: Vec<bool> = Vec::new();
    for i in 0..n
        invariant
            flags.len() == i,
            forall|j: int| 0 <= j < i ==> !(#[trigger] flags@[j]),
    {
        flags.push(false);
    }
    let ghost p = key_set(keys@);
    let ghost cs = key_cells(keys@);
    let ghost mut used: Set<Cell> = Set::empty();
    proof {
        assert(cs.take(0) =~= Seq::<Cell>::empty());
        assert(out_views(out@) =~= out_views(old(out)@) + mesh_cells(p, cs.take(0)).1.map_values(
            |e: (Cell, (int, int, int))| box_view(e, t@),
        ));
    }
    for i in 0..n
        invariant
            n == keys.len(),
            keys_strict(keys@),
            keys_below_max(keys@),
            keys.len() <= i32::MAX,
            p == key_set(keys@),
            cs == key_cells(keys@),
            mesh_cells(p, cs.take(i as int)).0 == used,
            flags_ok(keys@, flags@, used),
            out_views(out@) == out_views(old(out)@) + mesh_cells(p, cs.take(i as int)).1.map_values(
                |e: (Cell, (int, int, int))| box_view(e, t@),
            ),
            mesh_laws(p, cs.take(i as int), mesh_cells(p, cs.take(i as int))),
    {
        let a = keys[i];
        let ghost c = key_cell(a);
        let ghost st = mesh_cells(p, cs.take(i as int));
        let ghost old_out = out@;
        proof {
            assert(cs.take(i + 1).drop_last() =~= cs.take(i as int));
            assert(cs.take(i + 1).last() == c);
            assert(p.contains(c)) by {
                assert(key_cell(keys@[i as int]) == c);
            }
        }
        if is_avail(keys, &flags, Ghost(used), a) {
            let (w, h, d) = grow_box(keys, &flags, Ghost(used), a);
            proof {
                lemma_greedy_dims(p, used, c, w as int, h as int, d as int);
                lemma_box_cells_avail(p, used, c, w as int, h as int, d as int);
                assert forall|q: Cell|
                    box_cells(c, w as int, h as int, d as int).contains(q) implies p.contains(q) by {
                    assert(avail(p, used, q));
                }
            }
            mark_box(keys, &mut flags, Ghost(used), a, w, h, d);
            let b = OptimizedBlock {
                x: a.2,
                y: a.0,
                z: a.1,
                width: w,
                height: h,
                depth: d,
                block_type: t.clone(),
            };
            out.push(b);
            proof {
                let e = (c, (w as int, h as int, d as int));
                let bx = box_cells(c, w as int, h as int, d as int);
                let st2 = mesh_cells(p, cs.take(i + 1));
                assert(st2.0 == used.union(bx));
                assert(st2.1 == st.1.push(e));
                assert(entry_cells(e) == bx);
                assert(b@ == box_view(e, t@));
                assert(out_views(out@) =~= out_views(old_out).push(b@));
                assert(st2.1.map_values(|e: (Cell, (int, int, int))| box_view(e, t@)) =~= st.1.map_values(
                    |e: (Cell, (int, int, int))| box_view(e, t@),
                ).push(box_view(e, t@)));
                // the new box is disjoint from the earlier ones
                assert forall|i1: int, j1: int, q: Cell|
                    0 <= i1 < j1 < st2.1.len() && #[trigger] entry_cells(st2.1[i1]).contains(q)
                        implies !#[trigger] entry_cells(st2.1[j1]).contains(q) by {
                    assert(st2.1[i1] == st.1[i1]);
                    assert(entry_cells(st.1[i1]).contains(q));
                    if j1 == st.1.len() {
                        assert(used.contains(q));
                        if bx.contains(q) {
                            assert(avail(p, used, q));
                        }
                        assert(st2.1[j1] == e);
                    } else {
                        assert(st2.1[j1] == st.1[j1]);
                    }
                }
                assert forall|q: Cell|
                    (exists|i1: int|
                        0 <= i1 < st2.1.len() && #[trigger] entry_cells(st2.1[i1]).contains(q))
                        implies st2.0.contains(q) by {
                    let i1 = choose|i1: int|
                        0 <= i1 < st2.1.len() && #[trigger] entry_cells(st2.1[i1]).contains(q);
                    if i1 < st.1.len() {
                        assert(entry_cells(st.1[i1]).contains(q));
                    }
                }
                assert forall|q: Cell|
                    st2.0.contains(q) implies exists|i1: int|
                        0 <= i1 < st2.1.len() && #[trigger] entry_cells(st2.1[i1]).contains(q) by {
                    if bx.contains(q) {
                        assert(entry_cells(st2.1[st.1.len() as int]).contains(q));
                    } else {
                        let i1 = choose|i1: int|
                            0 <= i1 < st.1.len() && #[trigger] entry_cells(st.1[i1]).contains(q);
                        assert(entry_cells(st2.1[i1]).contains(q));
                    }
                }
                assert forall|k: int| 0 <= k < i + 1 implies st2.0.contains(
                    #[trigger] cs.take(i + 1)[k],
                ) by {
                    if k < i {
                        assert(cs.take(i + 1)[k] == cs.take(i as int)[k]);
                    } else {
                        assert(bx.contains(c));
                    }
                }
                used = used.union(bx);
            }
        } else {
            proof {
                let st2 = mesh_cells(p, cs.take(i + 1));
                assert(used.contains(c));
                assert(st2 == st);
                assert forall|k: int| 0 <= k < i + 1 implies st2.0.contains(
                    #[trigger] cs.take(i + 1)[k],
                ) by {
                    if k < i {
                        assert(cs.take(i + 1)[k] == cs.take(i as int)[k]);
                    }
                }
            }
        }
    }
    proof {
        assert(cs.take(n as int) =~= cs);
    }
}

/// No coordinate is `i32::MAX`.
pub open spec fn blocks_below_max(blocks: Seq<VmfBlock>) -> bool {
    forall|i: int|
        0 <= i < blocks.len() ==> (#[trigger] blocks[i]).x < i32::MAX && blocks[i].y < i32::MAX
            && blocks[i].z < i32::MAX
}

pub open spec fn string_views(s: Seq<String>) -> Seq<Seq<char>> {
    s.map_values(|t: String| t@)
}

/// The indices of the blocks of type `t`.
pub open spec fn type_indices(blocks: Seq<VmfBlock>, t: Seq<char>) -> Set<int> {
    Set::new(|b: int| 0 <= b < blocks.len() && blocks[b].block_type@ == t)
}

proof fn lemma_block_types(blocks: Seq<VmfBlock>)
    ensures
        forall|i: int, j: int|
            0 <= i < j < block_types(blocks).len() ==> #[trigger] block_types(blocks)[i]
                != #[trigger] block_types(blocks)[j],
        forall|b: int|
            0 <= b < blocks.len() ==> block_types(blocks).contains(#[trigger] blocks[b].block_type@),
    decreases blocks.len(),
{
    if blocks.len() > 0 {
        let pre = blocks.drop_last();
        lemma_block_types(pre);
        let ts = block_types(pre);
        assert forall|b: int|
            0 <= b < blocks.len() implies block_types(blocks).contains(
                #[trigger] blocks[b].block_type@,
            ) by {
            if b < blocks.len() - 1 {
                assert(pre[b] == blocks[b]);
                assert(ts.contains(pre[b].block_type@));
                let m = choose|m: int| 0 <= m < ts.len() && ts[m] == pre[b].block_type@;
                assert(block_types(blocks)[m] == ts[m]);
            } else {
                if !ts.contains(blocks.last().block_type@) {
                    assert(block_types(blocks)[ts.len() as int] == blocks.last().block_type@);
                }
            }
        }
    }
}

/// The block types are those of the blocks.
proof fn lemma_block_types_from_blocks(blocks: Seq<VmfBlock>, t: Seq<char>)
    ensures
        block_types(blocks).contains(t) ==> exists|b: int|
            0 <= b < blocks.len() && (#[trigger] blocks[b]).block_type@ == t,
    decreases blocks.len(),
{
    if blocks.len() > 0 {
        let pre = blocks.drop_last();
        lemma_block_types_from_blocks(pre, t);
        if block_types(blocks).contains(t) {
            if block_types(pre).contains(t) {
                let b = choose|b: int| 0 <= b < pre.len() && (#[trigger] pre[b]).block_type@ == t;
                assert(blocks[b] == pre[b]);
            } else {
                assert(blocks[blocks.len() - 1].block_type@ == t);
            }
        }
    }
}

/// The boxes of type `t` in `s`, in order.
pub open spec fn boxes_of_type(s: Seq<BoxView>, t: Seq<char>) -> Seq<BoxView>
    decreases s.len(),
{
    if s.len() == 0 {
        Seq::empty()
    } else if s.last().block_type == t {
        boxes_of_type(s.drop_last(), t).push(s.last())
    } else {
        boxes_of_type(s.drop_last(), t)
    }
}

proof fn lemma_boxes_of_type_add(a: Seq<BoxView>, b: Seq<BoxView>, t: Seq<char>)
    ensures
        boxes_of_type(a + b, t) == boxes_of_type(a, t) + boxes_of_type(b, t),
    decreases b.len(),
{
    if b.len() == 0 {
        assert(a + b =~= a);
        assert(boxes_of_type(a, t) + boxes_of_type(b, t) =~= boxes_of_type(a, t));
    } else {
        lemma_boxes_of_type_add(a, b.drop_last(), t);
        assert((a + b).drop_last() =~= a + b.drop_last());
        assert((a + b).last() == b.last());
        assert(boxes_of_type(a, t) + boxes_of_type(b.drop_last(), t).push(b.last()) =~= (
        boxes_of_type(a, t) + boxes_of_type(b.drop_last(), t)).push(b.last()));
    }
}

proof fn lemma_boxes_of_one_type(s: Seq<BoxView>, u: Seq<char>, t: Seq<char>)
    requires
        forall|i: int| 0 <= i < s.len() ==> (#[trigger] s[i]).block_type == u,
    ensures
        boxes_of_type(s, t) == if u == t {
            s
        } else {
            Seq::<BoxView>::empty()
        },
    decreases s.len(),
{
    if s.len() > 0 {
        lemma_boxes_of_one_type(s.drop_last(), u, t);
        assert(s.last() == s[s.len() - 1]);
        assert(s.drop_last().push(s.last()) =~= s);
    }
}

proof fn lemma_boxes_of_mesh_types(blocks: Seq<VmfBlock>, ts: Seq<Seq<char>>, t: Seq<char>)
    requires
        forall|i: int, j: int| 0 <= i < j < ts.len() ==> #[trigger] ts[i] != #[trigger] ts[j],
    ensures
        boxes_of_type(mesh_types(blocks, ts), t) == if ts.contains(t) {
            mesh_of_type(blocks, t)
        } else {
            Seq::<BoxView>::empty()
        },
    decreases ts.len(),
{
    if ts.len() > 0 {
        let pre = ts.drop_last();
        let u = ts.last();
        lemma_boxes_of_mesh_types(blocks, pre, t);
        let m = mesh_of_type(blocks, u);
        assert forall|i: int| 0 <= i < m.len() implies (#[trigger] m[i]).block_type == u by {}
        lemma_boxes_of_one_type(m, u, t);
        lemma_boxes_of_type_add(mesh_types(blocks, pre), m, t);
        assert(ts.contains(t) == (pre.contains(t) || u == t)) by {
            if ts.contains(t) && !pre.contains(t) {
                let k = choose|k: int| 0 <= k < ts.len() && ts[k] == t;
                if k < ts.len() - 1 {
                    assert(pre[k] == t);
                }
            }
            if pre.contains(t) {
                let k = choose|k: int| 0 <= k < pre.len() && pre[k] == t;
                assert(ts[k] == t);
            }
            if u == t {
                assert(ts[ts.len() - 1] == t);
            }
        }
        if pre.contains(t) && u == t {
            let k = choose|k: int| 0 <= k < pre.len() && pre[k] == t;
            assert(ts[k] == ts[ts.len() - 1]);
        }
        assert(Seq::<BoxView>::empty() + mesh_of_type(blocks, t) =~= mesh_of_type(blocks, t));
        assert(mesh_of_type(blocks, t) + Seq::<BoxView>::empty() =~= mesh_of_type(blocks, t));
        assert(Seq::<BoxView>::empty() + Seq::<BoxView>::empty() =~= Seq::<BoxView>::empty());
    }
}

/// The boxes of a block type depend only on the positions that the type
/// occupies, not on the order of the blocks nor on blocks given twice: for two
/// block lists that put each type on the same positions, the boxes of each type
/// are the same, in the same order. (Only the order between types follows the
/// order of the blocks.)
pub proof fn lemma_optimize_order_free(b1: Seq<VmfBlock>, b2: Seq<VmfBlock>, t: Seq<char>)
    requires
        forall|u: Seq<char>| #[trigger] type_cells(b1, u) == type_cells(b2, u),
    ensures
        boxes_of_type(optimize_spec(b1), t) == boxes_of_type(optimize_spec(b2), t),
{
    lemma_block_types(b1);
    lemma_block_types(b2);
    lemma_boxes_of_mesh_types(b1, block_types(b1), t);
    lemma_boxes_of_mesh_types(b2, block_types(b2), t);
    lemma_block_types_from_blocks(b1, t);
    lemma_block_types_from_blocks(b2, t);
    assert(type_cells(b1, t) == type_cells(b2, t));
    if block_types(b1).contains(t) {
        let b = choose|b: int| 0 <= b < b1.len() && (#[trigger] b1[b]).block_type@ == t;
        assert(type_cells(b1, t).contains(block_cell(b1[b])));
        assert(type_cells(b2, t).contains(block_cell(b1[b])));
        let j = choose|j: int|
            0 <= j < b2.len() && (#[trigger] b2[j]).block_type@ == t && block_cell(b2[j]) == block_cell(
                b1[b],
            );
        assert(block_types(b2).contains(b2[j].block_type@));
    }
    if block_types(b2).contains(t) {
        let b = choose|b: int| 0 <= b < b2.len() && (#[trigger] b2[b]).block_type@ == t;
        assert(type_cells(b2, t).contains(block_cell(b2[b])));
        assert(type_cells(b1, t).contains(block_cell(b2[b])));
        let j = choose|j: int|
            0 <= j < b1.len() && (#[trigger] b1[j]).block_type@ == t && block_cell(b1[j]) == block_cell(
                b2[b],
            );
        assert(block_types(b1).contains(b1[j].block_type@));
    }
}

/// Reordering the blocks leaves the boxes of each type as they are: for two
/// block lists that are permutations of each other, the boxes of each type are
/// the same, in the same order, so the results are permutations of each other.
pub proof fn lemma_optimize_permutation(b1: Seq<VmfBlock>, b2: Seq<VmfBlock>, t: Seq<char>)
    requires
        b1.to_multiset() == b2.to_multiset(),
    ensures
        boxes_of_type(optimize_spec(b1), t) == boxes_of_type(optimize_spec(b2), t),
{
    broadcast use vstd::seq_lib::group_to_multiset_ensures;

    assert forall|u: Seq<char>| #[trigger] type_cells(b1, u) == type_cells(b2, u) by {
        assert forall|c: Cell| type_cells(b1, u).contains(c) implies type_cells(b2, u).contains(c) by {
            let i = choose|i: int|
                0 <= i < b1.len() && (#[trigger] b1[i]).block_type@ == u && block_cell(b1[i]) == c;
            assert(b1.contains(b1[i]));
            assert(b1.to_multiset().count(b1[i]) > 0);
            assert(b2.to_multiset().count(b1[i]) > 0);
            assert(b2.contains(b1[i]));
            let j = choose|j: int| 0 <= j < b2.len() && b2[j] == b1[i];
            assert(b2[j].block_type@ == u && block_cell(b2[j]) == c);
        }
        assert forall|c: Cell| type_cells(b2, u).contains(c) implies type_cells(b1, u).contains(c) by {
            let i = choose|i: int|
                0 <= i < b2.len() && (#[trigger] b2[i]).block_type@ == u && block_cell(b2[i]) == c;
            assert(b2.contains(b2[i]));
            assert(b2.to_multiset().count(b2[i]) > 0);
            assert(b1.to_multiset().count(b2[i]) > 0);
            assert(b1.contains(b2[i]));
            let j = choose|j: int| 0 <= j < b1.len() && b1[j] == b2[i];
            assert(b1[j].block_type@ == u && block_cell(b1[j]) == c);
        }
        assert(type_cells(b1, u) =~= type_cells(b2, u));
    }
    lemma_optimize_order_free(b1, b2, t);
}

/// A box occurs as often in a list as among the boxes of its type.
proof fn lemma_count_by_type(s: Seq<BoxView>, v: BoxView)
    ensures
        s.to_multiset().count(v) == boxes_of_type(s, v.block_type).to_multiset().count(v),
    decreases s.len(),
{
    broadcast use vstd::seq_lib::group_to_multiset_ensures;

    let t = v.block_type;
    if s.len() == 0 {
        assert(s.to_multiset() =~= vstd::multiset::Multiset::empty());
        assert(boxes_of_type(s, t).to_multiset() =~= vstd::multiset::Multiset::empty());
    } else {
        let pre = s.drop_last();
        lemma_count_by_type(pre, v);
        assert(s =~= pre.push(s.last()));
        assert(s.to_multiset() =~= pre.to_multiset().insert(s.last()));
        if s.last().block_type == t {
            assert(boxes_of_type(s, t).to_multiset() =~= boxes_of_type(pre, t).to_multiset().insert(
                s.last(),
            ));
        } else {
            assert(s.last() != v);
        }
    }
}

/// Reordering the blocks reorders the boxes: for two block lists that are
/// permutations of each other, the results of meshing are permutations of each
/// other (only the order between block types may differ).
pub proof fn lemma_optimize_permutation_whole(b1: Seq<VmfBlock>, b2: Seq<VmfBlock>)
    requires
        b1.to_multiset() == b2.to_multiset(),
    ensures
        optimize_spec(b1).to_multiset() == optimize_spec(b2).to_multiset(),
{
    assert forall|v: BoxView| optimize_spec(b1).to_multiset().count(v) == optimize_spec(
        b2,
    ).to_multiset().count(v) by {
        lemma_optimize_permutation(b1, b2, v.block_type);
        lemma_count_by_type(optimize_spec(b1), v);
        lemma_count_by_type(optimize_spec(b2), v);
    }
    assert(optimize_spec(b1).to_multiset() =~= optimize_spec(b2).to_multiset());
}

/// The distinct block types, in the order in which they first occur.
fn distinct_types(blocks: &Vec<VmfBlock>) -> (r: Vec<String>)
    ensures
        string_views(r@) == block_types(blocks@),
{
    let mut r: Vec<String> = Vec::new();
    let n = blocks.len();
    for i in 0..n
        invariant
            n == blocks.len(),
            string_views(r@) == block_types(blocks@.take(i as int)),
    {
        let t = &blocks[i].block_type;
        let mut found = false;
        let mut k: usize = 0;
        while k < r.len()
            invariant
                0 <= k <= r.len(),
                found == exists|m: int| 0 <= m < k && (#[trigger] r@[m])@ == t@,
            decreases r.len() - k,
        {
            if r[k] == *t {
                found = true;
            }
            k = k + 1;
        }
        proof {
            assert(blocks@.take(i + 1).drop_last() =~= blocks@.take(i as int));
            assert(blocks@.take(i + 1).last() == blocks@[i as int]);
            let ts = block_types(blocks@.take(i as int));
            if found {
                let m = choose|m: int| 0 <= m < r.len() && (#[trigger] r@[m])@ == t@;
                assert(string_views(r@)[m] == t@);
                assert(ts.contains(t@));
            } else {
                if ts.contains(t@) {
                    let m = choose|m: int| 0 <= m < ts.len() && ts[m] == t@;
                    assert(string_views(r@)[m] == r@[m]@);
                }
            }
        }
        if !found {
            let ghost old_r = r@;
            r.push(t.clone());
            proof {
                assert(string_views(r@) =~= string_views(old_r).push(t@));
            }
        }
    }
    proof {
        assert(blocks@.take(n as int) =~= blocks@);
    }
    r
}

/// The positions of the blocks of type `t`, as sort keys, in block order.
fn type_keys(blocks: &Vec<VmfBlock>, t: &String) -> (r: Vec<(i32, i32, i32)>)
    requires
        blocks_below_max(blocks@),
    ensures
        forall|m: int|
            0 <= m < r.len() ==> type_cells(blocks@, t@).contains(key_cell(#[trigger] r@[m])),
        forall|c: Cell|
            type_cells(blocks@, t@).contains(c) ==> exists|m: int|
                0 <= m < r.len() && key_cell(#[trigger] r@[m]) == c,
        type_indices(blocks@, t@).finite(),
        type_indices(blocks@, t@).len() == r.len(),
        keys_below_max(r@),
{
    let mut r: Vec<(i32, i32, i32)> = Vec::new();
    let n = blocks.len();
    let ghost mut idx: Set<int> = Set::empty();
    for j in 0..n
        invariant
            n == blocks.len(),
            forall|m: int|
                0 <= m < r.len() ==> type_cells(blocks@, t@).contains(key_cell(#[trigger] r@[m])),
            forall|b: int|
                0 <= b < j && (#[trigger] blocks@[b]).block_type@ == t@ ==> exists|m: int|
                    0 <= m < r.len() && key_cell(#[trigger] r@[m]) == block_cell(blocks@[b]),
            blocks_below_max(blocks@),
            keys_below_max(r@),
            idx == Set::new(|b: int| 0 <= b < j && blocks@[b].block_type@ == t@),
            idx.finite(),
            idx.len() == r.len(),
    {
        let b = &blocks[j];
        let ghost old_r = r@;
        if b.block_type == *t {
            r.push((b.y, b.z, b.x));
            proof {
                assert(type_cells(blocks@, t@).contains(block_cell(blocks@[j as int])));
                assert(key_cell(r@[r.len() - 1]) == block_cell(blocks@[j as int]));
                assert forall|b2: int|
                    0 <= b2 < j + 1 && (#[trigger] blocks@[b2]).block_type@ == t@ implies exists|m: int|
                        0 <= m < r.len() && key_cell(#[trigger] r@[m]) == block_cell(blocks@[b2]) by {
                    if b2 < j {
                        let m = choose|m: int|
                            0 <= m < old_r.len() && key_cell(#[trigger] old_r[m]) == block_cell(
                                blocks@[b2],
                            );
                        assert(r@[m] == old_r[m]);
                    } else {
                        assert(key_cell(r@[r.len() - 1]) == block_cell(blocks@[b2]));
                    }
                }
                let idx2 = idx.insert(j as int);
                assert(!idx.contains(j as int));
                assert(idx2 =~= Set::new(
                    |b2: int| 0 <= b2 < j + 1 && blocks@[b2].block_type@ == t@,
                ));
                idx = idx2;
            }
        } else {
            proof {
                assert(idx =~= Set::new(
                    |b2: int| 0 <= b2 < j + 1 && blocks@[b2].block_type@ == t@,
                ));
            }
        }
    }
    proof {
        assert(idx =~= type_indices(blocks@, t@));
        assert forall|c: Cell| type_cells(blocks@, t@).contains(c) implies exists|m: int|
            0 <= m < r.len() && key_cell(#[trigger] r@[m]) == c by {
            let b = choose|b: int|
                0 <= b < blocks.len() && (#[trigger] blocks@[b]).block_type@ == t@ && block_cell(
                    blocks@[b],
                ) == c;
            assert(blocks@[b].block_type@ == t@);
        }
    }
    r
}

/// The deduplicated, sorted keys of a type are exactly its ordered positions.
proof fn lemma_keys_order(
    p: Set<Cell>,
    before: Seq<(i32, i32, i32)>,
    sorted: Seq<(i32, i32, i32)>,
    dd: Seq<(i32, i32, i32)>,
)
    requires
        forall|m: int| 0 <= m < before.len() ==> p.contains(key_cell(#[trigger] before[m])),
        forall|c: Cell|
            p.contains(c) ==> exists|m: int| 0 <= m < before.len() && key_cell(#[trigger] before[m]) == c,
        sorted.to_multiset() == before.to_multiset(),
        keys_strict(dd),
        forall|j: int| 0 <= j < dd.len() ==> sorted.contains(#[trigger] dd[j]),
        forall|j: int| 0 <= j < sorted.len() ==> dd.contains(#[trigger] sorted[j]),
    ensures
        key_set(dd) == p,
        key_cells(dd) == ordered_cells(p),
        forall|c: Cell| ordered_cells(p).contains(c) <==> p.contains(c),
{
    let kc = key_cells(dd);
    assert forall|c: Cell| kc.contains(c) <==> p.contains(c) by {
        if kc.contains(c) {
            let j = choose|j: int| 0 <= j < kc.len() && kc[j] == c;
            assert(sorted.contains(dd[j]));
            assert(sorted.to_multiset().count(dd[j]) > 0);
            assert(before.contains(dd[j]));
            let m = choose|m: int| 0 <= m < before.len() && before[m] == dd[j];
            assert(p.contains(key_cell(before[m])));
        }
        if p.contains(c) {
            let m = choose|m: int| 0 <= m < before.len() && key_cell(#[trigger] before[m]) == c;
            assert(before.contains(before[m]));
            assert(before.to_multiset().count(before[m]) > 0);
            assert(sorted.contains(before[m]));
            let i = choose|i: int| 0 <= i < sorted.len() && sorted[i] == before[m];
            assert(dd.contains(sorted[i]));
            let j = choose|j: int| 0 <= j < dd.len() && dd[j] == sorted[i];
            assert(kc[j] == c);
        }
    }
    assert(cells_sorted(kc)) by {
        assert forall|i: int, j: int| 0 <= i < j < kc.len() implies cell_lt(
            #[trigger] kc[i],
            #[trigger] kc[j],
        ) by {
            assert(cell_lt(key_cell(dd[i]), key_cell(dd[j])));
        }
    }
    let o = ordered_cells(p);
    assert(cells_sorted(o) && (forall|c: Cell| o.contains(c) <==> p.contains(c)));
    lemma_sorted_unique(kc, o);
    assert forall|c: Cell| key_set(dd).contains(c) <==> p.contains(c) by {
        if key_set(dd).contains(c) {
            let j = choose|j: int| 0 <= j < dd.len() && key_cell(#[trigger] dd[j]) == c;
            assert(kc[j] == c);
        }
        if p.contains(c) {
            assert(kc.contains(c));
            let j = choose|j: int| 0 <= j < kc.len() && kc[j] == c;
            assert(key_cell(dd[j]) == c);
        }
    }
    assert(key_set(dd) =~= p);
}

/// Greedy meshing: merges neighbouring blocks of one type into boxes.
///
/// Blocks are grouped by type, the groups taken in the order in which their
/// type first occurs; within a group the positions are visited by y, then z,
/// then x, and from each position not yet in a box a box is grown along x,
/// then y, then z, over positions of the type that are in no box yet.
/// The boxes of a type cover exactly its positions, without overlap, and there
/// are never more boxes than blocks.
pub fn optimize_blocks(blocks: Vec<VmfBlock>) -> (r: Vec<OptimizedBlock>)
    requires
        blocks.len() <= i32::MAX,
        blocks_below_max(blocks@),
    ensures
        out_views(r@) == optimize_spec(blocks@),
        forall|i: int|
            0 <= i < r.len() ==> (#[trigger] r@[i]).width >= 1 && r@[i].height >= 1 && r@[i].depth
                >= 1,
        forall|i: int, q: Cell|
            0 <= i < r.len() && #[trigger] view_cells(r@[i]@).contains(q) ==> type_cells(
                blocks@,
                r@[i].block_type@,
            ).contains(q),
        forall|i: int, j: int, q: Cell|
            0 <= i < j < r.len() && r@[i].block_type@ == r@[j].block_type@
                && #[trigger] view_cells(r@[i]@).contains(q) ==> !(#[trigger] view_cells(
                r@[j]@,
            ).contains(q)),
        forall|b: int|
            0 <= b < blocks.len() ==> exists|i: int|
                0 <= i < r.len() && r@[i].block_type@ == (#[trigger] blocks@[b]).block_type@
                    && view_cells(r@[i]@).contains(block_cell(blocks@[b])),
        r.len() <= blocks.len(),
{
    let types = distinct_types(&blocks);
    let ghost tv = block_types(blocks@);
    let ghost n = blocks.len() as int;
    proof {
        lemma_block_types(blocks@);
        assert(tv.take(0) =~= Seq::<Seq<char>>::empty());
        assert(out_views(Seq::<OptimizedBlock>::empty()) =~= Seq::<BoxView>::empty());
        assert(Set::<int>::empty() =~= Set::new(
            |b: int| 0 <= b < n && exists|m: int| 0 <= m < 0 && blocks@[b].block_type@ == tv[m],
        ));
    }
    let mut out: Vec<OptimizedBlock> = Vec::new();
    let ghost mut seen: Set<int> = Set::empty();
    let nt = types.len();
    for k in 0..nt
        invariant
            nt == types.len(),
            n == blocks.len(),
            blocks.len() <= i32::MAX,
            blocks_below_max(blocks@),
            string_views(types@) == tv,
            tv == block_types(blocks@),
            forall|i: int, j: int| 0 <= i < j < tv.len() ==> #[trigger] tv[i] != #[trigger] tv[j],
            forall|b: int| 0 <= b < blocks.len() ==> tv.contains(#[trigger] blocks@[b].block_type@),
            out_views(out@) == mesh_types(blocks@, tv.take(k as int)),
            forall|i: int|
                0 <= i < out.len() ==> exists|m: int|
                    0 <= m < k && (#[trigger] out@[i]).block_type@ == tv[m],
            forall|i: int|
                0 <= i < out.len() ==> (#[trigger] out@[i]).width >= 1 && out@[i].height >= 1
                    && out@[i].depth >= 1,
            forall|i: int, q: Cell|
                0 <= i < out.len() && #[trigger] view_cells(out@[i]@).contains(q) ==> type_cells(
                    blocks@,
                    out@[i].block_type@,
                ).contains(q),
            forall|i: int, j: int, q: Cell|
                0 <= i < j < out.len() && out@[i].block_type@ == out@[j].block_type@
                    && #[trigger] view_cells(out@[i]@).contains(q) ==> !(#[trigger] view_cells(
                    out@[j]@,
                ).contains(q)),
            forall|b: int|
                0 <= b < blocks.len() && (exists|m: int|
                    0 <= m < k && (#[trigger] blocks@[b]).block_type@ == tv[m]) ==> exists|i: int|
                    0 <= i < out.len() && out@[i].block_type@ == blocks@[b].block_type@
                        && view_cells(out@[i]@).contains(block_cell(blocks@[b])),
            seen == Set::new(
                |b: int| 0 <= b < n && exists|m: int| 0 <= m < k && blocks@[b].block_type@ == tv[m],
            ),
            seen.finite(),
            out.len() <= seen.len(),
    {
        let t = &types[k];
        let mut keys = type_keys(&blocks, t);
        let ghost keys0 = keys@;
        sort_keys(&mut keys);
        let dd = dedup_sorted(&keys);
        let ghost p = type_cells(blocks@, t@);
        proof {
            lemma_keys_order(p, keys0, keys@, dd@);
            assert(t@ == tv[k as int]);
            assert(keys_below_max(dd@)) by {
                assert forall|j: int| 0 <= j < dd.len() implies (#[trigger] dd@[j]).0 < i32::MAX
                    && dd@[j].1 < i32::MAX && dd@[j].2 < i32::MAX by {
                    assert(keys@.contains(dd@[j]));
                    assert(keys@.to_multiset().count(dd@[j]) > 0);
                    assert(keys0.contains(dd@[j]));
                    let m = choose|m: int| 0 <= m < keys0.len() && keys0[m] == dd@[j];
                    assert(keys_below_max(keys0) ==> keys0[m].0 < i32::MAX);
                }
            }
            assert(keys@.to_multiset().len() == keys0.to_multiset().len());
            assert(keys@.len() == keys0.len());
            lemma_len_subset_indices(blocks@, t@);
            vstd::set_lib::lemma_int_range(0, n);
            vstd::set_lib::lemma_len_subset(
                type_indices(blocks@, t@),
                vstd::set_lib::set_int_range(0, n),
            );
        }
        let ghost old_out = out@;
        mesh_type(t, &dd, &mut out);
        proof {
            let ms = mesh_cells(p, ordered_cells(p));
            let seg = ms.1.map_values(|e: (Cell, (int, int, int))| box_view(e, t@));
            let ol = old_out.len() as int;
            assert(mesh_of_type(blocks@, t@) == seg);
            assert(tv.take(k + 1).drop_last() =~= tv.take(k as int));
            assert(tv.take(k + 1).last() == t@);
            assert(out_views(out@) == out_views(old_out) + seg);
            assert(out_views(out@).len() == out@.len());
            assert(out_views(old_out).len() == old_out.len());
            assert(out.len() == ol + ms.1.len());
            assert forall|i: int| ol <= i < out.len() implies (#[trigger] out@[i])@ == box_view(
                ms.1[i - ol],
                t@,
            ) by {
                assert(out_views(out@)[i] == seg[i - ol]);
            }
            assert forall|i: int| 0 <= i < ol implies (#[trigger] out@[i])@ == old_out[i]@ by {
                assert(out_views(out@)[i] == out_views(old_out)[i]);
            }
            // the laws, box by box
            assert forall|i: int| 0 <= i < out.len() implies exists|m: int|
                0 <= m < k + 1 && (#[trigger] out@[i]).block_type@ == tv[m] by {
                if i < ol {
                    assert(out@[i]@ == old_out[i]@);
                } else {
                    assert(out@[i]@ == box_view(ms.1[i - ol], t@));
                }
            }
            assert forall|i: int| 0 <= i < out.len() implies (#[trigger] out@[i]).width >= 1
                && out@[i].height >= 1 && out@[i].depth >= 1 by {
                if i >= ol {
                    assert(out@[i]@ == box_view(ms.1[i - ol], t@));
                    assert(ms.1[i - ol].1.0 >= 1);
                } else {
                    assert(out@[i]@ == old_out[i]@);
                }
            }
            assert forall|i: int, q: Cell|
                0 <= i < out.len() && #[trigger] view_cells(out@[i]@).contains(q) implies type_cells(
                    blocks@,
                    out@[i].block_type@,
                ).contains(q) by {
                if i >= ol {
                    assert(out@[i]@ == box_view(ms.1[i - ol], t@));
                    assert(view_cells(out@[i]@) == entry_cells(ms.1[i - ol]));
                    assert(entry_cells(ms.1[i - ol]).contains(q));
                } else {
                    assert(out@[i]@ == old_out[i]@);
                }
            }
            assert forall|i: int, j: int, q: Cell|
                0 <= i < j < out.len() && out@[i].block_type@ == out@[j].block_type@
                    && #[trigger] view_cells(out@[i]@).contains(q) implies !(#[trigger] view_cells(
                    out@[j]@,
                ).contains(q)) by {
                if j < ol {
                    assert(out@[i]@ == old_out[i]@);
                    assert(out@[j]@ == old_out[j]@);
                } else if i < ol {
                    assert(out@[i]@ == old_out[i]@);
                    let m = choose|m: int| 0 <= m < k && old_out[i].block_type@ == tv[m];
                    assert(out@[j]@ == box_view(ms.1[j - ol], t@));
                    assert(tv[m] != tv[k as int]);
                } else {
                    assert(out@[i]@ == box_view(ms.1[i - ol], t@));
                    assert(out@[j]@ == box_view(ms.1[j - ol], t@));
                    assert(view_cells(out@[i]@) == entry_cells(ms.1[i - ol]));
                    assert(view_cells(out@[j]@) == entry_cells(ms.1[j - ol]));
                    assert(entry_cells(ms.1[i - ol]).contains(q));
                }
            }
            assert forall|b: int|
                0 <= b < blocks.len() && (exists|m: int|
                    0 <= m < k + 1 && (#[trigger] blocks@[b]).block_type@ == tv[m]) implies exists|i: int|
                    0 <= i < out.len() && out@[i].block_type@ == blocks@[b].block_type@
                        && view_cells(out@[i]@).contains(block_cell(blocks@[b])) by {
                if exists|m: int| 0 <= m < k && (#[trigger] blocks@[b]).block_type@ == tv[m] {
                    let i = choose|i: int|
                        0 <= i < old_out.len() && old_out[i].block_type@ == blocks@[b].block_type@
                            && view_cells(old_out[i]@).contains(block_cell(blocks@[b]));
                    assert(out@[i]@ == old_out[i]@);
                } else {
                    let c = block_cell(blocks@[b]);
                    assert(blocks@[b].block_type@ == t@);
                    assert(p.contains(c));
                    let oc = ordered_cells(p);
                    assert(oc.contains(c));
                    let kk = choose|kk: int| 0 <= kk < oc.len() && oc[kk] == c;
                    assert(ms.0.contains(oc[kk]));
                    let m = choose|m: int| 0 <= m < ms.1.len() && #[trigger] entry_cells(ms.1[m]).contains(c);
                    assert(out@[ol + m]@ == box_view(ms.1[(ol + m) - ol], t@));
                    assert(view_cells(out@[ol + m]@) == entry_cells(ms.1[m]));
                }
            }
            // counting
            let ti = type_indices(blocks@, t@);
            let seen2 = Set::new(
                |b: int| 0 <= b < n && exists|m: int| 0 <= m < k + 1 && blocks@[b].block_type@ == tv[m],
            );
            assert(seen.disjoint(ti)) by {
                assert forall|b: int| seen.contains(b) implies !ti.contains(b) by {
                    let m = choose|m: int| 0 <= m < k && blocks@[b].block_type@ == tv[m];
                    assert(tv[m] != tv[k as int]);
                }
            }
            assert(seen2 =~= seen + ti) by {
                assert forall|b: int| seen2.contains(b) implies (seen + ti).contains(b) by {
                    let m = choose|m: int| 0 <= m < k + 1 && blocks@[b].block_type@ == tv[m];
                    if m < k {
                        assert(seen.contains(b));
                    }
                }
                assert forall|b: int| (seen + ti).contains(b) implies seen2.contains(b) by {
                    if ti.contains(b) {
                        assert(blocks@[b].block_type@ == tv[k as int]);
                    }
                }
            }
            vstd::set_lib::lemma_set_disjoint_lens(seen, ti);
            seen = seen2;
        }
    }
    proof {
        assert(tv.take(nt as int) =~= tv);
        assert(seen.subset_of(vstd::set_lib::set_int_range(0, n)));
        vstd::set_lib::lemma_int_range(0, n);
        vstd::set_lib::lemma_len_subset(seen, vstd::set_lib::set_int_range(0, n));
        assert forall|b: int| 0 <= b < blocks.len() implies exists|m: int|
            0 <= m < nt && (#[trigger] blocks@[b]).block_type@ == tv[m] by {
            assert(tv.contains(blocks@[b].block_type@));
        }
    }
    out
}

proof fn lemma_len_subset_indices(blocks: Seq<VmfBlock>, t: Seq<char>)
    ensures
        type_indices(blocks, t).subset_of(vstd::set_lib::set_int_range(0, blocks.len() as int)),
{
}

} // verus!
