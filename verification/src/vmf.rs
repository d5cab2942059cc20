//! Source engine brushes (solids) and their text in a VMF file.
use vstd::prelude::*;
use crate::material::{get_material_for_side, material_spec, BlockSide, MaterialTable, MaterialView};
use crate::mesh::{BoxView, OptimizedBlock, VmfBlock};
use crate::text::{append_str, int_decimal, nat_decimal, push_char, push_int, push_nat};

verus! {

/// One face of a brush.
pub struct VmfSide {
    pub id: u32,
    pub plane: String,
    pub material: String,
    pub uaxis: String,
    pub vaxis: String,
    pub rotation: String,
    pub lightmapscale: String,
    pub smoothing_groups: String,
}

/// A brush: six faces.
pub struct VmfSolid {
    pub id: u32,
    pub sides: Vec<VmfSide>,
}

pub struct SideView {
    pub id: int,
    pub plane: Seq<char>,
    pub material: Seq<char>,
    pub uaxis: Seq<char>,
    pub vaxis: Seq<char>,
    pub rotation: Seq<char>,
    pub lightmapscale: Seq<char>,
    pub smoothing_groups: Seq<char>,
}

pub struct SolidView {
    pub id: int,
    pub sides: Seq<SideView>,
}

impl View for VmfSide {
    type V = SideView;

    open spec fn view(&self) -> SideView {
        SideView {
            id: self.id as int,
            plane: self.plane@,
            material: self.material@,
            uaxis: self.uaxis@,
            vaxis: self.vaxis@,
            rotation: self.rotation@,
            lightmapscale: self.lightmapscale@,
            smoothing_groups: self.smoothing_groups@,
        }
    }
}

impl View for VmfSolid {
    type V = SolidView;

    open spec fn view(&self) -> SolidView {
        SolidView { id: self.id as int, sides: self.sides@.map_values(|s: VmfSide| s@) }
    }
}

/// Hands out object ids: 1, 2, 3, ... in turn.
pub struct IdAllocator {
    pub next: u32,
}

impl IdAllocator {
    pub fn new() -> (r: Self)
        ensures
            r.next == 1,
    {
        IdAllocator { next: 1 }
    }

    /// The next id.
    pub fn next_id(&mut self) -> (r: u32)
        requires
            old(self).next < u32::MAX,
        ensures
            r == old(self).next,
            final(self).next == old(self).next + 1,
    {
        let id = self.next;
        self.next = self.next + 1;
        id
    }
}

// ---------------------------------------------------------------------------
// Brushes
// ---------------------------------------------------------------------------

pub open spec fn fits_i32(v: int) -> bool {
    i32::MIN <= v <= i32::MAX
}

/// The world coordinates of a box, in units, fit in `i32`.
pub open spec fn box_fits(b: BoxView, block_size: int) -> bool {
    &&& fits_i32(b.x * block_size)
    &&& fits_i32(b.width * block_size)
    &&& fits_i32(b.x * block_size + b.width * block_size)
    &&& fits_i32(b.z * block_size)
    &&& fits_i32(b.depth * block_size)
    &&& fits_i32(b.z * block_size + b.depth * block_size)
    &&& fits_i32(b.y * block_size)
    &&& fits_i32(b.height * block_size)
    &&& fits_i32(b.y * block_size + b.height * block_size)
}

pub open spec fn point_text(p: (int, int, int)) -> Seq<char> {
    seq!['('] + int_decimal(p.0) + seq![' '] + int_decimal(p.1) + seq![' '] + int_decimal(p.2)
        + seq![')']
}

/// A plane through three points: `(x y z) (x y z) (x y z)`.
pub open spec fn plane_text(a: (int, int, int), b: (int, int, int), c: (int, int, int)) -> Seq<char> {
    point_text(a) + seq![' '] + point_text(b) + seq![' '] + point_text(c)
}

pub open spec fn side_view(
    id: int,
    plane: Seq<char>,
    material: Seq<char>,
    uaxis: Seq<char>,
    vaxis: Seq<char>,
) -> SideView {
    SideView {
        id,
        plane,
        material,
        uaxis,
        vaxis,
        rotation: "0"@,
        lightmapscale: "16"@,
        smoothing_groups: "0"@,
    }
}

/// The brush of a box, Minecraft's y axis becoming the Source z axis. Its id
/// is `first_id` and its faces (top, bottom, north, south, east, west) take
/// the next six ids; `scale` is the texture scale written after each axis.
pub open spec fn solid_spec(
    b: BoxView,
    block_size: int,
    config: Seq<(Seq<char>, MaterialView)>,
    scale: Seq<char>,
    first_id: int,
) -> SolidView {
    let x1 = b.x * block_size;
    let x2 = x1 + b.width * block_size;
    let y1 = b.z * block_size;
    let y2 = y1 + b.depth * block_size;
    let z1 = b.y * block_size;
    let z2 = z1 + b.height * block_size;
    let t = b.block_type;
    SolidView {
        id: first_id,
        sides: seq![
            side_view(
                first_id + 1,
                plane_text((x1, y2, z2), (x2, y2, z2), (x2, y1, z2)),
                material_spec(t, BlockSide::Top, config),
                "[1 0 0 0] "@ + scale,
                "[0 -1 0 0] "@ + scale,
            ),
            side_view(
                first_id + 2,
                plane_text((x1, y1, z1), (x2, y1, z1), (x2, y2, z1)),
                material_spec(t, BlockSide::Bottom, config),
                "[1 0 0 0] "@ + scale,
                "[0 -1 0 0] "@ + scale,
            ),
            side_view(
                first_id + 3,
                plane_text((x1, y2, z2), (x1, y2, z1), (x2, y2, z1)),
                material_spec(t, BlockSide::North, config),
                "[1 0 0 0] "@ + scale,
                "[0 0 -1 0] "@ + scale,
            ),
            side_view(
                first_id + 4,
                plane_text((x1, y1, z1), (x1, y1, z2), (x2, y1, z2)),
                material_spec(t, BlockSide::South, config),
                "[-1 0 0 0] "@ + scale,
                "[0 0 -1 0] "@ + scale,
            ),
            side_view(
                first_id + 5,
                plane_text((x2, y2, z2), (x2, y2, z1), (x2, y1, z1)),
                material_spec(t, BlockSide::East, config),
                "[0 1 0 0] "@ + scale,
                "[0 0 -1 0] "@ + scale,
            ),
            side_view(
                first_id + 6,
                plane_text((x1, y1, z1), (x1, y2, z1), (x1, y2, z2)),
                material_spec(t, BlockSide::West, config),
                "[0 -1 0 0] "@ + scale,
                "[0 0 -1 0] "@ + scale,
            ),
        ],
    }
}

fn push_point(s: &mut String, x: i32, y: i32, z: i32)
    ensures
        final(s)@ == old(s)@ + point_text((x as int, y as int, z as int)),
{
    push_char(s, '(');
    push_int(s, x as i64);
    push_char(s, ' ');
    push_int(s, y as i64);
    push_char(s, ' ');
    push_int(s, z as i64);
    push_char(s, ')');
    proof {
        assert(final(s)@ =~= old(s)@ + point_text((x as int, y as int, z as int)));
    }
}

fn plane(a: (i32, i32, i32), b: (i32, i32, i32), c: (i32, i32, i32)) -> (r: String)
    ensures
        r@ == plane_text(
            (a.0 as int, a.1 as int, a.2 as int),
            (b.0 as int, b.1 as int, b.2 as int),
            (c.0 as int, c.1 as int, c.2 as int),
        ),
{
    let mut s = String::new();
    push_point(&mut s, a.0, a.1, a.2);
    push_char(&mut s, ' ');
    push_point(&mut s, b.0, b.1, b.2);
    push_char(&mut s, ' ');
    push_point(&mut s, c.0, c.1, c.2);
    proof {
        assert(s@ =~= plane_text(
            (a.0 as int, a.1 as int, a.2 as int),
            (b.0 as int, b.1 as int, b.2 as int),
            (c.0 as int, c.1 as int, c.2 as int),
        ));
    }
    s
}

fn axis(head: &str, scale: &str) -> (r: String)
    ensures
        r@ == head@ + scale@,
{
    let mut s = head.to_owned();
    append_str(&mut s, scale);
    s
}

fn make_side(
    ids: &mut IdAllocator,
    plane: String,
    material: String,
    uaxis: String,
    vaxis: String,
) -> (r: VmfSide)
    requires
        old(ids).next < u32::MAX,
    ensures
        r@ == side_view(old(ids).next as int, plane@, material@, uaxis@, vaxis@),
        final(ids).next == old(ids).next + 1,
{
    VmfSide {
        id: ids.next_id(),
        plane,
        material,
        uaxis,
        vaxis,
        rotation: "0".to_owned(),
        lightmapscale: "16".to_owned(),
        smoothing_groups: "0".to_owned(),
    }
}

/// The brush of a box; it takes seven ids from `ids`.
pub fn create_optimized_solid(
    block: &OptimizedBlock,
    block_size: i32,
    config: &MaterialTable,
    scale: &str,
    ids: &mut IdAllocator,
) -> (r: VmfSolid)
    requires
        old(ids).next + 7 <= u32::MAX,
        box_fits(block@, block_size as int),
    ensures
        r@ == solid_spec(block@, block_size as int, config@, scale@, old(ids).next as int),
        final(ids).next == old(ids).next + 7,
{
    let solid_id = ids.next_id();
    let name = block.block_type.as_str();
    let top_material = get_material_for_side(name, BlockSide::Top, config);
    let bottom_material = get_material_for_side(name, BlockSide::Bottom, config);
    let north_material = get_material_for_side(name, BlockSide::North, config);
    let south_material = get_material_for_side(name, BlockSide::South, config);
    let east_material = get_material_for_side(name, BlockSide::East, config);
    let west_material = get_material_for_side(name, BlockSide::West, config);

    let x1 = block.x * block_size;
    let x2 = x1 + block.width * block_size;
    let y1 = block.z * block_size;
    let y2 = y1 + block.depth * block_size;
    let z1 = block.y * block_size;
    let z2 = z1 + block.height * block_size;

    let s_top = make_side(
        ids,
        plane((x1, y2, z2), (x2, y2, z2), (x2, y1, z2)),
        top_material,
        axis("[1 0 0 0] ", scale),
        axis("[0 -1 0 0] ", scale),
    );
    let s_bottom = make_side(
        ids,
        plane((x1, y1, z1), (x2, y1, z1), (x2, y2, z1)),
        bottom_material,
        axis("[1 0 0 0] ", scale),
        axis("[0 -1 0 0] ", scale),
    );
    let s_north = make_side(
        ids,
        plane((x1, y2, z2), (x1, y2, z1), (x2, y2, z1)),
        north_material,
        axis("[1 0 0 0] ", scale),
        axis("[0 0 -1 0] ", scale),
    );
    let s_south = make_side(
        ids,
        plane((x1, y1, z1), (x1, y1, z2), (x2, y1, z2)),
        south_material,
        axis("[-1 0 0 0] ", scale),
        axis("[0 0 -1 0] ", scale),
    );
    let s_east = make_side(
        ids,
        plane((x2, y2, z2), (x2, y2, z1), (x2, y1, z1)),
        east_material,
        axis("[0 1 0 0] ", scale),
        axis("[0 0 -1 0] ", scale),
    );
    let s_west = make_side(
        ids,
        plane((x1, y1, z1), (x1, y2, z1), (x1, y2, z2)),
        west_material,
        axis("[0 -1 0 0] ", scale),
        axis("[0 0 -1 0] ", scale),
    );
    let sides = vec![s_top, s_bottom, s_north, s_south, s_east, s_west];
    let r = VmfSolid { id: solid_id, sides };
    proof {
        let sp = solid_spec(block@, block_size as int, config@, scale@, old(ids).next as int);
        assert(r@.sides =~= sp.sides);
        assert(r@.id == sp.id);
    }
    r
}

pub open spec fn unit_box(b: VmfBlock) -> BoxView {
    BoxView {
        x: b.x as int,
        y: b.y as int,
        z: b.z as int,
        width: 1,
        height: 1,
        depth: 1,
        block_type: b.block_type@,
    }
}

/// The brush of a single block; it takes seven ids from `ids`.
pub fn create_cube_solid(
    block: &VmfBlock,
    block_size: i32,
    config: &MaterialTable,
    scale: &str,
    ids: &mut IdAllocator,
) -> (r: VmfSolid)
    requires
        old(ids).next + 7 <= u32::MAX,
        box_fits(unit_box(*block), block_size as int),
    ensures
        r@ == solid_spec(unit_box(*block), block_size as int, config@, scale@, old(ids).next as int),
        final(ids).next == old(ids).next + 7,
{
    let optimized = OptimizedBlock {
        x: block.x,
        y: block.y,
        z: block.z,
        width: 1,
        height: 1,
        depth: 1,
        block_type: block.block_type.clone(),
    };
    create_optimized_solid(&optimized, block_size, config, scale, ids)
}

/// The brush of a single block is that of the 1 by 1 by 1 box at its place:
/// with the same size, configuration, scale and first id, `create_cube_solid` on
/// the block and `create_optimized_solid` on that box give the same solid, and
/// both take seven ids.
pub proof fn lemma_cube_is_unit_box(
    block: VmfBlock,
    unit: OptimizedBlock,
    block_size: int,
    config: Seq<(Seq<char>, MaterialView)>,
    scale: Seq<char>,
    first: int,
)
    requires
        unit.x == block.x && unit.y == block.y && unit.z == block.z,
        unit.width == 1 && unit.height == 1 && unit.depth == 1,
        unit.block_type@ == block.block_type@,
    ensures
        unit@ == unit_box(block),
        box_fits(unit@, block_size) == box_fits(unit_box(block), block_size),
        solid_spec(unit_box(block), block_size, config, scale, first) == solid_spec(
            unit@,
            block_size,
            config,
            scale,
            first,
        ),
{
}

// ---------------------------------------------------------------------------
// Batches
// ---------------------------------------------------------------------------

/// The brushes of `blocks[lo..hi]`, the i-th taking the ids from `first + 7 * i`.
pub open spec fn batch_spec(
    boxes: Seq<BoxView>,
    block_size: int,
    config: Seq<(Seq<char>, MaterialView)>,
    scale: Seq<char>,
    first: int,
) -> Seq<SolidView> {
    Seq::new(
        boxes.len(),
        |i: int| solid_spec(boxes[i], block_size, config, scale, first + 7 * i),
    )
}

/// The brushes of the boxes `blocks[lo..hi]`, one per box, in order.
pub fn optimized_batch(
    blocks: &Vec<OptimizedBlock>,
    lo: usize,
    hi: usize,
    block_size: i32,
    config: &MaterialTable,
    scale: &str,
    ids: &mut IdAllocator,
) -> (r: Vec<VmfSolid>)
    requires
        lo <= hi <= blocks.len(),
        old(ids).next + 7 * (hi - lo) <= u32::MAX,
        forall|i: int| lo <= i < hi ==> box_fits((#[trigger] blocks@[i])@, block_size as int),
    ensures
        r@.map_values(|s: VmfSolid| s@) == batch_spec(
            blocks@.subrange(lo as int, hi as int).map_values(|b: OptimizedBlock| b@),
            block_size as int,
            config@,
            scale@,
            old(ids).next as int,
        ),
        final(ids).next == old(ids).next + 7 * (hi - lo),
{
    let ghost first = ids.next as int;
    let ghost boxes = blocks@.subrange(lo as int, hi as int).map_values(|b: OptimizedBlock| b@);
    let mut r: Vec<VmfSolid> = Vec::new();
    let mut i = lo;
    while i < hi
        invariant
            lo <= i <= hi <= blocks.len(),
            first + 7 * (hi - lo) <= u32::MAX,
            ids.next == first + 7 * (i - lo),
            r.len() == i - lo,
            boxes.len() == hi - lo,
            forall|k: int| lo <= k < hi ==> box_fits((#[trigger] blocks@[k])@, block_size as int),
            boxes == blocks@.subrange(lo as int, hi as int).map_values(|b: OptimizedBlock| b@),
            r@.map_values(|s: VmfSolid| s@) == batch_spec(
                boxes.take(i - lo),
                block_size as int,
                config@,
                scale@,
                first,
            ),
        decreases hi - i,
    {
        let ghost old_r = r@;
        let solid = create_optimized_solid(&blocks[i], block_size, config, scale, ids);
        r.push(solid);
        proof {
            assert(boxes[i - lo] == blocks@[i as int]@);
            let n1 = i - lo + 1;
            let lhs = r@.map_values(|s: VmfSolid| s@);
            let rhs = batch_spec(boxes.take(n1), block_size as int, config@, scale@, first);
            assert(lhs.len() == rhs.len());
            assert forall|k: int| 0 <= k < n1 implies lhs[k] == rhs[k] by {
                if k < n1 - 1 {
                    assert(r@[k] == old_r[k]);
                    assert(old_r.map_values(|s: VmfSolid| s@)[k] == batch_spec(
                        boxes.take(n1 - 1),
                        block_size as int,
                        config@,
                        scale@,
                        first,
                    )[k]);
                    assert(boxes.take(n1 - 1)[k] == boxes.take(n1)[k]);
                }
            }
            assert(lhs =~= rhs);
        }
        i = i + 1;
    }
    proof {
        assert(boxes.take(hi - lo) =~= boxes);
    }
    r
}

/// The brushes of the single blocks `blocks[lo..hi]`, one per block, in order.
pub fn cube_batch(
    blocks: &Vec<VmfBlock>,
    lo: usize,
    hi: usize,
    block_size: i32,
    config: &MaterialTable,
    scale: &str,
    ids: &mut IdAllocator,
) -> (r: Vec<VmfSolid>)
    requires
        lo <= hi <= blocks.len(),
        old(ids).next + 7 * (hi - lo) <= u32::MAX,
        forall|i: int| lo <= i < hi ==> box_fits(unit_box(#[trigger] blocks@[i]), block_size as int),
    ensures
        r@.map_values(|s: VmfSolid| s@) == batch_spec(
            blocks@.subrange(lo as int, hi as int).map_values(|b: VmfBlock| unit_box(b)),
            block_size as int,
            config@,
            scale@,
            old(ids).next as int,
        ),
        final(ids).next == old(ids).next + 7 * (hi - lo),
{
    let ghost first = ids.next as int;
    let ghost boxes = blocks@.subrange(lo as int, hi as int).map_values(|b: VmfBlock| unit_box(b));
    let mut r: Vec<VmfSolid> = Vec::new();
    let mut i = lo;
    while i < hi
        invariant
            lo <= i <= hi <= blocks.len(),
            first + 7 * (hi - lo) <= u32::MAX,
            ids.next == first + 7 * (i - lo),
            r.len() == i - lo,
            boxes.len() == hi - lo,
            forall|k: int| lo <= k < hi ==> box_fits(unit_box(#[trigger] blocks@[k]), block_size as int),
            boxes == blocks@.subrange(lo as int, hi as int).map_values(|b: VmfBlock| unit_box(b)),
            r@.map_values(|s: VmfSolid| s@) == batch_spec(
                boxes.take(i - lo),
                block_size as int,
                config@,
                scale@,
                first,
            ),
        decreases hi - i,
    {
        let ghost old_r = r@;
        let solid = create_cube_solid(&blocks[i], block_size, config, scale, ids);
        r.push(solid);
        proof {
            assert(boxes[i - lo] == unit_box(blocks@[i as int]));
            let n1 = i - lo + 1;
            let lhs = r@.map_values(|s: VmfSolid| s@);
            let rhs = batch_spec(boxes.take(n1), block_size as int, config@, scale@, first);
            assert(lhs.len() == rhs.len());
            assert forall|k: int| 0 <= k < n1 implies lhs[k] == rhs[k] by {
                if k < n1 - 1 {
                    assert(r@[k] == old_r[k]);
                    assert(old_r.map_values(|s: VmfSolid| s@)[k] == batch_spec(
                        boxes.take(n1 - 1),
                        block_size as int,
                        config@,
                        scale@,
                        first,
                    )[k]);
                    assert(boxes.take(n1 - 1)[k] == boxes.take(n1)[k]);
                }
            }
            assert(lhs =~= rhs);
        }
        i = i + 1;
    }
    proof {
        assert(boxes.take(hi - lo) =~= boxes);
    }
    r
}

/// The id of a brush (`m == 0`) or of its face `m - 1` (`1 <= m <= 6`).
pub open spec fn member_id(s: SolidView, m: int) -> int {
    if m == 0 {
        s.id
    } else {
        s.sides[m - 1].id
    }
}

/// Ids are never shared: in a batch of brushes, every brush and every face
/// has an id of its own, and the ids run on from one brush to the next.
pub proof fn lemma_batch_ids_distinct(
    boxes: Seq<BoxView>,
    block_size: int,
    config: Seq<(Seq<char>, MaterialView)>,
    scale: Seq<char>,
    first: int,
)
    ensures
        forall|i: int, m: int, j: int, n: int|
            0 <= i < boxes.len() && 0 <= j < boxes.len() && 0 <= m < 7 && 0 <= n < 7 && (i, m) != (
                j,
                n,
            ) ==> #[trigger] member_id(batch_spec(boxes, block_size, config, scale, first)[i], m)
                != #[trigger] member_id(batch_spec(boxes, block_size, config, scale, first)[j], n),
        forall|i: int, m: int|
            0 <= i < boxes.len() && 0 <= m < 7 ==> #[trigger] member_id(
                batch_spec(boxes, block_size, config, scale, first)[i],
                m,
            ) == first + 7 * i + m,
{
    let b = batch_spec(boxes, block_size, config, scale, first);
    assert forall|i: int, m: int| 0 <= i < boxes.len() && 0 <= m < 7 implies #[trigger] member_id(
        b[i],
        m,
    ) == first + 7 * i + m by {
        assert(b[i] == solid_spec(boxes[i], block_size, config, scale, first + 7 * i));
    }
    assert forall|i: int, m: int, j: int, n: int|
        0 <= i < boxes.len() && 0 <= j < boxes.len() && 0 <= m < 7 && 0 <= n < 7 && (i, m) != (
            j,
            n,
        ) implies #[trigger] member_id(b[i], m) != #[trigger] member_id(b[j], n) by {
        assert(member_id(b[i], m) == first + 7 * i + m);
        assert(member_id(b[j], n) == first + 7 * j + n);
        if i == j {
            assert(m != n);
        } else if i < j {
            assert(7 * i + m < 7 * j + n);
        } else {
            assert(7 * j + n < 7 * i + m);
        }
    }
}

// ---------------------------------------------------------------------------
// Text of a VMF file
// ---------------------------------------------------------------------------

/// The beginning of a VMF file, up to the open `world` block.
pub const VMF_HEADER: &'static str = "// VMF File Generated by MTS\nversioninfo\n{\n\t\"editorversion\" \"400\"\n\t\"editorbuild\" \"8867\"\n\t\"mapversion\" \"1\"\n\t\"formatversion\" \"100\"\n\t\"prefab\" \"0\"\n}\nvisgroups\n{\n}\nviewsettings\n{\n\t\"bSnapToGrid\" \"1\"\n\t\"bShowGrid\" \"1\"\n\t\"bShowLogicalGrid\" \"0\"\n\t\"nGridSpacing\" \"64\"\n}\nworld\n{\n\t\"id\" \"1\"\n\t\"mapversion\" \"1\"\n\t\"classname\" \"worldspawn\"\n\t\"skyname\" \"sky_day01_01\"\n\t\"maxpropscreenwidth\" \"-1\"\n\t\"detailvbsp\" \"detail.vbsp\"\n\t\"detailmaterial\" \"detail/detailsprites\"\n";

/// The end of a VMF file: it closes `world` and adds the player start.
pub const VMF_FOOTER: &'static str = "}\nentity\n{\n\t\"id\" \"2\"\n\t\"classname\" \"info_player_start\"\n\t\"angles\" \"0 0 0\"\n\t\"origin\" \"0 0 100\"\n\teditor\n\t{\n\t\t\"color\" \"0 255 0\"\n\t\t\"visgroupshown\" \"1\"\n\t\t\"visgroupautoshown\" \"1\"\n\t\t\"logicalpos\" \"[0 0]\"\n\t}\n}\n";

pub fn vmf_header() -> (r: String)
    ensures
        r@ == VMF_HEADER@,
{
    VMF_HEADER.to_owned()
}

pub fn vmf_footer() -> (r: String)
    ensures
        r@ == VMF_FOOTER@,
{
    VMF_FOOTER.to_owned()
}

/// A line `<head>"<value>"`: the head holds the indentation, the key and the opening quote.
pub open spec fn field_line(head: Seq<char>, value: Seq<char>) -> Seq<char> {
    head + value + "\"\n"@
}

pub open spec fn side_text(s: SideView) -> Seq<char> {
    "\t\tside\n\t\t{\n"@ + field_line("\t\t\t\"id\" \""@, nat_decimal(s.id as nat)) + field_line(
        "\t\t\t\"plane\" \""@,
        s.plane,
    ) + field_line("\t\t\t\"material\" \""@, s.material) + field_line(
        "\t\t\t\"uaxis\" \""@,
        s.uaxis,
    ) + field_line("\t\t\t\"vaxis\" \""@, s.vaxis) + field_line(
        "\t\t\t\"rotation\" \""@,
        s.rotation,
    ) + field_line("\t\t\t\"lightmapscale\" \""@, s.lightmapscale) + field_line(
        "\t\t\t\"smoothing_groups\" \""@,
        s.smoothing_groups,
    ) + "\t\t}\n"@
}

pub open spec fn sides_text(sides: Seq<SideView>) -> Seq<char>
    decreases sides.len(),
{
    if sides.len() == 0 {
        Seq::empty()
    } else {
        sides_text(sides.drop_last()) + side_text(sides.last())
    }
}

pub open spec fn solid_text_spec(s: SolidView) -> Seq<char> {
    "\tsolid\n\t{\n"@ + field_line("\t\t\"id\" \""@, nat_decimal(s.id as nat)) + sides_text(s.sides)
        + "\t\teditor\n\t\t{\n\t\t\t\"color\" \"0 180 0\"\n\t\t\t\"visgroupshown\" \"1\"\n\t\t\t\"visgroupautoshown\" \"1\"\n\t\t}\n\t}\n"@
}

fn push_field(out: &mut String, head: &str, value: &str)
    ensures
        final(out)@ == old(out)@ + field_line(head@, value@),
{
    append_str(out, head);
    append_str(out, value);
    append_str(out, "\"\n");
    proof {
        assert(final(out)@ =~= old(out)@ + field_line(head@, value@));
    }
}

fn push_id_field(out: &mut String, head: &str, id: u32)
    ensures
        final(out)@ == old(out)@ + field_line(head@, nat_decimal(id as nat)),
{
    append_str(out, head);
    push_nat(out, id as u64);
    append_str(out, "\"\n");
    proof {
        assert(final(out)@ =~= old(out)@ + field_line(head@, nat_decimal(id as nat)));
    }
}

fn push_side_text(out: &mut String, s: &VmfSide)
    ensures
        final(out)@ == old(out)@ + side_text(s@),
{
    let ghost o = out@;
    append_str(out, "\t\tside\n\t\t{\n");
    push_id_field(out, "\t\t\t\"id\" \"", s.id);
    push_field(out, "\t\t\t\"plane\" \"", s.plane.as_str());
    push_field(out, "\t\t\t\"material\" \"", s.material.as_str());
    push_field(out, "\t\t\t\"uaxis\" \"", s.uaxis.as_str());
    push_field(out, "\t\t\t\"vaxis\" \"", s.vaxis.as_str());
    push_field(out, "\t\t\t\"rotation\" \"", s.rotation.as_str());
    push_field(out, "\t\t\t\"lightmapscale\" \"", s.lightmapscale.as_str());
    push_field(out, "\t\t\t\"smoothing_groups\" \"", s.smoothing_groups.as_str());
    append_str(out, "\t\t}\n");
    proof {
        assert(out@ =~= o + side_text(s@));
    }
}

/// The text of a brush in a VMF file.
pub fn solid_text(solid: &VmfSolid) -> (r: String)
    ensures
        r@ == solid_text_spec(solid@),
{
    let mut out = "\tsolid\n\t{\n".to_owned();
    push_id_field(&mut out, "\t\t\"id\" \"", solid.id);
    let ghost head = out@;
    let ghost sv = solid@.sides;
    let n = solid.sides.len();
    proof {
        assert(sv.take(0) =~= Seq::<SideView>::empty());
        assert(out@ =~= head + sides_text(sv.take(0)));
    }
    for i in 0..n
        invariant
            n == solid.sides.len(),
            sv == solid@.sides,
            out@ == head + sides_text(sv.take(i as int)),
    {
        push_side_text(&mut out, &solid.sides[i]);
        proof {
            assert(sv.take(i + 1).drop_last() =~= sv.take(i as int));
            assert(sv.take(i + 1).last() == solid.sides@[i as int]@);
            assert(out@ =~= head + sides_text(sv.take(i + 1)));
        }
    }
    append_str(
        &mut out,
        "\t\teditor\n\t\t{\n\t\t\t\"color\" \"0 180 0\"\n\t\t\t\"visgroupshown\" \"1\"\n\t\t\t\"visgroupautoshown\" \"1\"\n\t\t}\n\t}\n",
    );
    proof {
        assert(sv.take(n as int) =~= sv);
        assert(out@ =~= solid_text_spec(solid@));
    }
    out
}

// ---------------------------------------------------------------------------
// Batching and progress
// ---------------------------------------------------------------------------

pub open spec fn clamp_batch(n: int) -> int {
    if n < 1000 {
        1000
    } else if n > 20000 {
        20000
    } else {
        n
    }
}

/// How many brushes to build and write at a time: one per 2048 bytes of the
/// memory available, kept between 1000 and 20000.
pub fn calculate_batch_size(available_memory: usize) -> (r: usize)
    ensures
        r == clamp_batch(available_memory as int / 2048),
        1000 <= r <= 20000,
{
    let max_solids = available_memory / 2048;
    if max_solids < 1000 {
        1000
    } else if max_solids > 20000 {
        20000
    } else {
        max_solids
    }
}

/// Progress, in percent, while the boxes are written: from 30 to 90.
pub fn optimized_progress(processed: usize, mesh_count: usize) -> (r: u16)
    requires
        0 < mesh_count,
        processed <= mesh_count,
        processed * 60 <= usize::MAX,
    ensures
        r == 30 + (processed * 60) / (mesh_count as int),
        30 <= r <= 90,
{
    proof {
        assert((processed * 60) / (mesh_count as int) <= 60) by (nonlinear_arith)
            requires
                processed <= mesh_count,
                0 < mesh_count,
        ;
    }
    let p = processed * 60;
    (30 + p / mesh_count) as u16
}

/// The batches `[start, end)` that cut `start..total` into runs of `size`, the last one shorter.
pub open spec fn batches_from(start: int, total: int, size: int) -> Seq<(int, int)>
    decreases (if start < total {
        total - start
    } else {
        0
    }),
{
    if start >= total || size <= 0 {
        Seq::empty()
    } else {
        seq![(start, if start + size < total { start + size } else { total })] + batches_from(
            start + size,
            total,
            size,
        )
    }
}

/// The batches in which `total` items are processed, `batch_size` at a time, as `chunks` cuts a slice.
pub fn batch_bounds(total: usize, batch_size: usize) -> (r: Vec<(usize, usize)>)
    requires
        batch_size > 0,
    ensures
        r@.map_values(|b: (usize, usize)| (b.0 as int, b.1 as int)) == batches_from(
            0,
            total as int,
            batch_size as int,
        ),
{
    let mut r: Vec<(usize, usize)> = Vec::new();
    let mut start: usize = 0;
    while start < total
        invariant
            batch_size > 0,
            start <= total || r.len() == 0,
            r@.map_values(|b: (usize, usize)| (b.0 as int, b.1 as int)) + batches_from(
                start as int,
                total as int,
                batch_size as int,
            ) == batches_from(0, total as int, batch_size as int),
        decreases total - start,
    {
        let end = if total - start > batch_size {
            start + batch_size
        } else {
            total
        };
        let ghost old_r = r@;
        r.push((start, end));
        proof {
            let rest = batches_from(start + batch_size, total as int, batch_size as int);
            assert(batches_from(start as int, total as int, batch_size as int) == seq![
                (start as int, end as int),
            ] + rest);
            assert(r@.map_values(|b: (usize, usize)| (b.0 as int, b.1 as int)) =~= old_r.map_values(
                |b: (usize, usize)| (b.0 as int, b.1 as int),
            ).push((start as int, end as int)));
            assert(r@.map_values(|b: (usize, usize)| (b.0 as int, b.1 as int)) + rest =~= old_r.map_values(
                |b: (usize, usize)| (b.0 as int, b.1 as int),
            ) + batches_from(start as int, total as int, batch_size as int));
        }
        if end == total {
            start = total;
            proof {
                assert(batches_from(total as int, total as int, batch_size as int) =~= Seq::<
                    (int, int),
                >::empty());
                assert(batches_from(start + batch_size, total as int, batch_size as int) =~= Seq::<
                    (int, int),
                >::empty());
            }
        } else {
            start = end;
        }
    }
    proof {
        assert(r@.map_values(|b: (usize, usize)| (b.0 as int, b.1 as int)) =~= r@.map_values(
            |b: (usize, usize)| (b.0 as int, b.1 as int),
        ) + batches_from(start as int, total as int, batch_size as int));
    }
    r
}

// ---------------------------------------------------------------------------
// The whole file
// ---------------------------------------------------------------------------

/// The texts of brushes, one after another.
#[verifier::opaque]
pub open spec fn solids_seq_text(ss: Seq<SolidView>) -> Seq<char>
    decreases ss.len(),
{
    if ss.len() == 0 {
        Seq::empty()
    } else {
        solids_seq_text(ss.drop_last()) + solid_text_spec(ss.last())
    }
}

/// A VMF file of boxes: the header, the brush of every box in order, the ids
/// running on from `first`, seven to a brush, and the footer.
pub open spec fn vmf_file_spec(
    boxes: Seq<BoxView>,
    block_size: int,
    config: Seq<(Seq<char>, MaterialView)>,
    scale: Seq<char>,
    first: int,
) -> Seq<char> {
    VMF_HEADER@ + solids_seq_text(batch_spec(boxes, block_size, config, scale, first)) + VMF_FOOTER@
}

/// The texts of the brushes that the batches give, batch after batch; the batch
/// `(lo, hi)` takes its ids from `first + 7 * lo`, as the ids run on from batch to batch.
pub open spec fn batches_text(
    boxes: Seq<BoxView>,
    batches: Seq<(int, int)>,
    block_size: int,
    config: Seq<(Seq<char>, MaterialView)>,
    scale: Seq<char>,
    first: int,
) -> Seq<char>
    decreases batches.len(),
{
    if batches.len() == 0 {
        Seq::empty()
    } else {
        let b = batches[0];
        solids_seq_text(
            batch_spec(boxes.subrange(b.0, b.1), block_size, config, scale, first + 7 * b.0),
        ) + batches_text(boxes, batches.drop_first(), block_size, config, scale, first)
    }
}

proof fn lemma_solids_seq_text_add(a: Seq<SolidView>, b: Seq<SolidView>)
    ensures
        solids_seq_text(a + b) == solids_seq_text(a) + solids_seq_text(b),
    decreases b.len(),
{
    reveal(solids_seq_text);
    if b.len() == 0 {
        assert(a + b =~= a);
        assert(solids_seq_text(a) + solids_seq_text(b) =~= solids_seq_text(a));
    } else {
        lemma_solids_seq_text_add(a, b.drop_last());
        assert((a + b).drop_last() =~= a + b.drop_last());
        assert((a + b).last() == b.last());
        assert(solids_seq_text(a) + (solids_seq_text(b.drop_last()) + solid_text_spec(b.last())) =~= (
        solids_seq_text(a) + solids_seq_text(b.drop_last())) + solid_text_spec(b.last()));
    }
}

/// The brushes of a run of boxes are those of the whole list in that run.
proof fn lemma_batch_spec_subrange(
    boxes: Seq<BoxView>,
    lo: int,
    hi: int,
    block_size: int,
    config: Seq<(Seq<char>, MaterialView)>,
    scale: Seq<char>,
    first: int,
)
    requires
        0 <= lo <= hi <= boxes.len(),
    ensures
        batch_spec(boxes.subrange(lo, hi), block_size, config, scale, first + 7 * lo) == batch_spec(
            boxes,
            block_size,
            config,
            scale,
            first,
        ).subrange(lo, hi),
{
    let a = batch_spec(boxes.subrange(lo, hi), block_size, config, scale, first + 7 * lo);
    let b = batch_spec(boxes, block_size, config, scale, first).subrange(lo, hi);
    assert forall|j: int| 0 <= j < a.len() implies a[j] == b[j] by {
        assert(boxes.subrange(lo, hi)[j] == boxes[lo + j]);
        assert(first + 7 * lo + 7 * j == first + 7 * (lo + j));
    }
    assert(a =~= b);
}

proof fn lemma_batches_text_from(
    boxes: Seq<BoxView>,
    start: int,
    size: int,
    block_size: int,
    config: Seq<(Seq<char>, MaterialView)>,
    scale: Seq<char>,
    first: int,
)
    requires
        0 <= start <= boxes.len(),
        size > 0,
    ensures
        batches_text(
            boxes,
            batches_from(start, boxes.len() as int, size),
            block_size,
            config,
            scale,
            first,
        ) == solids_seq_text(
            batch_spec(boxes, block_size, config, scale, first).subrange(start, boxes.len() as int),
        ),
    decreases boxes.len() - start,
{
    let n = boxes.len() as int;
    let all = batch_spec(boxes, block_size, config, scale, first);
    if start == n {
        assert(all.subrange(start, n) =~= Seq::<SolidView>::empty());
        reveal(solids_seq_text);
    } else {
        let e = if start + size < n {
            start + size
        } else {
            n
        };
        let bs = batches_from(start, n, size);
        assert(bs[0] == (start, e));
        assert(bs.drop_first() =~= batches_from(start + size, n, size));
        lemma_batch_spec_subrange(boxes, start, e, block_size, config, scale, first);
        if start + size < n {
            lemma_batches_text_from(boxes, start + size, size, block_size, config, scale, first);
        } else {
            assert(batches_from(start + size, n, size) =~= Seq::<(int, int)>::empty());
            assert(all.subrange(e, n) =~= Seq::<SolidView>::empty());
            assert(solids_seq_text(Seq::<SolidView>::empty()) =~= Seq::<char>::empty()) by {
                reveal(solids_seq_text);
            }
        }
        let rest = batches_from(start + size, n, size);
        assert(batches_text(boxes, rest, block_size, config, scale, first) == solids_seq_text(
            all.subrange(e, n),
        ));
        assert(batches_text(boxes, bs, block_size, config, scale, first) == solids_seq_text(
            all.subrange(start, e),
        ) + batches_text(boxes, rest, block_size, config, scale, first));
        lemma_solids_seq_text_add(all.subrange(start, e), all.subrange(e, n));
        assert(all.subrange(start, e) + all.subrange(e, n) =~= all.subrange(start, n));
    }
}

/// Writing a file in batches writes the whole file: the header, then, for each
/// batch that `batch_bounds` gives, the texts of the brushes of its boxes with
/// the ids running on from batch to batch, then the footer, is the header, the
/// brush of every box in order with ids from `first`, and the footer.
pub proof fn lemma_batched_file(
    boxes: Seq<BoxView>,
    size: int,
    block_size: int,
    config: Seq<(Seq<char>, MaterialView)>,
    scale: Seq<char>,
    first: int,
)
    requires
        size > 0,
    ensures
        VMF_HEADER@ + batches_text(
            boxes,
            batches_from(0, boxes.len() as int, size),
            block_size,
            config,
            scale,
            first,
        ) + VMF_FOOTER@ == vmf_file_spec(boxes, block_size, config, scale, first),
{
    lemma_batches_text_from(boxes, 0, size, block_size, config, scale, first);
    let all = batch_spec(boxes, block_size, config, scale, first);
    assert(all.subrange(0, boxes.len() as int) =~= all);
}

} // verus!
