//! Reading a Minecraft world: which region files and chunks to read, whether a
//! chunk is empty, and which of its blocks become brushes.
use vstd::prelude::*;
use crate::blockstate::split_on;
use crate::mesh::VmfBlock;
use crate::text::chars_of;

verus! {

/// A rectangle of the world, in block coordinates, chosen for conversion.
pub struct ConversionCoords {
    pub start_x: i32,
    pub start_z: i32,
    pub end_x: i32,
    pub end_z: i32,
}

/// A block of the world, in world coordinates.
pub struct MinecraftBlock {
    pub x: i32,
    pub y: i32,
    pub z: i32,
    pub block_type: String,
}

impl View for MinecraftBlock {
    type V = (int, int, int, Seq<char>);

    open spec fn view(&self) -> (int, int, int, Seq<char>) {
        (self.x as int, self.y as int, self.z as int, self.block_type@)
    }
}

/// A block present in a chunk: its height, its column (`x`, `z` in `0..16`)
/// and its name.
pub struct ColumnBlock {
    pub y: isize,
    pub x: u8,
    pub z: u8,
    pub name: String,
}

/// The blocks present in a chunk, by y, then x, then z.
pub struct ChunkColumn {
    pub blocks: Vec<ColumnBlock>,
}

pub open spec fn column_wf(c: ChunkColumn) -> bool {
    forall|i: int| 0 <= i < c.blocks.len() ==> (#[trigger] c.blocks@[i]).x < 16 && c.blocks@[i].z < 16
}

pub open spec fn fits_i32(v: int) -> bool {
    i32::MIN <= v <= i32::MAX
}

// ---------------------------------------------------------------------------
// Empty chunks and the blocks of a chunk
// ---------------------------------------------------------------------------

/// Air and barriers are not converted.
pub open spec fn is_air_like(n: Seq<char>) -> bool {
    n == "minecraft:air"@ || n == "minecraft:barrier"@
}

pub open spec fn is_bedrock(n: Seq<char>) -> bool {
    n == "minecraft:bedrock"@
}

/// A chunk is empty when it holds only air, barriers, and bedrock in one flat layer.
pub open spec fn chunk_empty_spec(bs: Seq<ColumnBlock>) -> bool {
    &&& forall|i: int|
        0 <= i < bs.len() ==> is_air_like((#[trigger] bs[i]).name@) || is_bedrock(bs[i].name@)
    &&& forall|i: int, j: int|
        0 <= i < bs.len() && 0 <= j < bs.len() && is_bedrock((#[trigger] bs[i]).name@) && is_bedrock(
            (#[trigger] bs[j]).name@,
        ) ==> bs[i].y == bs[j].y
}

proof fn lemma_names_distinct()
    ensures
        !is_bedrock("minecraft:air"@),
        !is_bedrock("minecraft:barrier"@),
{
    reveal_strlit("minecraft:air");
    reveal_strlit("minecraft:barrier");
    reveal_strlit("minecraft:bedrock");
    assert("minecraft:air"@.len() != "minecraft:bedrock"@.len());
    assert("minecraft:barrier"@[11] != "minecraft:bedrock"@[11]);
}

/// Whether the chunk holds only air, barriers, and at most one flat layer of bedrock.
pub fn is_chunk_empty(chunk: &ChunkColumn) -> (r: bool)
    ensures
        r == chunk_empty_spec(chunk.blocks@),
{
    let air = "minecraft:air".to_owned();
    let barrier = "minecraft:barrier".to_owned();
    let bedrock = "minecraft:bedrock".to_owned();
    let ghost bs = chunk.blocks@;
    proof {
        lemma_names_distinct();
    }
    let mut bedrock_y: Option<isize> = None;
    let n = chunk.blocks.len();
    for i in 0..n
        invariant
            n == chunk.blocks.len(),
            bs == chunk.blocks@,
            air@ == "minecraft:air"@,
            barrier@ == "minecraft:barrier"@,
            bedrock@ == "minecraft:bedrock"@,
            !is_bedrock("minecraft:air"@),
            !is_bedrock("minecraft:barrier"@),
            forall|k: int| 0 <= k < i ==> is_air_like((#[trigger] bs[k]).name@) || is_bedrock(bs[k].name@),
            bedrock_y is None ==> forall|k: int| 0 <= k < i ==> !is_bedrock((#[trigger] bs[k]).name@),
            bedrock_y matches Some(y) ==> (forall|k: int|
                0 <= k < i && is_bedrock((#[trigger] bs[k]).name@) ==> bs[k].y == y) && exists|k: int|
                0 <= k < i && is_bedrock((#[trigger] bs[k]).name@) && bs[k].y == y,
    {
        let b = &chunk.blocks[i];
        if b.name == air || b.name == barrier {
        } else if b.name == bedrock {
            match bedrock_y {
                Some(y) => {
                    if y != b.y {
                        proof {
                            let k = choose|k: int|
                                0 <= k < i && is_bedrock((#[trigger] bs[k]).name@) && bs[k].y == y;
                            assert(is_bedrock(bs[i as int].name@));
                            assert(bs[k].y != bs[i as int].y);
                        }
                        return false;
                    }
                },
                None => {
                    bedrock_y = Some(b.y);
                    proof {
                        assert(is_bedrock(bs[i as int].name@));
                    }
                },
            }
        } else {
            proof {
                assert(!(is_air_like(bs[i as int].name@) || is_bedrock(bs[i as int].name@)));
            }
            return false;
        }
    }
    proof {
        assert forall|i: int, j: int|
            0 <= i < bs.len() && 0 <= j < bs.len() && is_bedrock((#[trigger] bs[i]).name@) && is_bedrock(
                (#[trigger] bs[j]).name@,
            ) implies bs[i].y == bs[j].y by {
            assert(bedrock_y is Some);
        }
    }
    true
}

/// The world position of a chunk block; its height is taken modulo 2^32 as `as i32` does.
pub open spec fn world_block(b: ColumnBlock, cx: int, cz: int) -> (int, int, int, Seq<char>) {
    (cx * 16 + b.x, (b.y as i32) as int, cz * 16 + b.z, b.name@)
}

/// Whether the world column `(x, z)` lies in the area, if there is one.
pub open spec fn in_area(area: Option<(i32, i32, i32, i32)>, x: int, z: int) -> bool {
    match area {
        None => true,
        Some(a) => a.0 <= x <= a.1 && a.2 <= z <= a.3,
    }
}

/// The blocks of a chunk that are converted, in order: all but air and
/// barriers, and, where an area is given, only those inside it.
pub open spec fn extract_spec(
    bs: Seq<ColumnBlock>,
    cx: int,
    cz: int,
    area: Option<(i32, i32, i32, i32)>,
) -> Seq<(int, int, int, Seq<char>)>
    decreases bs.len(),
{
    if bs.len() == 0 {
        Seq::empty()
    } else {
        let acc = extract_spec(bs.drop_last(), cx, cz, area);
        let w = world_block(bs.last(), cx, cz);
        if is_air_like(bs.last().name@) || !in_area(area, w.0, w.2) {
            acc
        } else {
            acc.push(w)
        }
    }
}

/// The blocks of chunk `c` have world coordinates `c * 16 + 0 ..= c * 16 + 15` that fit `i32`.
pub open spec fn chunk_fits(c: int) -> bool {
    fits_i32(c * 16) && fits_i32(c * 16 + 15)
}

/// The blocks of a chunk in world coordinates, air and barriers left out, and
/// those outside the area, if one is given.
pub fn extract_blocks(
    chunk: &ChunkColumn,
    chunk_x: i32,
    chunk_z: i32,
    area: Option<(i32, i32, i32, i32)>,
) -> (r: Vec<MinecraftBlock>)
    requires
        column_wf(*chunk),
        chunk_fits(chunk_x as int),
        chunk_fits(chunk_z as int),
    ensures
        r@.map_values(|b: MinecraftBlock| b@) == extract_spec(
            chunk.blocks@,
            chunk_x as int,
            chunk_z as int,
            area,
        ),
{
    let air = "minecraft:air".to_owned();
    let barrier = "minecraft:barrier".to_owned();
    let ghost bs = chunk.blocks@;
    let mut r: Vec<MinecraftBlock> = Vec::new();
    let n = chunk.blocks.len();
    for i in 0..n
        invariant
            n == chunk.blocks.len(),
            bs == chunk.blocks@,
            column_wf(*chunk),
            chunk_fits(chunk_x as int),
            chunk_fits(chunk_z as int),
            air@ == "minecraft:air"@,
            barrier@ == "minecraft:barrier"@,
            r@.map_values(|b: MinecraftBlock| b@) == extract_spec(
                bs.take(i as int),
                chunk_x as int,
                chunk_z as int,
                area,
            ),
    {
        proof {
            assert(bs.take(i + 1).drop_last() =~= bs.take(i as int));
            assert(bs.take(i + 1).last() == bs[i as int]);
        }
        let b = &chunk.blocks[i];
        proof {
            assert(b.x < 16 && b.z < 16) by {
                assert(bs[i as int] == *b);
            }
        }
        let wx = chunk_x * 16 + b.x as i32;
        let wz = chunk_z * 16 + b.z as i32;
        let inside = match area {
            None => true,
            Some(a) => a.0 <= wx && wx <= a.1 && a.2 <= wz && wz <= a.3,
        };
        if !(b.name == air || b.name == barrier) && inside {
            let ghost old_r = r@;
            let wb = MinecraftBlock { x: wx, y: b.y as i32, z: wz, block_type: b.name.clone() };
            r.push(wb);
            proof {
                assert(r@.map_values(|b: MinecraftBlock| b@) =~= old_r.map_values(
                    |b: MinecraftBlock| b@,
                ).push(world_block(bs[i as int], chunk_x as int, chunk_z as int)));
            }
        }
    }
    proof {
        assert(bs.take(n as int) =~= bs);
    }
    r
}

/// What becomes of a chunk.
pub enum ChunkOutcome {
    /// Outside the chosen rectangle: skipped without counting it as read.
    OutOfRange,
    /// Empty (in dynamic mode): counted as read, nothing converted.
    Empty,
    /// Read: these blocks are converted.
    Blocks(Vec<MinecraftBlock>),
}

/// The outcome of a chunk that was read: in dynamic mode an empty chunk is
/// skipped, else its blocks in the area, if one is given, are converted.
pub fn chunk_outcome(
    chunk: &ChunkColumn,
    dynamic: bool,
    chunk_x: i32,
    chunk_z: i32,
    area: Option<(i32, i32, i32, i32)>,
) -> (r: ChunkOutcome)
    requires
        column_wf(*chunk),
        chunk_fits(chunk_x as int),
        chunk_fits(chunk_z as int),
    ensures
        dynamic && chunk_empty_spec(chunk.blocks@) ==> r is Empty,
        !(dynamic && chunk_empty_spec(chunk.blocks@)) ==> (r matches ChunkOutcome::Blocks(v)
            && v@.map_values(|b: MinecraftBlock| b@) == extract_spec(
            chunk.blocks@,
            chunk_x as int,
            chunk_z as int,
            area,
        )),
{
    if dynamic && is_chunk_empty(chunk) {
        ChunkOutcome::Empty
    } else {
        ChunkOutcome::Blocks(extract_blocks(chunk, chunk_x, chunk_z, area))
    }
}

// ---------------------------------------------------------------------------
// Chunk coordinates
// ---------------------------------------------------------------------------

/// The chunk that holds a block coordinate: `v >> 4`, that is `v` divided by 16, rounded down.
pub fn chunk_of(v: i32) -> (r: i32)
    ensures
        r as int == (v as int) / 16,
{
    let w = v as i64;
    if w >= 0 {
        (w / 16) as i32
    } else {
        let q = (15 - w) / 16;
        (-q) as i32
    }
}

/// The chunk rectangle `(min x, max x, min z, max z)` that the coordinates span,
/// whichever corner comes first.
pub open spec fn bounds_spec(c: ConversionCoords) -> (int, int, int, int) {
    let sx = c.start_x as int;
    let ex = c.end_x as int;
    let sz = c.start_z as int;
    let ez = c.end_z as int;
    (
        (if sx <= ex { sx } else { ex }) / 16,
        (if sx <= ex { ex } else { sx }) / 16,
        (if sz <= ez { sz } else { ez }) / 16,
        (if sz <= ez { ez } else { sz }) / 16,
    )
}

pub fn chunk_bounds(c: &ConversionCoords) -> (r: (i32, i32, i32, i32))
    ensures
        (r.0 as int, r.1 as int, r.2 as int, r.3 as int) == bounds_spec(*c),
{
    let (lo_x, hi_x) = if c.start_x <= c.end_x {
        (c.start_x, c.end_x)
    } else {
        (c.end_x, c.start_x)
    };
    let (lo_z, hi_z) = if c.start_z <= c.end_z {
        (c.start_z, c.end_z)
    } else {
        (c.end_z, c.start_z)
    };
    (chunk_of(lo_x), chunk_of(hi_x), chunk_of(lo_z), chunk_of(hi_z))
}

/// The block rectangle `(min x, max x, min z, max z)` that the coordinates span,
/// whichever corner comes first.
pub open spec fn area_spec(c: ConversionCoords) -> (i32, i32, i32, i32) {
    (
        if c.start_x <= c.end_x { c.start_x } else { c.end_x },
        if c.start_x <= c.end_x { c.end_x } else { c.start_x },
        if c.start_z <= c.end_z { c.start_z } else { c.end_z },
        if c.start_z <= c.end_z { c.end_z } else { c.start_z },
    )
}

pub fn block_area(c: &ConversionCoords) -> (r: (i32, i32, i32, i32))
    ensures
        r == area_spec(*c),
{
    let (lo_x, hi_x) = if c.start_x <= c.end_x {
        (c.start_x, c.end_x)
    } else {
        (c.end_x, c.start_x)
    };
    let (lo_z, hi_z) = if c.start_z <= c.end_z {
        (c.start_z, c.end_z)
    } else {
        (c.end_z, c.start_z)
    };
    (lo_x, hi_x, lo_z, hi_z)
}

/// The area whose blocks are kept: in static mode the chosen rectangle, if any;
/// in dynamic mode the coordinates are not used.
pub open spec fn conversion_area(dynamic: bool, coords: Option<ConversionCoords>) -> Option<
    (i32, i32, i32, i32),
> {
    if dynamic {
        None
    } else {
        match coords {
            Some(c) => Some(area_spec(c)),
            None => None,
        }
    }
}

/// Whether chunk `(cx, cz)` is read, for the given mode and coordinates: in
/// dynamic mode always, else when it lies in the chunks that the rectangle
/// touches, if there is one.
pub open spec fn selected_for(dynamic: bool, coords: Option<ConversionCoords>, cx: int, cz: int) -> bool {
    dynamic || match coords {
        None => true,
        Some(c) => bounds_spec(c).0 <= cx <= bounds_spec(c).1 && bounds_spec(c).2 <= cz
            <= bounds_spec(c).3,
    }
}

/// Whether a chunk is read when converting blocks: in dynamic mode always,
/// else when it lies in the chosen rectangle, if there is one.
pub open spec fn chunk_selected(
    dynamic: bool,
    bounds: Option<(i32, i32, i32, i32)>,
    cx: int,
    cz: int,
) -> bool {
    dynamic || match bounds {
        None => true,
        Some(b) => b.0 <= cx <= b.1 && b.2 <= cz <= b.3,
    }
}

pub fn is_chunk_selected(dynamic: bool, bounds: Option<(i32, i32, i32, i32)>, cx: i32, cz: i32) -> (r:
    bool)
    ensures
        r == chunk_selected(dynamic, bounds, cx as int, cz as int),
{
    if dynamic {
        return true;
    }
    match bounds {
        None => true,
        Some(b) => !(cx < b.0 || cx > b.1 || cz < b.2 || cz > b.3),
    }
}

/// The chunk coordinate of the chunk at `local` (`0..32`) in region `region`.
pub fn chunk_position(region: i32, local: usize) -> (r: i32)
    requires
        local < 32,
        fits_i32(region * 32 + local),
    ensures
        r == region * 32 + local,
{
    region * 32 + local as i32
}

// ---------------------------------------------------------------------------
// Region file names: r.<x>.<z>.mca
// ---------------------------------------------------------------------------

pub open spec fn is_digit(c: char) -> bool {
    48 <= (c as u32) <= 57
}

pub open spec fn digit_value(c: char) -> int {
    (c as u32) - 48
}

pub open spec fn digits_value(s: Seq<char>) -> int
    decreases s.len(),
{
    if s.len() == 0 {
        0
    } else {
        digits_value(s.drop_last()) * 10 + digit_value(s.last())
    }
}

/// A number without its sign.
pub open spec fn digits_part(s: Seq<char>) -> Seq<char> {
    if s.len() > 0 && (s[0] == '-' || s[0] == '+') {
        s.drop_first()
    } else {
        s
    }
}

/// `str::parse::<i32>`: an optional `+` or `-`, then at least one decimal
/// digit, within the range of `i32`.
pub open spec fn parse_i32_spec(s: Seq<char>) -> Option<int> {
    let d = digits_part(s);
    if d.len() == 0 || !(forall|i: int| 0 <= i < d.len() ==> is_digit(#[trigger] d[i])) {
        None
    } else {
        let v = if s[0] == '-' {
            -digits_value(d)
        } else {
            digits_value(d)
        };
        if fits_i32(v) {
            Some(v)
        } else {
            None
        }
    }
}

/// The number in a region file name part, or 0 when it is not one.
pub open spec fn parse_or_zero(s: Seq<char>) -> int {
    match parse_i32_spec(s) {
        Some(v) => v,
        None => 0,
    }
}

/// The region coordinates in a file name `r.<x>.<z>.mca`: `None` when the
/// name has fewer than three `.`-separated parts; a part that is not a number counts as 0.
pub open spec fn region_coords_spec(name: Seq<char>) -> Option<(int, int)> {
    let parts = split_on(name, '.');
    if parts.len() < 3 {
        None
    } else {
        Some((parse_or_zero(parts[1]), parse_or_zero(parts[2])))
    }
}

proof fn lemma_digits_nonneg(s: Seq<char>)
    requires
        forall|i: int| 0 <= i < s.len() ==> is_digit(#[trigger] s[i]),
    ensures
        digits_value(s) >= 0,
    decreases s.len(),
{
    if s.len() > 0 {
        lemma_digits_nonneg(s.drop_last());
    }
}

/// Parses `v[lo..hi]` as `str::parse::<i32>` does.
fn parse_i32_range(v: &Vec<char>, lo: usize, hi: usize) -> (r: Option<i32>)
    requires
        lo <= hi <= v.len(),
    ensures
        match r {
            Some(x) => parse_i32_spec(v@.subrange(lo as int, hi as int)) == Some(x as int),
            None => parse_i32_spec(v@.subrange(lo as int, hi as int)) is None,
        },
{
    let ghost s = v@.subrange(lo as int, hi as int);
    let big: i64 = 2147483649;
    let mut start = lo;
    let mut neg = false;
    if lo < hi && (v[lo] == '-' || v[lo] == '+') {
        neg = v[lo] == '-';
        start = lo + 1;
    }
    let ghost d = v@.subrange(start as int, hi as int);
    proof {
        if lo < hi && (v@[lo as int] == '-' || v@[lo as int] == '+') {
            assert(d =~= s.drop_first());
        } else {
            assert(d =~= s);
        }
    }
    if start == hi {
        return None;
    }
    let mut acc: i64 = 0;
    let mut i = start;
    while i < hi
        invariant
            lo <= start <= i <= hi <= v.len(),
            d == v@.subrange(start as int, hi as int),
            s == v@.subrange(lo as int, hi as int),
            d == digits_part(s),
            big == 2147483649,
            forall|k: int| start <= k < i ==> is_digit(#[trigger] v@[k]),
            acc as int == if digits_value(v@.subrange(start as int, i as int)) < big {
                digits_value(v@.subrange(start as int, i as int))
            } else {
                big as int
            },
            0 <= acc <= big,
        decreases hi - i,
    {
        let c = v[i];
        let u = c as u32;
        if u < 48 || u > 57 {
            proof {
                assert(d[i - start] == v@[i as int]);
                assert(!is_digit(d[i - start]));
            }
            return None;
        }
        proof {
            let pre = v@.subrange(start as int, i as int);
            assert(v@.subrange(start as int, i + 1).drop_last() =~= pre);
            assert(v@.subrange(start as int, i + 1).last() == c);
            assert forall|k: int| 0 <= k < pre.len() implies is_digit(#[trigger] pre[k]) by {
                assert(pre[k] == v@[start + k]);
            }
            lemma_digits_nonneg(pre);
        }
        let dv = (u - 48) as i64;
        let next = acc * 10 + dv;
        acc = if next < big {
            next
        } else {
            big
        };
        i = i + 1;
    }
    proof {
        assert(v@.subrange(start as int, hi as int) == d);
        assert forall|k: int| 0 <= k < d.len() implies is_digit(#[trigger] d[k]) by {
            assert(d[k] == v@[start + k]);
        }
        lemma_digits_nonneg(d);
        if lo < hi {
            assert(s[0] == v@[lo as int]);
        }
    }
    let value: i64 = if neg {
        -acc
    } else {
        acc
    };
    if value < -2147483648 || value > 2147483647 {
        None
    } else {
        Some(value as i32)
    }
}

/// The `[start, end)` bounds of the pieces of `v` cut at every `sep`.
fn split_ranges(v: &Vec<char>, sep: char) -> (r: Vec<(usize, usize)>)
    ensures
        r.len() == split_on(v@, sep).len(),
        forall|k: int|
            0 <= k < r.len() ==> (#[trigger] r@[k]).0 <= r@[k].1 <= v.len() && v@.subrange(
                r@[k].0 as int,
                r@[k].1 as int,
            ) == split_on(v@, sep)[k],
{
    let n = v.len();
    let mut r: Vec<(usize, usize)> = Vec::new();
    let mut ps: usize = 0;
    proof {
        assert(v@.subrange(0, 0) =~= Seq::<char>::empty());
    }
    for i in 0..n
        invariant
            n == v.len(),
            ps <= i,
            r.len() + 1 == split_on(v@.subrange(0, i as int), sep).len(),
            forall|k: int|
                0 <= k < r.len() ==> (#[trigger] r@[k]).0 <= r@[k].1 <= v.len() && v@.subrange(
                    r@[k].0 as int,
                    r@[k].1 as int,
                ) == split_on(v@.subrange(0, i as int), sep)[k],
            split_on(v@.subrange(0, i as int), sep).last() == v@.subrange(ps as int, i as int),
    {
        let ghost prev = split_on(v@.subrange(0, i as int), sep);
        proof {
            assert(v@.subrange(0, i + 1).drop_last() =~= v@.subrange(0, i as int));
            assert(v@.subrange(0, i + 1).last() == v@[i as int]);
        }
        if v[i] == sep {
            r.push((ps, i));
            proof {
                assert(v@.subrange(i + 1, i + 1) =~= Seq::<char>::empty());
                let next = split_on(v@.subrange(0, i + 1), sep);
                assert(next == prev.push(Seq::empty()));
                assert forall|k: int| 0 <= k < r.len() implies (#[trigger] r@[k]).0 <= r@[k].1
                    <= v.len() && v@.subrange(r@[k].0 as int, r@[k].1 as int) == next[k] by {
                    if k == r.len() - 1 {
                        assert(next[k] == prev.last());
                    }
                }
            }
            ps = i + 1;
        } else {
            proof {
                let next = split_on(v@.subrange(0, i + 1), sep);
                assert(next == prev.update(prev.len() - 1, prev.last().push(v@[i as int])));
                assert(v@.subrange(ps as int, i + 1) =~= v@.subrange(ps as int, i as int).push(
                    v@[i as int],
                ));
            }
        }
    }
    r.push((ps, n));
    proof {
        assert(v@.subrange(0, n as int) =~= v@);
    }
    r
}

/// The region coordinates in a region file name.
pub fn region_coords(file_name: &str) -> (r: Option<(i32, i32)>)
    ensures
        match r {
            Some((x, z)) => region_coords_spec(file_name@) == Some((x as int, z as int)),
            None => region_coords_spec(file_name@) is None,
        },
{
    let v = chars_of(file_name);
    let parts = split_ranges(&v, '.');
    if parts.len() < 3 {
        return None;
    }
    let (a1, b1) = parts[1];
    let (a2, b2) = parts[2];
    let x = match parse_i32_range(&v, a1, b1) {
        Some(x) => x,
        None => 0,
    };
    let z = match parse_i32_range(&v, a2, b2) {
        Some(z) => z,
        None => 0,
    };
    Some((x, z))
}

// ---------------------------------------------------------------------------
// Counting the chunks to read
// ---------------------------------------------------------------------------

/// Whether a chunk counts toward the total to read: in dynamic mode, or
/// without coordinates, every chunk counts; with coordinates, the chunks from
/// `start >> 4` to `end >> 4` on both axes do.
pub open spec fn chunk_counted(dynamic: bool, coords: Option<ConversionCoords>, cx: int, cz: int) -> bool {
    dynamic || match coords {
        None => true,
        Some(c) => (c.start_x as int) / 16 <= cx <= (c.end_x as int) / 16 && (c.start_z as int) / 16
            <= cz <= (c.end_z as int) / 16,
    }
}

/// The number of chunks at `positions` (within region `region`) that count.
pub open spec fn count_spec(
    dynamic: bool,
    coords: Option<ConversionCoords>,
    region: (int, int),
    positions: Seq<(usize, usize)>,
) -> int
    decreases positions.len(),
{
    if positions.len() == 0 {
        0
    } else {
        count_spec(dynamic, coords, region, positions.drop_last()) + if chunk_counted(
            dynamic,
            coords,
            region.0 * 32 + positions.last().0,
            region.1 * 32 + positions.last().1,
        ) {
            1int
        } else {
            0int
        }
    }
}

/// How many chunks of a region count toward the total to read. With
/// coordinates, in static mode, a region whose file name does not hold its
/// coordinates contributes none.
pub open spec fn region_count_spec(
    dynamic: bool,
    coords: Option<ConversionCoords>,
    name: Seq<char>,
    positions: Seq<(usize, usize)>,
) -> int {
    if dynamic || coords is None {
        positions.len() as int
    } else {
        match region_coords_spec(name) {
            None => 0,
            Some(rc) => count_spec(dynamic, coords, rc, positions),
        }
    }
}

/// Chunk positions `(x, z)` within a region lie in `0..32`, and the chunk
/// coordinates that they give fit `i32`.
pub open spec fn positions_fit(region: (int, int), positions: Seq<(usize, usize)>) -> bool {
    forall|k: int|
        0 <= k < positions.len() ==> (#[trigger] positions[k]).0 < 32 && positions[k].1 < 32
            && fits_i32(region.0 * 32 + positions[k].0) && fits_i32(region.1 * 32 + positions[k].1)
}

/// The number of chunks of one region file that count toward the total to read.
pub fn count_region_chunks(
    dynamic: bool,
    coords: &Option<ConversionCoords>,
    file_name: &str,
    positions: &Vec<(usize, usize)>,
) -> (r: usize)
    requires
        !dynamic && coords is Some && region_coords_spec(file_name@) is Some ==> positions_fit(
            region_coords_spec(file_name@)->0,
            positions@,
        ),
    ensures
        r == region_count_spec(dynamic, *coords, file_name@, positions@),
{
    if dynamic {
        return positions.len();
    }
    match coords {
        None => positions.len(),
        Some(c) => {
            let rc = region_coords(file_name);
            match rc {
                None => 0,
                Some((rx, rz)) => {
                    let sx = chunk_of(c.start_x);
                    let ex = chunk_of(c.end_x);
                    let sz = chunk_of(c.start_z);
                    let ez = chunk_of(c.end_z);
                    let ghost region = (rx as int, rz as int);
                    let mut total: usize = 0;
                    let n = positions.len();
                    for k in 0..n
                        invariant
                            n == positions.len(),
                            !dynamic,
                            *coords == Some(*c),
                            region == (rx as int, rz as int),
                            positions_fit(region, positions@),
                            sx as int == (c.start_x as int) / 16,
                            ex as int == (c.end_x as int) / 16,
                            sz as int == (c.start_z as int) / 16,
                            ez as int == (c.end_z as int) / 16,
                            total == count_spec(dynamic, *coords, region, positions@.take(k as int)),
                            total <= k,
                    {
                        proof {
                            assert(positions@.take(k + 1).drop_last() =~= positions@.take(k as int));
                            assert(positions@.take(k + 1).last() == positions@[k as int]);
                        }
                        let (lx, lz) = positions[k];
                        let cx = chunk_position(rx, lx);
                        let cz = chunk_position(rz, lz);
                        if cx >= sx && cx <= ex && cz >= sz && cz <= ez {
                            total = total + 1;
                        }
                    }
                    proof {
                        assert(positions@.take(n as int) =~= positions@);
                    }
                    total
                },
            }
        },
    }
}

/// The chunks read in static mode do not depend on which corner of the
/// rectangle comes first.
pub proof fn lemma_bounds_corner_order(c: ConversionCoords)
    ensures
        bounds_spec(c) == bounds_spec(
            (ConversionCoords { start_x: c.end_x, start_z: c.end_z, end_x: c.start_x, end_z: c.start_z }),
        ),
        bounds_spec(c) == bounds_spec(
            (ConversionCoords { start_x: c.end_x, start_z: c.start_z, end_x: c.start_x, end_z: c.end_z }),
        ),
{
}

/// A world block as a block to turn into a brush.
pub fn to_vmf_block(mb: MinecraftBlock) -> (r: VmfBlock)
    ensures
        r.x == mb.x && r.y == mb.y && r.z == mb.z && r.block_type@ == mb.block_type@,
{
    VmfBlock { x: mb.x, y: mb.y, z: mb.z, block_type: mb.block_type }
}

/// Every block converted from a chunk lies in that chunk's 16 by 16 column and
/// in the area, if one is given, and is neither air nor a barrier.
pub proof fn lemma_extract_in_chunk(
    bs: Seq<ColumnBlock>,
    cx: int,
    cz: int,
    area: Option<(i32, i32, i32, i32)>,
)
    requires
        forall|i: int| 0 <= i < bs.len() ==> (#[trigger] bs[i]).x < 16 && bs[i].z < 16,
    ensures
        forall|k: int|
            0 <= k < extract_spec(bs, cx, cz, area).len() ==> {
                let b = #[trigger] extract_spec(bs, cx, cz, area)[k];
                &&& cx * 16 <= b.0 < cx * 16 + 16
                &&& cz * 16 <= b.2 < cz * 16 + 16
                &&& in_area(area, b.0, b.2)
                &&& !is_air_like(b.3)
            },
    decreases bs.len(),
{
    if bs.len() > 0 {
        let pre = bs.drop_last();
        assert forall|i: int| 0 <= i < pre.len() implies (#[trigger] pre[i]).x < 16 && pre[i].z < 16 by {
            assert(pre[i] == bs[i]);
        }
        lemma_extract_in_chunk(pre, cx, cz, area);
        assert(bs.last() == bs[bs.len() - 1]);
        let e = extract_spec(bs, cx, cz, area);
        let ep = extract_spec(pre, cx, cz, area);
        assert forall|k: int| 0 <= k < e.len() implies {
            let b = #[trigger] e[k];
            &&& cx * 16 <= b.0 < cx * 16 + 16
            &&& cz * 16 <= b.2 < cz * 16 + 16
            &&& in_area(area, b.0, b.2)
            &&& !is_air_like(b.3)
        } by {
            if k < ep.len() {
                assert(e[k] == ep[k]);
            }
        }
    }
}

/// A chunk that holds any block other than air, a barrier or bedrock is not
/// empty, wherever that block stands, before or after any bedrock.
pub proof fn lemma_other_block_not_empty(bs: Seq<ColumnBlock>, i: int)
    requires
        0 <= i < bs.len(),
        bs[i].name@ != "minecraft:air"@,
        bs[i].name@ != "minecraft:barrier"@,
        bs[i].name@ != "minecraft:bedrock"@,
    ensures
        !chunk_empty_spec(bs),
{
    assert(!(is_air_like(bs[i].name@) || is_bedrock(bs[i].name@)));
}

/// Bedrock at two different heights makes a chunk not empty.
pub proof fn lemma_two_bedrock_layers_not_empty(bs: Seq<ColumnBlock>, i: int, j: int)
    requires
        0 <= i < bs.len(),
        0 <= j < bs.len(),
        bs[i].name@ == "minecraft:bedrock"@,
        bs[j].name@ == "minecraft:bedrock"@,
        bs[i].y != bs[j].y,
    ensures
        !chunk_empty_spec(bs),
{
}

/// A chunk of air, barriers and bedrock all at one height is empty.
pub proof fn lemma_air_and_one_bedrock_layer_empty(bs: Seq<ColumnBlock>, y: isize)
    requires
        forall|i: int|
            0 <= i < bs.len() ==> (#[trigger] bs[i]).name@ == "minecraft:air"@ || bs[i].name@
                == "minecraft:barrier"@ || (bs[i].name@ == "minecraft:bedrock"@ && bs[i].y == y),
    ensures
        chunk_empty_spec(bs),
{
    lemma_names_distinct();
}

} // verus!
