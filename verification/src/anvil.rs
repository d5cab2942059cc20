//! Decoding chunks of a region file with `fastanvil`.
use vstd::prelude::*;
use crate::world::{
    block_area, chunk_bounds, chunk_empty_spec, chunk_fits, chunk_outcome, chunk_position,
    column_wf, conversion_area, extract_spec, fits_i32, in_area, is_air_like, is_chunk_selected,
    lemma_extract_in_chunk, selected_for, chunk_counted, count_spec, region_count_spec,
    region_coords_spec, ChunkColumn, ChunkOutcome, ColumnBlock, ConversionCoords,
    MinecraftBlock,
};

verus! {

/// A chunk of the current (1.18 and later) format, as `fastanvil` deserializes it.
#[verifier::external_type_specification]
#[verifier::external_body]
pub struct ExCurrentJavaChunk(fastanvil::CurrentJavaChunk);

/// A decoding error of `fastnbt`.
#[verifier::external_type_specification]
#[verifier::external_body]
pub struct ExNbtError(fastnbt::error::Error);

/// A section of a chunk as plain values: its height (in sections), the names of
/// its block palette, and the palette indices of its 16 by 16 by 16 blocks (x
/// fastest, then z, then y), where it stores them.
pub type SectionView = (int, Seq<Seq<char>>, Option<Seq<int>>);

/// The sections that a current-format chunk holds, in the order in which it
/// stores them; `None` where the chunk has no sections.
pub uninterp spec fn chunk_sections_of(c: fastanvil::CurrentJavaChunk) -> Option<
    Seq<(int, Seq<Seq<char>>, Option<Seq<int>>)>,
>;

/// The heights that a current-format chunk spans, `(start, end)`, `end` excluded.
pub uninterp spec fn chunk_span_of(c: fastanvil::CurrentJavaChunk) -> (int, int);

/// What decoding chunk data gives: `None` where the data does not decode,
/// `Some(None)` for a chunk of a format older than 1.18, else the sections and
/// span of the chunk, as `chunk_sections_of` and `chunk_span_of` name them.
pub uninterp spec fn decoded_chunk(data: Seq<u8>) -> Option<
    Option<(Option<Seq<(int, Seq<Seq<char>>, Option<Seq<int>>)>>, (int, int))>,
>;

/// Decodes chunk data with `fastanvil::JavaChunk::from_bytes`, which only
/// deserializes, and keeps a chunk of the current format.
/// Trusted: the result depends on the bytes alone, which `decoded_chunk` names.
#[verifier::external_body]
fn decode_chunk(data: &[u8]) -> (r: Result<Option<fastanvil::CurrentJavaChunk>, fastnbt::error::Error>)
    ensures
        r is Ok <==> decoded_chunk(data@) is Some,
        r matches Ok(Some(c)) ==> decoded_chunk(data@) == Some(
            Some((chunk_sections_of(c), chunk_span_of(c))),
        ),
        r matches Ok(None) ==> decoded_chunk(data@) == Some(
            None::<(Option<Seq<SectionView>>, (int, int))>,
        ),
{
    fastanvil::JavaChunk::from_bytes(data).map(|j| match j {
        fastanvil::JavaChunk::Post18(c) => Some(c),
        fastanvil::JavaChunk::Pre18(_) => None,
        fastanvil::JavaChunk::Pre13(_) => None,
    })
}

/// The message of a decoding error, through its `Display` (`to_string`). Its text is not stated.
#[verifier::external_body]
fn nbt_error_message(e: &fastnbt::error::Error) -> (r: String) {
    e.to_string()
}

/// The heights of a chunk, `fastanvil::Chunk::y_range`, as `(start, end)`.
/// Trusted: the range is the span of the chunk's sections, which `chunk_span_of` names.
#[verifier::external_body]
fn chunk_y_range(c: &fastanvil::CurrentJavaChunk) -> (r: (isize, isize))
    ensures
        (r.0 as int, r.1 as int) == chunk_span_of(*c),
{
    let range = fastanvil::Chunk::y_range(c);
    (range.start, range.end)
}

/// The names of a palette.
pub open spec fn names_view(v: Seq<String>) -> Seq<Seq<char>> {
    v.map_values(|s: String| s@)
}

/// The height and the palette names of each section of a chunk: the field
/// `sections`, `SectionTower::sections`, `Section::y`, `BlockData::palette` and
/// `Block::name`. Trusted: these read the sections that `chunk_sections_of` names.
#[verifier::external_body]
fn chunk_section_heads(c: &fastanvil::CurrentJavaChunk) -> (r: Option<Vec<(i8, Vec<String>)>>)
    ensures
        match r {
            None => chunk_sections_of(*c) is None,
            Some(v) => chunk_sections_of(*c) matches Some(s) && v.len() == s.len() && forall|k: int|
                0 <= k < v.len() ==> (#[trigger] v@[k]).0 as int == s[k].0 && names_view(v@[k].1@)
                    == s[k].1,
        },
{
    c.sections.as_ref().map(|t| {
        t.sections().iter().map(|s| {
            (s.y, s.block_states.palette().iter().map(|b| b.name().to_owned()).collect())
        }).collect()
    })
}

/// The palette indices of the blocks of section `k`: `BlockData::try_iter_indices`,
/// whose iterator unpacks the stored longs and stops where they run out.
/// Trusted: these are the indices that `chunk_sections_of` names. The palette must
/// not be empty: fastanvil takes one from its length to size the indices.
#[verifier::external_body]
fn section_indices(c: &fastanvil::CurrentJavaChunk, k: usize) -> (r: Option<Vec<u64>>)
    requires
        chunk_sections_of(*c) matches Some(s) && k < s.len() && s[k as int].1.len() > 0,
    ensures
        r matches Some(v) ==> chunk_sections_of(*c).unwrap()[k as int].2 == Some(
            v@.map_values(|u: u64| u as int),
        ),
        r is None ==> chunk_sections_of(*c).unwrap()[k as int].2 is None,
{
    c.sections.as_ref().and_then(|t| t.sections().get(k)).and_then(|s| {
        s.block_states.try_iter_indices().map(|it| it.map(|i| i as u64).collect())
    })
}

/// The sections of a chunk, or none where it has no sections.
pub open spec fn sections_or_none(v: Option<Seq<SectionView>>) -> Seq<SectionView> {
    match v {
        Some(s) => s,
        None => Seq::empty(),
    }
}

pub open spec fn air_name() -> Seq<char> {
    "minecraft:air"@
}

/// The block at `p = (x, y, z)` of a chunk whose sections are `secs` and whose
/// span starts at `lo`, as a complete `fastanvil` chunk gives it: the section is
/// the `(y - lo) / 16`-th stored one; a section without palette is air, one
/// without indices is its first palette entry, else the entry of the block's index
/// (taken modulo 2^16). `Some(None)` where the index lies past the palette; `None`
/// where the section or the block's index is missing.
pub open spec fn block_at(secs: Seq<SectionView>, lo: int, p: (int, int, int)) -> Option<
    Option<Seq<char>>,
> {
    let k = (p.1 - lo) / 16;
    if k < 0 || k >= secs.len() {
        None
    } else {
        let s = secs[k];
        if s.1.len() == 0 {
            Some(Some(air_name()))
        } else {
            match s.2 {
                None => Some(Some(s.1[0])),
                Some(st) => {
                    let i = (p.1 - (16 * k + lo)) * 256 + p.2 * 16 + p.0;
                    if i >= st.len() {
                        None
                    } else {
                        let pi = st[i] % 65536;
                        if pi < s.1.len() {
                            Some(Some(s.1[pi]))
                        } else {
                            Some(None)
                        }
                    }
                },
            }
        }
    }
}

/// Every position within the span has its section and its block's index.
pub open spec fn chunk_complete(secs: Seq<SectionView>, span: (int, int)) -> bool {
    forall|p: (int, int, int)| in_column(span, p) ==> (#[trigger] block_at(secs, span.0, p)) is Some
}

/// The blocks of a chunk, by position, within its span.
pub open spec fn chunk_map(secs: Seq<SectionView>, span: (int, int)) -> Map<(int, int, int), Seq<char>> {
    Map::new(
        |p: (int, int, int)| in_column(span, p) && block_at(secs, span.0, p) matches Some(Some(_)),
        |p: (int, int, int)| block_at(secs, span.0, p).unwrap().unwrap(),
    )
}

/// Chunk data that can be read: it decodes, has the current format, and every
/// position within its span has its section and its block's index.
pub open spec fn data_reads(data: Seq<u8>) -> bool {
    decoded_chunk(data) matches Some(Some(v)) && chunk_complete(sections_or_none(v.0), v.1)
}

/// The blocks, by position, of chunk data that can be read.
pub open spec fn data_map(data: Seq<u8>) -> Map<(int, int, int), Seq<char>> {
    let v = decoded_chunk(data).unwrap().unwrap();
    chunk_map(sections_or_none(v.0), v.1)
}

/// The span of chunk data that can be read.
pub open spec fn data_span(data: Seq<u8>) -> (int, int) {
    decoded_chunk(data).unwrap().unwrap().1
}

/// The position `(x, y, z)` of a block of a column.
pub open spec fn column_pos(b: ColumnBlock) -> (int, int, int) {
    (b.x as int, b.y as int, b.z as int)
}

/// Position `a` is read before position `b`: by y, then x, then z.
pub open spec fn read_before(a: (int, int, int), b: (int, int, int)) -> bool {
    a.1 < b.1 || (a.1 == b.1 && (a.0 < b.0 || (a.0 == b.0 && a.2 < b.2)))
}

/// Position `p` is one that reading a chunk of heights `h` visits: within the
/// heights, `x` and `z` in `0..16`.
pub open spec fn in_column(h: (int, int), p: (int, int, int)) -> bool {
    h.0 <= p.1 < h.1 && 0 <= p.0 < 16 && 0 <= p.2 < 16
}

/// `bs` is what reading a chunk that holds the blocks `m` within heights `h` gives:
/// exactly the blocks of `m` at the positions that reading visits, each with its
/// name, by y, then x, then z.
pub open spec fn column_reads(
    bs: Seq<ColumnBlock>,
    m: Map<(int, int, int), Seq<char>>,
    h: (int, int),
) -> bool {
    &&& forall|i: int|
        0 <= i < bs.len() ==> in_column(h, column_pos(#[trigger] bs[i])) && m.dom().contains(
            column_pos(bs[i]),
        ) && bs[i].name@ == m[column_pos(bs[i])]
    &&& forall|i: int, j: int|
        0 <= i < j < bs.len() ==> read_before(column_pos(#[trigger] bs[i]), column_pos(#[trigger] bs[j]))
    &&& forall|p: (int, int, int)|
        in_column(h, p) && #[trigger] m.dom().contains(p) ==> exists|i: int|
            0 <= i < bs.len() && column_pos(#[trigger] bs[i]) == p
}

/// Two sequences of positions, each in strict reading order, that hold the same
/// positions are equal.
proof fn lemma_ordered_positions_equal(a: Seq<(int, int, int)>, b: Seq<(int, int, int)>)
    requires
        forall|i: int, j: int| 0 <= i < j < a.len() ==> read_before(#[trigger] a[i], #[trigger] a[j]),
        forall|i: int, j: int| 0 <= i < j < b.len() ==> read_before(#[trigger] b[i], #[trigger] b[j]),
        forall|p: (int, int, int)| a.contains(p) <==> b.contains(p),
    ensures
        a == b,
    decreases a.len(),
{
    if a.len() == 0 {
        if b.len() > 0 {
            assert(b.contains(b[0]));
        }
        assert(a =~= b);
    } else {
        assert(a.contains(a[0]));
        assert(b.len() > 0);
        assert(b.contains(b[0]));
        let j = choose|j: int| 0 <= j < b.len() && b[j] == a[0];
        let i = choose|i: int| 0 <= i < a.len() && a[i] == b[0];
        if j > 0 {
            assert(read_before(b[0], b[j]));
            if i > 0 {
                assert(read_before(a[0], a[i]));
            }
        }
        assert(a[0] == b[0]);
        let a1 = a.drop_first();
        let b1 = b.drop_first();
        assert forall|p: (int, int, int)| a1.contains(p) <==> b1.contains(p) by {
            if a1.contains(p) {
                let k = choose|k: int| 0 <= k < a1.len() && a1[k] == p;
                assert(a[k + 1] == p);
                assert(read_before(a[0], a[k + 1]));
                assert(a.contains(p));
                let l = choose|l: int| 0 <= l < b.len() && b[l] == p;
                assert(l != 0);
                assert(b1[l - 1] == p);
            }
            if b1.contains(p) {
                let k = choose|k: int| 0 <= k < b1.len() && b1[k] == p;
                assert(b[k + 1] == p);
                assert(read_before(b[0], b[k + 1]));
                assert(b.contains(p));
                let l = choose|l: int| 0 <= l < a.len() && a[l] == p;
                assert(l != 0);
                assert(a1[l - 1] == p);
            }
        }
        assert forall|i: int, j: int| 0 <= i < j < a1.len() implies read_before(
            #[trigger] a1[i],
            #[trigger] a1[j],
        ) by {
            assert(read_before(a[i + 1], a[j + 1]));
        }
        assert forall|i: int, j: int| 0 <= i < j < b1.len() implies read_before(
            #[trigger] b1[i],
            #[trigger] b1[j],
        ) by {
            assert(read_before(b[i + 1], b[j + 1]));
        }
        lemma_ordered_positions_equal(a1, b1);
        assert(a =~= b) by {
            assert forall|k: int| 0 <= k < a.len() implies a[k] == b[k] by {
                if k > 0 {
                    assert(a[k] == a1[k - 1]);
                    assert(b[k] == b1[k - 1]);
                }
            }
        }
    }
}

/// Reading a chunk is determined by the blocks it holds and its heights: two
/// readings of the same blocks list the same positions with the same names.
pub proof fn lemma_column_reads_unique(
    b1: Seq<ColumnBlock>,
    b2: Seq<ColumnBlock>,
    m: Map<(int, int, int), Seq<char>>,
    h: (int, int),
)
    requires
        column_reads(b1, m, h),
        column_reads(b2, m, h),
    ensures
        b1.len() == b2.len(),
        forall|i: int|
            0 <= i < b1.len() ==> column_pos(#[trigger] b1[i]) == column_pos(b2[i]) && b1[i].name@
                == b2[i].name@,
{
    let a = b1.map_values(|b: ColumnBlock| column_pos(b));
    let b = b2.map_values(|b: ColumnBlock| column_pos(b));
    assert forall|i: int, j: int| 0 <= i < j < a.len() implies read_before(
        #[trigger] a[i],
        #[trigger] a[j],
    ) by {
        assert(read_before(column_pos(b1[i]), column_pos(b1[j])));
    }
    assert forall|i: int, j: int| 0 <= i < j < b.len() implies read_before(
        #[trigger] b[i],
        #[trigger] b[j],
    ) by {
        assert(read_before(column_pos(b2[i]), column_pos(b2[j])));
    }
    assert forall|p: (int, int, int)| a.contains(p) <==> b.contains(p) by {
        if a.contains(p) {
            let k = choose|k: int| 0 <= k < a.len() && a[k] == p;
            assert(column_pos(b1[k]) == p);
            assert(in_column(h, p) && m.dom().contains(p));
            let l = choose|l: int| 0 <= l < b2.len() && column_pos(#[trigger] b2[l]) == p;
            assert(b[l] == p);
        }
        if b.contains(p) {
            let k = choose|k: int| 0 <= k < b.len() && b[k] == p;
            assert(column_pos(b2[k]) == p);
            assert(in_column(h, p) && m.dom().contains(p));
            let l = choose|l: int| 0 <= l < b1.len() && column_pos(#[trigger] b1[l]) == p;
            assert(a[l] == p);
        }
    }
    lemma_ordered_positions_equal(a, b);
    assert(b1.len() == a.len() && a.len() == b.len() && b.len() == b2.len());
    assert forall|i: int| 0 <= i < b1.len() implies column_pos(#[trigger] b1[i]) == column_pos(b2[i])
        && b1[i].name@ == b2[i].name@ by {
        assert(a[i] == b[i]);
        assert(b1[i].name@ == m[column_pos(b1[i])]);
        assert(b2[i].name@ == m[column_pos(b2[i])]);
    }
}

/// A section as read: its height, its palette names and its indices, if read.
pub open spec fn section_view(s: (i8, Vec<String>, Option<Vec<u64>>)) -> SectionView {
    (
        s.0 as int,
        names_view(s.1@),
        match s.2 {
            Some(v) => Some(v@.map_values(|u: u64| u as int)),
            None => None,
        },
    )
}

pub open spec fn sections_view(v: Seq<(i8, Vec<String>, Option<Vec<u64>>)>) -> Seq<SectionView> {
    v.map_values(|s: (i8, Vec<String>, Option<Vec<u64>>)| section_view(s))
}

/// Two section lists agree where a lookup can tell: heights and palettes, and
/// the indices of each section that has a palette.
pub open spec fn sections_agree(a: Seq<SectionView>, b: Seq<SectionView>) -> bool {
    &&& a.len() == b.len()
    &&& forall|k: int|
        0 <= k < a.len() ==> (#[trigger] a[k]).0 == b[k].0 && a[k].1 == b[k].1 && (a[k].1.len() > 0
            ==> a[k].2 == b[k].2)
}

proof fn lemma_block_at_agree(a: Seq<SectionView>, b: Seq<SectionView>, lo: int, p: (int, int, int))
    requires
        sections_agree(a, b),
    ensures
        block_at(a, lo, p) == block_at(b, lo, p),
{
    let k = (p.1 - lo) / 16;
    if 0 <= k < a.len() {
        assert(a[k].1 == b[k].1);
    }
}

/// The sections of a chunk with the indices of each section that has a palette.
fn read_sections(c: &fastanvil::CurrentJavaChunk) -> (r: Vec<(i8, Vec<String>, Option<Vec<u64>>)>)
    ensures
        sections_agree(sections_view(r@), sections_or_none(chunk_sections_of(*c))),
{
    let mut r: Vec<(i8, Vec<String>, Option<Vec<u64>>)> = Vec::new();
    match chunk_section_heads(c) {
        None => {
            proof {
                assert(sections_view(r@) =~= Seq::<SectionView>::empty());
            }
            r
        },
        Some(heads) => {
            let ghost s = chunk_sections_of(*c).unwrap();
            let n = heads.len();
            for k in 0..n
                invariant
                    n == heads.len(),
                    chunk_sections_of(*c) == Some(s),
                    heads.len() == s.len(),
                    forall|q: int|
                        0 <= q < heads.len() ==> (#[trigger] heads@[q]).0 as int == s[q].0 && names_view(
                            heads@[q].1@,
                        ) == s[q].1,
                    r.len() == k,
                    forall|q: int|
                        0 <= q < k ==> (#[trigger] section_view(r@[q])).0 == s[q].0 && section_view(
                            r@[q],
                        ).1 == s[q].1 && (section_view(r@[q]).1.len() > 0 ==> section_view(r@[q]).2
                            == s[q].2),
            {
                let h = &heads[k];
                let states = if h.1.len() > 0 {
                    proof {
                        assert(names_view(heads@[k as int].1@).len() == h.1.len());
                    }
                    section_indices(c, k)
                } else {
                    None
                };
                let ghost old_r = r@;
                let pal = h.1.clone();
                proof {
                    assert(pal@ =~= h.1@);
                }
                r.push((h.0, pal, states));
                proof {
                    assert(r@[k as int] == (h.0, pal, states));
                    assert(names_view(pal@) =~= s[k as int].1);
                    assert forall|q: int| 0 <= q < k implies r@[q] == old_r[q] by {}
                }
            }
            proof {
                let sv = sections_view(r@);
                assert forall|q: int| 0 <= q < sv.len() implies (#[trigger] sv[q]).0 == s[q].0 && sv[q].1
                    == s[q].1 && (sv[q].1.len() > 0 ==> sv[q].2 == s[q].2) by {
                    assert(sv[q] == section_view(r@[q]));
                }
            }
            r
        },
    }
}

/// The block at `(x, y, z)`, as `block_at` describes it.
fn lookup_block(
    secs: &Vec<(i8, Vec<String>, Option<Vec<u64>>)>,
    lo: isize,
    x: usize,
    y: isize,
    z: usize,
) -> (r: Option<Option<String>>)
    requires
        lo <= y,
        x < 16,
        z < 16,
    ensures
        match r {
            None => block_at(sections_view(secs@), lo as int, (x as int, y as int, z as int)) is None,
            Some(None) => block_at(sections_view(secs@), lo as int, (x as int, y as int, z as int))
                == Some(None::<Seq<char>>),
            Some(Some(n)) => block_at(sections_view(secs@), lo as int, (x as int, y as int, z as int))
                == Some(Some(n@)),
        },
{
    let ghost sv = sections_view(secs@);
    let d: i128 = (y as i128) - (lo as i128);
    let k128: i128 = d / 16;
    if k128 >= secs.len() as i128 {
        return None;
    }
    let k = k128 as usize;
    let s = &secs[k];
    proof {
        assert(sv[k as int] == section_view(secs@[k as int]));
    }
    if s.1.len() == 0 {
        let air = "minecraft:air".to_owned();
        return Some(Some(air));
    }
    match &s.2 {
        None => {
            proof {
                assert(names_view(s.1@)[0] == s.1@[0]@);
            }
            Some(Some(s.1[0].clone()))
        },
        Some(st) => {
            let sec_y: i128 = d - 16 * k128;
            let i: usize = (sec_y as usize) * 256 + z * 16 + x;
            proof {
                assert(sec_y == (y - (16 * k + lo)));
                assert(st@.map_values(|u: u64| u as int).len() == st.len());
            }
            if i >= st.len() {
                return None;
            }
            let pi: u64 = st[i] % 65536;
            proof {
                assert(st@.map_values(|u: u64| u as int)[i as int] == st@[i as int] as int);
            }
            if pi < s.1.len() as u64 {
                proof {
                    assert(names_view(s.1@)[pi as int] == s.1@[pi as int]@);
                }
                Some(Some(s.1[pi as usize].clone()))
            } else {
                Some(None)
            }
        },
    }
}

/// The blocks of a current-format chunk, by y, then x, then z: exactly the
/// blocks that it holds within its span, each with its name; `None` where a
/// position within the span has no section or no index.
pub fn read_chunk_column(c: &fastanvil::CurrentJavaChunk) -> (r: Option<ChunkColumn>)
    ensures
        r is Some <==> chunk_complete(sections_or_none(chunk_sections_of(*c)), chunk_span_of(*c)),
        r matches Some(col) ==> column_wf(col) && column_reads(
            col.blocks@,
            chunk_map(sections_or_none(chunk_sections_of(*c)), chunk_span_of(*c)),
            chunk_span_of(*c),
        ),
{
    let (start, end) = chunk_y_range(c);
    let secs = read_sections(c);
    let ghost named = sections_or_none(chunk_sections_of(*c));
    let ghost h = chunk_span_of(*c);
    let ghost m = chunk_map(named, h);
    let ghost sv = sections_view(secs@);
    let mut blocks: Vec<ColumnBlock> = Vec::new();
    let mut y = start;
    while y < end
        invariant
            (start as int, end as int) == h,
            h == chunk_span_of(*c),
            named == sections_or_none(chunk_sections_of(*c)),
            m == chunk_map(named, h),
            sv == sections_view(secs@),
            sections_agree(sv, named),
            start <= y,
            forall|p: (int, int, int)|
                in_column(h, p) && p.1 < y ==> (#[trigger] block_at(named, h.0, p)) is Some,
            forall|i: int|
                0 <= i < blocks.len() ==> in_column(h, column_pos(#[trigger] blocks@[i]))
                    && m.dom().contains(column_pos(blocks@[i])) && blocks@[i].name@ == m[column_pos(
                    blocks@[i],
                )] && blocks@[i].y < y,
            forall|i: int, j: int|
                0 <= i < j < blocks.len() ==> read_before(
                    column_pos(#[trigger] blocks@[i]),
                    column_pos(#[trigger] blocks@[j]),
                ),
            forall|p: (int, int, int)|
                in_column(h, p) && #[trigger] m.dom().contains(p) && p.1 < y ==> exists|i: int|
                    0 <= i < blocks.len() && column_pos(#[trigger] blocks@[i]) == p,
        decreases end - y,
    {
        let mut x: usize = 0;
        while x < 16
            invariant
                (start as int, end as int) == h,
                h == chunk_span_of(*c),
                named == sections_or_none(chunk_sections_of(*c)),
                m == chunk_map(named, h),
                sv == sections_view(secs@),
                sections_agree(sv, named),
                start <= y < end,
                x <= 16,
                forall|p: (int, int, int)|
                    in_column(h, p) && (p.1 < y || (p.1 == y && p.0 < x)) ==> (#[trigger] block_at(
                        named,
                        h.0,
                        p,
                    )) is Some,
                forall|i: int|
                    0 <= i < blocks.len() ==> in_column(h, column_pos(#[trigger] blocks@[i]))
                        && m.dom().contains(column_pos(blocks@[i])) && blocks@[i].name@ == m[column_pos(
                        blocks@[i],
                    )] && (blocks@[i].y < y || (blocks@[i].y == y && blocks@[i].x < x)),
                forall|i: int, j: int|
                    0 <= i < j < blocks.len() ==> read_before(
                        column_pos(#[trigger] blocks@[i]),
                        column_pos(#[trigger] blocks@[j]),
                    ),
                forall|p: (int, int, int)|
                    in_column(h, p) && #[trigger] m.dom().contains(p) && (p.1 < y || (p.1 == y
                        && p.0 < x)) ==> exists|i: int|
                        0 <= i < blocks.len() && column_pos(#[trigger] blocks@[i]) == p,
            decreases 16 - x,
        {
            let mut z: usize = 0;
            while z < 16
                invariant
                    (start as int, end as int) == h,
                    h == chunk_span_of(*c),
                    named == sections_or_none(chunk_sections_of(*c)),
                    m == chunk_map(named, h),
                    sv == sections_view(secs@),
                    sections_agree(sv, named),
                    start <= y < end,
                    x < 16,
                    z <= 16,
                    forall|p: (int, int, int)|
                        in_column(h, p) && read_before(p, (x as int, y as int, z as int)) ==> (
                        #[trigger] block_at(named, h.0, p)) is Some,
                    forall|i: int|
                        0 <= i < blocks.len() ==> in_column(h, column_pos(#[trigger] blocks@[i]))
                            && m.dom().contains(column_pos(blocks@[i])) && blocks@[i].name@
                            == m[column_pos(blocks@[i])] && read_before(
                            column_pos(blocks@[i]),
                            (x as int, y as int, z as int),
                        ),
                    forall|i: int, j: int|
                        0 <= i < j < blocks.len() ==> read_before(
                            column_pos(#[trigger] blocks@[i]),
                            column_pos(#[trigger] blocks@[j]),
                        ),
                    forall|p: (int, int, int)|
                        in_column(h, p) && #[trigger] m.dom().contains(p) && read_before(
                            p,
                            (x as int, y as int, z as int),
                        ) ==> exists|i: int|
                            0 <= i < blocks.len() && column_pos(#[trigger] blocks@[i]) == p,
                decreases 16 - z,
            {
                let ghost q = (x as int, y as int, z as int);
                proof {
                    lemma_block_at_agree(sv, named, h.0, q);
                    assert(in_column(h, q));
                }
                let ghost old_blocks = blocks@;
                match lookup_block(&secs, start, x, y, z) {
                    None => {
                        proof {
                            assert(!chunk_complete(named, h));
                        }
                        return None;
                    },
                    Some(None) => {
                        proof {
                            assert(!m.dom().contains(q));
                        }
                    },
                    Some(Some(name)) => {
                        proof {
                            assert(m.dom().contains(q));
                            assert(m[q] == name@);
                        }
                        blocks.push(ColumnBlock { y, x: x as u8, z: z as u8, name });
                        proof {
                            assert forall|i: int| 0 <= i < old_blocks.len() implies blocks@[i]
                                == old_blocks[i] by {}
                        }
                    },
                }
                proof {
                    assert forall|p: (int, int, int)|
                        in_column(h, p) && #[trigger] m.dom().contains(p) && read_before(
                            p,
                            (x as int, y as int, z + 1),
                        ) implies exists|i: int|
                            0 <= i < blocks.len() && column_pos(#[trigger] blocks@[i]) == p by {
                        if p == q {
                            let l = blocks.len() - 1;
                            assert(column_pos(blocks@[l]) == p);
                        } else {
                            assert(read_before(p, q));
                            let i = choose|i: int|
                                0 <= i < old_blocks.len() && column_pos(#[trigger] old_blocks[i]) == p;
                            assert(blocks@[i] == old_blocks[i]);
                            assert(column_pos(blocks@[i]) == p);
                        }
                    }
                    assert forall|p: (int, int, int)|
                        in_column(h, p) && read_before(p, (x as int, y as int, z + 1)) implies (
                        #[trigger] block_at(named, h.0, p)) is Some by {
                        if p != q {
                            assert(read_before(p, q));
                        }
                    }
                }
                z = z + 1;
            }
            x = x + 1;
        }
        y = y + 1;
    }
    proof {
        assert forall|p: (int, int, int)| in_column(h, p) implies (#[trigger] block_at(named, h.0, p)) is Some by {}
    }
    Some(ChunkColumn { blocks })
}

/// What becomes of the blocks of a chunk that was read: in dynamic mode an
/// empty one is skipped, else its blocks other than air and barriers, inside
/// the area if one is given, are converted.
pub open spec fn outcome_matches(
    bs: Seq<ColumnBlock>,
    dynamic: bool,
    cx: int,
    cz: int,
    area: Option<(i32, i32, i32, i32)>,
    o: ChunkOutcome,
) -> bool {
    if dynamic && chunk_empty_spec(bs) {
        o is Empty
    } else {
        o matches ChunkOutcome::Blocks(v) && v@.map_values(|b: MinecraftBlock| b@) == extract_spec(
            bs,
            cx,
            cz,
            area,
        )
    }
}

/// One chunk of a region: chunk `(local_x, local_z)` of region `(region_x, region_z)`, with its data.
/// A chunk that is not selected is not decoded. A selected one is decoded; where
/// that fails, where its format is older than 1.18, or where a position within its
/// span has no section or no index, an error is returned; else its outcome follows
/// from the blocks that reading the chunk gives.
pub fn process_chunk(
    region_x: i32,
    region_z: i32,
    local_x: usize,
    local_z: usize,
    data: &[u8],
    dynamic: bool,
    coords: &Option<ConversionCoords>,
) -> (r: Result<ChunkOutcome, String>)
    requires
        local_x < 32,
        local_z < 32,
        fits_i32(region_x * 32 + local_x),
        fits_i32(region_z * 32 + local_z),
        selected_for(dynamic, *coords, region_x * 32 + local_x, region_z * 32 + local_z) ==> chunk_fits(
            region_x * 32 + local_x,
        ) && chunk_fits(region_z * 32 + local_z),
    ensures
        !selected_for(dynamic, *coords, region_x * 32 + local_x, region_z * 32 + local_z) ==> (r matches Ok(
            o,
        ) && o is OutOfRange),
        selected_for(dynamic, *coords, region_x * 32 + local_x, region_z * 32 + local_z) ==> (r is Ok
            <==> data_reads(data@)),
        selected_for(dynamic, *coords, region_x * 32 + local_x, region_z * 32 + local_z) ==> (r matches Ok(
            o,
        ) ==> exists|bs: Seq<ColumnBlock>|
            column_reads(bs, data_map(data@), data_span(data@)) && #[trigger] outcome_matches(
                bs,
                dynamic,
                region_x * 32 + local_x,
                region_z * 32 + local_z,
                conversion_area(dynamic, *coords),
                o,
            )),
{
    let chunk_x = chunk_position(region_x, local_x);
    let chunk_z = chunk_position(region_z, local_z);
    let bounds = match coords {
        Some(c) => Some(chunk_bounds(c)),
        None => None,
    };
    let area = if dynamic {
        None
    } else {
        match coords {
            Some(c) => Some(block_area(c)),
            None => None,
        }
    };
    if !is_chunk_selected(dynamic, bounds, chunk_x, chunk_z) {
        return Ok(ChunkOutcome::OutOfRange);
    }
    match decode_chunk(data) {
        Err(e) => Err(nbt_error_message(&e)),
        Ok(None) => Err("chunks of a format older than Minecraft 1.18 are not supported".to_owned()),
        Ok(Some(chunk)) => {
            let column = match read_chunk_column(&chunk) {
                Some(col) => col,
                None => {
                    return Err("a section of the chunk is missing or incomplete".to_owned());
                },
            };
            let o = chunk_outcome(&column, dynamic, chunk_x, chunk_z, area);
            proof {
                assert(area == conversion_area(dynamic, *coords));
                assert(outcome_matches(
                    column.blocks@,
                    dynamic,
                    chunk_x as int,
                    chunk_z as int,
                    conversion_area(dynamic, *coords),
                    o,
                ));
            }
            Ok(o)
        },
    }
}

/// A chunk of a region file: its place `(x, z)` in the region and its data.
pub struct RegionChunk {
    pub x: usize,
    pub z: usize,
    pub data: Vec<u8>,
}

/// Whether chunk `c` of region `(rx, rz)` is read.
pub open spec fn chunk_read(rx: int, rz: int, c: RegionChunk, dynamic: bool, coords: Option<ConversionCoords>) -> bool {
    selected_for(dynamic, coords, rx * 32 + c.x, rz * 32 + c.z)
}

/// The chunks of a region can be processed: each lies in the region, its
/// position fits `i32`, and so do the blocks of each chunk that is read.
pub open spec fn region_chunks_fit(
    rx: int,
    rz: int,
    cs: Seq<RegionChunk>,
    dynamic: bool,
    coords: Option<ConversionCoords>,
) -> bool {
    forall|k: int|
        0 <= k < cs.len() ==> {
            let c = #[trigger] cs[k];
            &&& c.x < 32 && c.z < 32
            &&& fits_i32(rx * 32 + c.x) && fits_i32(rz * 32 + c.z)
            &&& chunk_read(rx, rz, c, dynamic, coords) ==> chunk_fits(rx * 32 + c.x) && chunk_fits(
                rz * 32 + c.z,
            )
        }
}

/// Every chunk of the region that is read can be read.
pub open spec fn region_decodes(
    rx: int,
    rz: int,
    cs: Seq<RegionChunk>,
    dynamic: bool,
    coords: Option<ConversionCoords>,
) -> bool {
    forall|k: int|
        0 <= k < cs.len() && chunk_read(rx, rz, #[trigger] cs[k], dynamic, coords) ==> data_reads(
            cs[k].data@,
        )
}

/// `cols[k]` is what reading chunk `k` gives, for each chunk that is read.
pub open spec fn region_columns(
    rx: int,
    rz: int,
    cs: Seq<RegionChunk>,
    cols: Seq<Seq<ColumnBlock>>,
    dynamic: bool,
    coords: Option<ConversionCoords>,
) -> bool {
    &&& cols.len() == cs.len()
    &&& forall|k: int|
        0 <= k < cs.len() && chunk_read(rx, rz, #[trigger] cs[k], dynamic, coords) ==> column_reads(
            cols[k],
            data_map(cs[k].data@),
            data_span(cs[k].data@),
        )
}

/// The blocks that chunk `c`, read as `bs`, gives: none where it is not read, or
/// is empty in dynamic mode; else its blocks other than air and barriers, inside
/// the area of static mode.
pub open spec fn chunk_blocks_kept(
    rx: int,
    rz: int,
    c: RegionChunk,
    bs: Seq<ColumnBlock>,
    dynamic: bool,
    coords: Option<ConversionCoords>,
) -> Seq<(int, int, int, Seq<char>)> {
    if !chunk_read(rx, rz, c, dynamic, coords) || (dynamic && chunk_empty_spec(bs)) {
        Seq::empty()
    } else {
        extract_spec(bs, rx * 32 + c.x, rz * 32 + c.z, conversion_area(dynamic, coords))
    }
}

/// The blocks of a region: those of each of its chunks, chunk after chunk.
pub open spec fn region_spec(
    rx: int,
    rz: int,
    cs: Seq<RegionChunk>,
    cols: Seq<Seq<ColumnBlock>>,
    dynamic: bool,
    coords: Option<ConversionCoords>,
) -> Seq<(int, int, int, Seq<char>)>
    decreases cs.len(),
{
    if cs.len() == 0 {
        Seq::empty()
    } else {
        region_spec(rx, rz, cs.drop_last(), cols, dynamic, coords) + chunk_blocks_kept(
            rx,
            rz,
            cs.last(),
            cols[cs.len() - 1],
            dynamic,
            coords,
        )
    }
}

/// The number of chunks of a region that are read.
pub open spec fn read_count(
    rx: int,
    rz: int,
    cs: Seq<RegionChunk>,
    dynamic: bool,
    coords: Option<ConversionCoords>,
) -> nat
    decreases cs.len(),
{
    if cs.len() == 0 {
        0
    } else {
        read_count(rx, rz, cs.drop_last(), dynamic, coords) + if chunk_read(
            rx,
            rz,
            cs.last(),
            dynamic,
            coords,
        ) {
            1nat
        } else {
            0nat
        }
    }
}

/// The blocks of the chunks of region `(region_x, region_z)`, chunk after chunk,
/// with the number of chunks read (empty ones of dynamic mode included). Where a
/// chunk that is read does not decode, its error is returned.
pub fn region_blocks(
    region_x: i32,
    region_z: i32,
    chunks: &Vec<RegionChunk>,
    dynamic: bool,
    coords: &Option<ConversionCoords>,
) -> (r: Result<(Vec<MinecraftBlock>, usize), String>)
    requires
        region_chunks_fit(region_x as int, region_z as int, chunks@, dynamic, *coords),
    ensures
        r is Ok <==> region_decodes(region_x as int, region_z as int, chunks@, dynamic, *coords),
        r matches Ok((v, n)) ==> n == read_count(
            region_x as int,
            region_z as int,
            chunks@,
            dynamic,
            *coords,
        ) && exists|cols: Seq<Seq<ColumnBlock>>|
            #[trigger] region_columns(region_x as int, region_z as int, chunks@, cols, dynamic, *coords)
                && v@.map_values(|b: MinecraftBlock| b@) == region_spec(
                region_x as int,
                region_z as int,
                chunks@,
                cols,
                dynamic,
                *coords,
            ),
{
    let ghost rx = region_x as int;
    let ghost rz = region_z as int;
    let ghost cs = chunks@;
    let ghost mut cols: Seq<Seq<ColumnBlock>> = Seq::empty();
    let mut out: Vec<MinecraftBlock> = Vec::new();
    let mut read: usize = 0;
    let n = chunks.len();
    proof {
        assert(cs.take(0) =~= Seq::<RegionChunk>::empty());
    }
    for i in 0..n
        invariant
            n == chunks.len(),
            cs == chunks@,
            rx == region_x,
            rz == region_z,
            region_chunks_fit(rx, rz, cs, dynamic, *coords),
            cols.len() == i,
            forall|k: int|
                0 <= k < i && chunk_read(rx, rz, #[trigger] cs[k], dynamic, *coords) ==> data_reads(
                    cs[k].data@,
                ) && column_reads(
                    cols[k],
                    data_map(cs[k].data@),
                    data_span(cs[k].data@),
                ),
            out@.map_values(|b: MinecraftBlock| b@) == region_spec(
                rx,
                rz,
                cs.take(i as int),
                cols,
                dynamic,
                *coords,
            ),
            read as int == read_count(rx, rz, cs.take(i as int), dynamic, *coords),
            read <= i,
    {
        let c = &chunks[i];
        proof {
            assert(cs[i as int] == *c);
            assert(cs.take(i + 1).drop_last() =~= cs.take(i as int));
            assert(cs.take(i + 1).last() == cs[i as int]);
        }
        let res = process_chunk(region_x, region_z, c.x, c.z, &c.data, dynamic, coords);
        match res {
            Err(e) => {
                proof {
                    assert(chunk_read(rx, rz, cs[i as int], dynamic, *coords));
                    assert(!region_decodes(rx, rz, cs, dynamic, *coords));
                }
                return Err(e);
            },
            Ok(o) => {
                let ghost bs: Seq<ColumnBlock> = if chunk_read(rx, rz, cs[i as int], dynamic, *coords) {
                    choose|bs: Seq<ColumnBlock>|
                        column_reads(bs, data_map(c.data@), data_span(c.data@))
                            && #[trigger] outcome_matches(
                            bs,
                            dynamic,
                            rx * 32 + c.x,
                            rz * 32 + c.z,
                            conversion_area(dynamic, *coords),
                            o,
                        )
                } else {
                    Seq::empty()
                };
                let ghost old_out = out@;
                let ghost old_cols = cols;
                proof {
                    cols = cols.push(bs);
                    lemma_region_spec_cols(rx, rz, cs.take(i as int), old_cols, cols, dynamic, *coords);
                    assert(region_spec(rx, rz, cs.take(i + 1), cols, dynamic, *coords) == region_spec(
                        rx,
                        rz,
                        cs.take(i as int),
                        cols,
                        dynamic,
                        *coords,
                    ) + chunk_blocks_kept(rx, rz, cs[i as int], bs, dynamic, *coords));
                    assert(read_count(rx, rz, cs.take(i + 1), dynamic, *coords) == read_count(
                        rx,
                        rz,
                        cs.take(i as int),
                        dynamic,
                        *coords,
                    ) + if chunk_read(rx, rz, cs[i as int], dynamic, *coords) {
                        1nat
                    } else {
                        0nat
                    });
                }
                match o {
                    ChunkOutcome::OutOfRange => {},
                    ChunkOutcome::Empty => {
                        read = read + 1;
                    },
                    ChunkOutcome::Blocks(found) => {
                        let mut found = found;
                        let ghost f = found@;
                        out.append(&mut found);
                        read = read + 1;
                        proof {
                            assert(out@.map_values(|b: MinecraftBlock| b@) =~= old_out.map_values(
                                |b: MinecraftBlock| b@,
                            ) + f.map_values(|b: MinecraftBlock| b@));
                        }
                    },
                }
                proof {
                    assert(chunk_blocks_kept(rx, rz, cs[i as int], bs, dynamic, *coords) =~= out@.map_values(
                        |b: MinecraftBlock| b@,
                    ).subrange(old_out.len() as int, out@.len() as int));
                    assert(out@.map_values(|b: MinecraftBlock| b@) =~= old_out.map_values(
                        |b: MinecraftBlock| b@,
                    ) + chunk_blocks_kept(rx, rz, cs[i as int], bs, dynamic, *coords));
                }
            },
        }
    }
    proof {
        assert(cs.take(n as int) =~= cs);
        assert(region_columns(rx, rz, cs, cols, dynamic, *coords));
    }
    Ok((out, read))
}

/// The blocks of a region do not depend on the columns of chunks past the ones it covers.
proof fn lemma_region_spec_cols(
    rx: int,
    rz: int,
    cs: Seq<RegionChunk>,
    a: Seq<Seq<ColumnBlock>>,
    b: Seq<Seq<ColumnBlock>>,
    dynamic: bool,
    coords: Option<ConversionCoords>,
)
    requires
        cs.len() <= a.len(),
        cs.len() <= b.len(),
        forall|k: int| 0 <= k < cs.len() ==> a[k] == b[k],
    ensures
        region_spec(rx, rz, cs, a, dynamic, coords) == region_spec(rx, rz, cs, b, dynamic, coords),
    decreases cs.len(),
{
    if cs.len() > 0 {
        lemma_region_spec_cols(rx, rz, cs.drop_last(), a, b, dynamic, coords);
    }
}

/// Every block that a region gives lies inside the area of its mode (in static
/// mode the chosen rectangle, whichever corner comes first), and is neither air
/// nor a barrier.
pub proof fn lemma_region_in_area(
    rx: int,
    rz: int,
    cs: Seq<RegionChunk>,
    cols: Seq<Seq<ColumnBlock>>,
    dynamic: bool,
    coords: Option<ConversionCoords>,
)
    requires
        region_columns(rx, rz, cs, cols, dynamic, coords),
    ensures
        forall|j: int|
            0 <= j < region_spec(rx, rz, cs, cols, dynamic, coords).len() ==> {
                let b = #[trigger] region_spec(rx, rz, cs, cols, dynamic, coords)[j];
                in_area(conversion_area(dynamic, coords), b.0, b.2) && !is_air_like(b.3)
            },
    decreases cs.len(),
{
    if cs.len() > 0 {
        let k = cs.len() - 1;
        let pre = cs.drop_last();
        assert forall|q: int| 0 <= q < pre.len() && chunk_read(rx, rz, #[trigger] pre[q], dynamic, coords)
            implies column_reads(
            cols.take(pre.len() as int)[q],
            data_map(pre[q].data@),
            data_span(pre[q].data@),
        ) by {
            assert(pre[q] == cs[q]);
        }
        lemma_region_in_area(rx, rz, pre, cols.take(pre.len() as int), dynamic, coords);
        lemma_region_spec_cols(rx, rz, pre, cols.take(pre.len() as int), cols, dynamic, coords);
        let c = cs.last();
        let bs = cols[k];
        let kept = chunk_blocks_kept(rx, rz, c, bs, dynamic, coords);
        if chunk_read(rx, rz, c, dynamic, coords) && !(dynamic && chunk_empty_spec(bs)) {
            assert(chunk_read(rx, rz, cs[k], dynamic, coords));
            assert forall|i: int| 0 <= i < bs.len() implies (#[trigger] bs[i]).x < 16 && bs[i].z < 16 by {
                assert(in_column(data_span(cs[k].data@), column_pos(bs[i])));
            }
            lemma_extract_in_chunk(bs, rx * 32 + c.x, rz * 32 + c.z, conversion_area(dynamic, coords));
        }
        let all = region_spec(rx, rz, cs, cols, dynamic, coords);
        let front = region_spec(rx, rz, pre, cols, dynamic, coords);
        assert forall|j: int| 0 <= j < all.len() implies {
            let b = #[trigger] all[j];
            in_area(conversion_area(dynamic, coords), b.0, b.2) && !is_air_like(b.3)
        } by {
            if j < front.len() {
                assert(all[j] == front[j]);
            } else {
                assert(all[j] == kept[j - front.len()]);
            }
        }
    }
}

/// The places `(x, z)` of the chunks of a region.
pub open spec fn chunk_places(cs: Seq<RegionChunk>) -> Seq<(usize, usize)> {
    cs.map_values(|c: RegionChunk| (c.x, c.z))
}

/// The corners of the rectangle, if there is one, come in order.
pub open spec fn corners_ordered(coords: Option<ConversionCoords>) -> bool {
    coords matches Some(c) ==> c.start_x <= c.end_x && c.start_z <= c.end_z
}

proof fn lemma_read_count_places(
    rx: int,
    rz: int,
    cs: Seq<RegionChunk>,
    dynamic: bool,
    coords: Option<ConversionCoords>,
)
    requires
        corners_ordered(coords),
    ensures
        read_count(rx, rz, cs, dynamic, coords) == if dynamic || coords is None {
            cs.len() as int
        } else {
            count_spec(dynamic, coords, (rx, rz), chunk_places(cs))
        },
    decreases cs.len(),
{
    if cs.len() > 0 {
        let pre = cs.drop_last();
        lemma_read_count_places(rx, rz, pre, dynamic, coords);
        assert(chunk_places(cs).drop_last() =~= chunk_places(pre));
        let c = cs.last();
        assert(chunk_places(cs).last() == (c.x, c.z));
        assert(chunk_read(rx, rz, c, dynamic, coords) == chunk_counted(
            dynamic,
            coords,
            rx * 32 + c.x,
            rz * 32 + c.z,
        ));
    }
}

/// The number of chunks that counting a region gives is the number of its
/// chunks that `region_blocks` reads (the progress to report), for a region
/// whose file name gives its coordinates and a rectangle, if any, whose corners
/// come in order.
pub proof fn lemma_chunk_count_matches_read(
    rx: int,
    rz: int,
    name: Seq<char>,
    cs: Seq<RegionChunk>,
    dynamic: bool,
    coords: Option<ConversionCoords>,
)
    requires
        region_coords_spec(name) == Some((rx, rz)),
        corners_ordered(coords),
    ensures
        region_count_spec(dynamic, coords, name, chunk_places(cs)) == read_count(
            rx,
            rz,
            cs,
            dynamic,
            coords,
        ),
{
    lemma_read_count_places(rx, rz, cs, dynamic, coords);
}

/// A section that stores all 4096 of its block indices, each naming an entry of
/// its palette (and fitting 16 bits).
pub open spec fn full_section(s: SectionView) -> bool {
    &&& s.1.len() > 0
    &&& s.2 matches Some(st) && st.len() == 4096 && forall|j: int|
        0 <= j < 4096 ==> 0 <= #[trigger] st[j] < s.1.len() && st[j] < 65536
}

/// The block at `(x, y, z)` of a full section is the palette entry of section
/// `(y - lo) / 16` at index `((y - lo) mod 16) * 256 + z * 16 + x`: the height
/// inside the section runs from 0 to 15, whichever section it is.
pub proof fn lemma_block_of_full_section(secs: Seq<SectionView>, lo: int, x: int, y: int, z: int)
    requires
        0 <= x < 16,
        0 <= z < 16,
        lo <= y,
        (y - lo) / 16 < secs.len(),
        full_section(secs[(y - lo) / 16]),
    ensures
        0 <= (y - lo) % 16 < 16,
        0 <= ((y - lo) % 16) * 256 + z * 16 + x < 4096,
        block_at(secs, lo, (x, y, z)) == Some(
            Some(
                secs[(y - lo) / 16].1[secs[(y - lo) / 16].2.unwrap()[((y - lo) % 16) * 256 + z * 16
                    + x]],
            ),
        ),
{
    let k = (y - lo) / 16;
    let r = (y - lo) % 16;
    assert(y - (16 * k + lo) == r) by (nonlinear_arith)
        requires
            k == (y - lo) / 16,
            r == (y - lo) % 16,
    ;
    assert(0 <= r < 16);
    assert(0 <= r * 256 + z * 16 + x < 4096) by (nonlinear_arith)
        requires
            0 <= r < 16,
            0 <= x < 16,
            0 <= z < 16,
    ;
    let st = secs[k].2.unwrap();
    let i = r * 256 + z * 16 + x;
    assert(0 <= st[i] < 65536);
    assert(st[i] % 65536 == st[i]);
}

/// A chunk whose sections cover its span and are all full reads, and each of
/// its positions holds the palette entry that its section's index names.
pub proof fn lemma_full_chunk_reads(
    data: Seq<u8>,
    secs: Seq<SectionView>,
    span: (int, int),
)
    requires
        decoded_chunk(data) == Some(Some((Some(secs), span))),
        span.1 - span.0 <= 16 * secs.len(),
        forall|k: int| 0 <= k < secs.len() ==> full_section(#[trigger] secs[k]),
    ensures
        data_reads(data),
        data_span(data) == span,
        forall|x: int, y: int, z: int|
            in_column(span, (x, y, z)) ==> #[trigger] data_map(data).dom().contains((x, y, z))
                && data_map(data)[(x, y, z)] == secs[(y - span.0) / 16].1[secs[(y - span.0)
                / 16].2.unwrap()[((y - span.0) % 16) * 256 + z * 16 + x]],
{
    assert forall|p: (int, int, int)| in_column(span, p) implies (#[trigger] block_at(
        secs,
        span.0,
        p,
    )) matches Some(Some(_)) && block_at(secs, span.0, p) == Some(
        Some(
            secs[(p.1 - span.0) / 16].1[secs[(p.1 - span.0) / 16].2.unwrap()[((p.1 - span.0) % 16)
                * 256 + p.2 * 16 + p.0]],
        ),
    ) by {
        let d = p.1 - span.0;
        assert(d / 16 < secs.len()) by (nonlinear_arith)
            requires
                0 <= d < span.1 - span.0,
                span.1 - span.0 <= 16 * secs.len(),
        ;
        lemma_block_of_full_section(secs, span.0, p.0, p.1, p.2);
    }
    assert(sections_or_none(Some(secs)) == secs);
    assert forall|x: int, y: int, z: int| in_column(span, (x, y, z)) implies #[trigger] data_map(
        data,
    ).dom().contains((x, y, z)) && data_map(data)[(x, y, z)] == secs[(y - span.0) / 16].1[secs[(y
        - span.0) / 16].2.unwrap()[((y - span.0) % 16) * 256 + z * 16 + x]] by {
        assert(block_at(secs, span.0, (x, y, z)) matches Some(Some(_)));
    }
}

/// A section that stores no indices is its first palette entry throughout, and
/// a section without palette is air throughout.
pub proof fn lemma_block_of_uniform_section(secs: Seq<SectionView>, lo: int, x: int, y: int, z: int)
    requires
        0 <= x < 16,
        0 <= z < 16,
        lo <= y,
        (y - lo) / 16 < secs.len(),
    ensures
        secs[(y - lo) / 16].1.len() == 0 ==> block_at(secs, lo, (x, y, z)) == Some(
            Some("minecraft:air"@),
        ),
        secs[(y - lo) / 16].1.len() > 0 && secs[(y - lo) / 16].2 is None ==> block_at(
            secs,
            lo,
            (x, y, z),
        ) == Some(Some(secs[(y - lo) / 16].1[0])),
{
}

} // verus!
