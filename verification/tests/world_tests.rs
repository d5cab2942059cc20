use mts::anvil::process_chunk;
use mts::world::{
    block_area, chunk_bounds, chunk_of, chunk_outcome, count_region_chunks, extract_blocks, is_chunk_empty, is_chunk_selected, region_coords,
    ChunkColumn, ChunkOutcome, ColumnBlock, ConversionCoords,
};

fn cb(y: isize, x: u8, z: u8, name: &str) -> ColumnBlock {
    ColumnBlock { y, x, z, name: name.to_string() }
}

#[test]
fn chunk_with_nothing_is_empty() {
    assert!(is_chunk_empty(&ChunkColumn { blocks: Vec::new() }));
}

#[test]
fn air_and_barrier_chunk_is_empty() {
    let c = ChunkColumn { blocks: vec![cb(0, 0, 0, "minecraft:air"), cb(1, 3, 4, "minecraft:barrier")] };
    assert!(is_chunk_empty(&c));
}

#[test]
fn flat_bedrock_layer_is_empty() {
    let c = ChunkColumn {
        blocks: vec![cb(-64, 0, 0, "minecraft:bedrock"), cb(-64, 5, 9, "minecraft:bedrock"), cb(-63, 0, 0, "minecraft:air")],
    };
    assert!(is_chunk_empty(&c));
}

#[test]
fn bedrock_at_two_heights_is_not_empty() {
    let c = ChunkColumn { blocks: vec![cb(-64, 0, 0, "minecraft:bedrock"), cb(-63, 0, 0, "minecraft:bedrock")] };
    assert!(!is_chunk_empty(&c));
}

#[test]
fn other_block_is_not_empty() {
    let c = ChunkColumn { blocks: vec![cb(0, 0, 0, "minecraft:air"), cb(3, 1, 1, "minecraft:stone")] };
    assert!(!is_chunk_empty(&c));
}

#[test]
fn blocks_get_world_coordinates() {
    let c = ChunkColumn {
        blocks: vec![cb(5, 3, 4, "minecraft:stone"), cb(6, 3, 4, "minecraft:air"), cb(-10, 15, 0, "minecraft:dirt[snowy=true]")],
    };
    let r = extract_blocks(&c, 2, -1, None);
    assert_eq!(r.len(), 2);
    assert_eq!((r[0].x, r[0].y, r[0].z, r[0].block_type.as_str()), (35, 5, -12, "minecraft:stone"));
    assert_eq!((r[1].x, r[1].y, r[1].z, r[1].block_type.as_str()), (47, -10, -16, "minecraft:dirt[snowy=true]"));
}

#[test]
fn chunk_of_rounds_down() {
    assert_eq!(chunk_of(0), 0);
    assert_eq!(chunk_of(15), 0);
    assert_eq!(chunk_of(16), 1);
    assert_eq!(chunk_of(-1), -1);
    assert_eq!(chunk_of(-16), -1);
    assert_eq!(chunk_of(-17), -2);
    assert_eq!(chunk_of(i32::MIN), -134217728);
    assert_eq!(chunk_of(i32::MAX), 134217727);
}

#[test]
fn bounds_take_either_corner() {
    let c = ConversionCoords { start_x: 20, start_z: -20, end_x: -5, end_z: 40 };
    assert_eq!(chunk_bounds(&c), (-1, 1, -2, 2));
}

#[test]
fn selection_depends_on_mode() {
    let b = Some((-1, 1, -2, 2));
    assert!(is_chunk_selected(true, b, 100, 100));
    assert!(is_chunk_selected(false, None, 100, 100));
    assert!(is_chunk_selected(false, b, 1, -2));
    assert!(!is_chunk_selected(false, b, 2, 0));
    assert!(!is_chunk_selected(false, b, 0, -3));
}

#[test]
fn region_names() {
    assert_eq!(region_coords("r.-1.2.mca"), Some((-1, 2)));
    assert_eq!(region_coords("r.+5.-0.mca"), Some((5, 0)));
    assert_eq!(region_coords("r.a.b.mca"), Some((0, 0)));
    assert_eq!(region_coords("r.99999999999.1.mca"), Some((0, 1)));
    assert_eq!(region_coords("r.-2147483648.2147483647.mca"), Some((i32::MIN, i32::MAX)));
    assert_eq!(region_coords("r.2147483648.-.mca"), Some((0, 0)));
    assert_eq!(region_coords("r.1"), None);
    assert_eq!(region_coords("region"), None);
    assert_eq!(region_coords("r..3"), Some((0, 3)));
}

#[test]
fn counting_chunks() {
    let positions = vec![(0, 0), (1, 0), (31, 31), (2, 3)];
    let coords = Some(ConversionCoords { start_x: 0, start_z: 0, end_x: 40, end_z: 63 });
    // chunks 0..=2 on x, 0..=3 on z
    assert_eq!(count_region_chunks(false, &coords, "r.0.0.mca", &positions), 3);
    assert_eq!(count_region_chunks(true, &coords, "r.0.0.mca", &positions), 4);
    assert_eq!(count_region_chunks(false, &None, "r.0.0.mca", &positions), 4);
    assert_eq!(count_region_chunks(false, &coords, "bad", &positions), 0);
    assert_eq!(count_region_chunks(false, &coords, "r.1.0.mca", &positions), 0);
    // reversed corners select nothing when counting
    let reversed = Some(ConversionCoords { start_x: 40, start_z: 63, end_x: 0, end_z: 0 });
    assert_eq!(count_region_chunks(false, &reversed, "r.0.0.mca", &positions), 0);
}

#[test]
fn unselected_chunk_is_not_decoded() {
    let coords = Some(ConversionCoords { start_x: 0, start_z: 0, end_x: 31, end_z: 31 });
    let r = process_chunk(0, 0, 5, 5, &[], false, &coords);
    assert!(matches!(r, Ok(ChunkOutcome::OutOfRange)));
}

#[test]
fn undecodable_chunk_is_an_error() {
    let r = process_chunk(0, 0, 0, 0, &[1, 2, 3], false, &None);
    assert!(r.is_err());
}

#[test]
fn selection_ignores_corner_order() {
    let a = ConversionCoords { start_x: -40, start_z: 7, end_x: 100, end_z: -33 };
    let b = ConversionCoords { start_x: 100, start_z: -33, end_x: -40, end_z: 7 };
    let c = ConversionCoords { start_x: 100, start_z: 7, end_x: -40, end_z: -33 };
    assert_eq!(chunk_bounds(&a), chunk_bounds(&b));
    assert_eq!(chunk_bounds(&a), chunk_bounds(&c));
    assert_eq!(chunk_bounds(&a), (-3, 6, -3, 0));
}

#[test]
fn extracted_blocks_stay_in_their_chunk() {
    let mut blocks = Vec::new();
    for x in 0..16u8 {
        blocks.push(cb(1, x, 15 - x, if x % 3 == 0 { "minecraft:air" } else { "minecraft:stone" }));
    }
    let c = ChunkColumn { blocks };
    let r = extract_blocks(&c, -3, 7, None);
    assert_eq!(r.len(), 10);
    for b in &r {
        assert!(-48 <= b.x && b.x < -32);
        assert!(112 <= b.z && b.z < 128);
        assert_ne!(b.block_type, "minecraft:air");
    }
}

#[test]
fn dynamic_mode_skips_empty_chunks() {
    let empty = ChunkColumn { blocks: vec![cb(0, 0, 0, "minecraft:bedrock")] };
    assert!(matches!(chunk_outcome(&empty, true, 0, 0, None), ChunkOutcome::Empty));
    match chunk_outcome(&empty, false, 0, 0, None) {
        ChunkOutcome::Blocks(v) => assert_eq!(v.len(), 1),
        _ => panic!("expected blocks"),
    }
}

#[test]
fn static_area_keeps_only_blocks_inside_it() {
    let c = ChunkColumn {
        blocks: vec![
            cb(1, 0, 0, "minecraft:stone"),
            cb(1, 4, 2, "minecraft:stone"),
            cb(1, 5, 3, "minecraft:dirt"),
            cb(1, 9, 3, "minecraft:dirt"),
            cb(1, 5, 9, "minecraft:dirt"),
        ],
    };
    let area = block_area(&ConversionCoords { start_x: 21, start_z: 35, end_x: 20, end_z: 34 });
    assert_eq!(area, (20, 21, 34, 35));
    let r = extract_blocks(&c, 1, 2, Some(area));
    assert_eq!(r.len(), 2);
    assert_eq!((r[0].x, r[0].z), (20, 34));
    assert_eq!((r[1].x, r[1].z), (21, 35));
    match chunk_outcome(&c, false, 1, 2, Some(area)) {
        ChunkOutcome::Blocks(v) => assert_eq!(v.len(), 2),
        _ => panic!("expected blocks"),
    }
}
