use std::collections::HashMap;

use fastnbt::Value;
use mts::anvil::{process_chunk, read_chunk_column, region_blocks, RegionChunk};
use mts::world::{ChunkOutcome, ConversionCoords};

fn block_tag(name: &str) -> Value {
    let mut tag = HashMap::new();
    tag.insert("Name".to_string(), Value::String(name.to_string()));
    Value::Compound(tag)
}

/// A section at `section_y` with the given palette and, if given, packed indices.
fn section(section_y: i8, palette: &[&str], data: Option<Vec<i64>>) -> Value {
    let mut states = HashMap::new();
    states.insert("palette".to_string(), Value::List(palette.iter().map(|n| block_tag(n)).collect()));
    if let Some(d) = data {
        states.insert("data".to_string(), Value::LongArray(fastnbt::LongArray::new(d)));
    }
    let mut sec = HashMap::new();
    sec.insert("Y".to_string(), Value::Byte(section_y));
    sec.insert("block_states".to_string(), Value::Compound(states));
    Value::Compound(sec)
}

/// The bytes of a current-format chunk with the given sections, if any.
fn chunk_bytes(sections: Option<Vec<Value>>) -> Vec<u8> {
    let mut root = HashMap::new();
    root.insert("DataVersion".to_string(), Value::Int(3465));
    root.insert("Status".to_string(), Value::String("minecraft:full".to_string()));
    if let Some(s) = sections {
        root.insert("sections".to_string(), Value::List(s));
    }
    fastnbt::to_bytes(&Value::Compound(root)).unwrap()
}

/// The bytes of a current-format chunk with one section at `section_y`, filled
/// with a single block.
fn one_section_chunk(section_y: i8, block: &str) -> Vec<u8> {
    chunk_bytes(Some(vec![section(section_y, &[block], None)]))
}

#[test]
fn read_column_visits_y_then_x_then_z() {
    let data = one_section_chunk(-1, "minecraft:stone");
    let chunk: fastanvil::CurrentJavaChunk = fastnbt::from_bytes(&data).unwrap();
    let column = read_chunk_column(&chunk).unwrap();
    assert_eq!(column.blocks.len(), 4096);
    let first = &column.blocks[0];
    assert_eq!((first.x, first.y, first.z), (0, -16, 0));
    let second = &column.blocks[1];
    assert_eq!((second.x, second.y, second.z), (0, -16, 1));
    let seventeenth = &column.blocks[16];
    assert_eq!((seventeenth.x, seventeenth.y, seventeenth.z), (1, -16, 0));
    let last = &column.blocks[4095];
    assert_eq!((last.x, last.y, last.z), (15, -1, 15));
    assert!(column.blocks.iter().all(|b| b.name == "minecraft:stone"));
}

#[test]
fn decoded_chunk_gives_its_blocks() {
    let data = one_section_chunk(0, "minecraft:stone");
    match process_chunk(0, 0, 1, 2, &data, false, &None) {
        Ok(ChunkOutcome::Blocks(v)) => {
            assert_eq!(v.len(), 4096);
            assert_eq!(v[0].block_type, "minecraft:stone");
            assert_eq!(v[0].y, 0);
            assert_eq!(v[4095].y, 15);
        }
        _ => panic!("expected the chunk's blocks"),
    }
}

#[test]
fn air_chunk_is_empty_in_dynamic_mode() {
    let data = one_section_chunk(0, "minecraft:air");
    let r = process_chunk(0, 0, 0, 0, &data, true, &None);
    assert!(matches!(r, Ok(ChunkOutcome::Empty)));
}

#[test]
fn static_mode_keeps_the_chosen_rectangle() {
    let data = one_section_chunk(0, "minecraft:stone");
    let coords = Some(ConversionCoords { start_x: 19, start_z: 33, end_x: 17, end_z: 32 });
    match process_chunk(0, 0, 1, 2, &data, false, &coords) {
        Ok(ChunkOutcome::Blocks(v)) => {
            assert_eq!(v.len(), 3 * 2 * 16);
            assert!(v.iter().all(|b| 17 <= b.x && b.x <= 19 && 32 <= b.z && b.z <= 33));
        }
        _ => panic!("expected the blocks of the rectangle"),
    }
    // dynamic mode does not use the coordinates
    match process_chunk(0, 0, 1, 2, &data, true, &coords) {
        Ok(ChunkOutcome::Blocks(v)) => assert_eq!(v.len(), 4096),
        _ => panic!("expected the chunk's blocks"),
    }
}

#[test]
fn region_gives_the_blocks_of_each_chunk_read() {
    let stone = one_section_chunk(0, "minecraft:stone");
    let air = one_section_chunk(0, "minecraft:air");
    let chunks = vec![
        RegionChunk { x: 0, z: 0, data: air.clone() },
        RegionChunk { x: 3, z: 1, data: stone.clone() },
    ];
    // dynamic mode: the air chunk is read but gives nothing
    let (v, n) = region_blocks(-1, 2, &chunks, true, &None).unwrap();
    assert_eq!(n, 2);
    assert_eq!(v.len(), 4096);
    assert_eq!((v[0].x, v[0].y, v[0].z), ((-32 + 3) * 16, 0, (64 + 1) * 16));
    // static mode with a rectangle inside the second chunk only
    let x0 = (-32 + 3) * 16;
    let z0 = (64 + 1) * 16;
    let coords = Some(ConversionCoords { start_x: x0 + 2, start_z: z0, end_x: x0, end_z: z0 });
    let (v, n) = region_blocks(-1, 2, &chunks, false, &coords).unwrap();
    assert_eq!(n, 1);
    assert_eq!(v.len(), 3 * 16);
    assert!(v.iter().all(|b| x0 <= b.x && b.x <= x0 + 2 && b.z == z0));
    // a chunk that is read and does not decode gives an error
    let bad = vec![RegionChunk { x: 0, z: 0, data: vec![1, 2, 3] }];
    assert!(region_blocks(0, 0, &bad, true, &None).is_err());
}

#[test]
fn packed_indices_pick_palette_entries() {
    // 4 bits per block: the first long holds the blocks x = 0..16 of row y = 0, z = 0
    let mut data = vec![0i64; 256];
    data[0] = 0x0000_0000_0000_0011; // x = 0 and x = 1 are stone
    let bytes = chunk_bytes(Some(vec![section(0, &["minecraft:air", "minecraft:stone"], Some(data))]));
    let chunk: fastanvil::CurrentJavaChunk = fastnbt::from_bytes(&bytes).unwrap();
    let column = read_chunk_column(&chunk).unwrap();
    assert_eq!(column.blocks.len(), 4096);
    let stone: Vec<(u8, isize, u8)> =
        column.blocks.iter().filter(|b| b.name == "minecraft:stone").map(|b| (b.x, b.y, b.z)).collect();
    assert_eq!(stone, vec![(0, 0, 0), (1, 0, 0)]);
    match process_chunk(0, 0, 0, 0, &bytes, false, &None) {
        Ok(ChunkOutcome::Blocks(v)) => assert_eq!(v.len(), 2),
        _ => panic!("expected two blocks"),
    }
}

#[test]
fn chunk_without_sections_holds_no_blocks() {
    let bytes = chunk_bytes(None);
    match process_chunk(0, 0, 0, 0, &bytes, false, &None) {
        Ok(ChunkOutcome::Blocks(v)) => assert!(v.is_empty()),
        _ => panic!("expected no blocks"),
    }
    assert!(matches!(process_chunk(0, 0, 0, 0, &bytes, true, &None), Ok(ChunkOutcome::Empty)));
}

#[test]
fn missing_or_short_section_is_an_error() {
    // sections at 0 and 2: the span reaches height 48, and section 1 is not there
    let gap = chunk_bytes(Some(vec![section(0, &["minecraft:stone"], None), section(2, &["minecraft:stone"], None)]));
    assert!(process_chunk(0, 0, 0, 0, &gap, false, &None).is_err());
    // one long holds only 16 of the 4096 indices
    let short = chunk_bytes(Some(vec![section(0, &["minecraft:air", "minecraft:stone"], Some(vec![1]))]));
    let chunk: fastanvil::CurrentJavaChunk = fastnbt::from_bytes(&short).unwrap();
    assert!(read_chunk_column(&chunk).is_none());
    assert!(process_chunk(0, 0, 0, 0, &short, false, &None).is_err());
}

#[test]
fn older_chunk_format_is_an_error() {
    let mut level = HashMap::new();
    level.insert("xPos".to_string(), Value::Int(0));
    level.insert("zPos".to_string(), Value::Int(0));
    level.insert("Status".to_string(), Value::String("full".to_string()));
    let mut root = HashMap::new();
    root.insert("DataVersion".to_string(), Value::Int(2230));
    root.insert("Level".to_string(), Value::Compound(level));
    let bytes = fastnbt::to_bytes(&Value::Compound(root)).unwrap();
    let r = process_chunk(0, 0, 0, 0, &bytes, false, &None);
    assert!(matches!(r, Err(ref m) if m.contains("1.18")));
}

#[test]
fn counted_chunks_are_the_chunks_read() {
    let stone = one_section_chunk(0, "minecraft:stone");
    let chunks = vec![
        RegionChunk { x: 0, z: 0, data: stone.clone() },
        RegionChunk { x: 5, z: 3, data: stone.clone() },
        RegionChunk { x: 31, z: 31, data: stone.clone() },
    ];
    let places: Vec<(usize, usize)> = chunks.iter().map(|c| (c.x, c.z)).collect();
    let coords = Some(ConversionCoords { start_x: 0, start_z: 0, end_x: 100, end_z: 60 });
    for (dynamic, co) in [(false, coords), (false, None), (true, None)] {
        let (_, read) = region_blocks(0, 0, &chunks, dynamic, &co).unwrap();
        assert_eq!(mts::world::count_region_chunks(dynamic, &co, "r.0.0.mca", &places), read);
    }
}
