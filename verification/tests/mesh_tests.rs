use mts::mesh::{optimize_blocks, OptimizedBlock, VmfBlock};

fn block(x: i32, y: i32, z: i32, t: &str) -> VmfBlock {
    VmfBlock { x, y, z, block_type: t.to_string() }
}

fn dims(b: &OptimizedBlock) -> (i32, i32, i32, i32, i32, i32, String) {
    (b.x, b.y, b.z, b.width, b.height, b.depth, b.block_type.clone())
}

#[test]
fn empty_input_gives_no_boxes() {
    assert!(optimize_blocks(Vec::new()).is_empty());
}

#[test]
fn single_block_is_unit_box() {
    let r = optimize_blocks(vec![block(5, -3, 7, "minecraft:stone")]);
    assert_eq!(r.len(), 1);
    assert_eq!(dims(&r[0]), (5, -3, 7, 1, 1, 1, "minecraft:stone".to_string()));
}

#[test]
fn row_along_x_merges() {
    let r = optimize_blocks(vec![
        block(2, 0, 0, "minecraft:stone"),
        block(0, 0, 0, "minecraft:stone"),
        block(1, 0, 0, "minecraft:stone"),
    ]);
    assert_eq!(r.len(), 1);
    assert_eq!(dims(&r[0]), (0, 0, 0, 3, 1, 1, "minecraft:stone".to_string()));
}

#[test]
fn full_cube_becomes_one_box() {
    let mut blocks = Vec::new();
    for y in [1, 0] {
        for z in [1, 0] {
            for x in [0, 1] {
                blocks.push(block(x, y, z, "minecraft:dirt"));
            }
        }
    }
    let r = optimize_blocks(blocks);
    assert_eq!(r.len(), 1);
    assert_eq!(dims(&r[0]), (0, 0, 0, 2, 2, 2, "minecraft:dirt".to_string()));
}

#[test]
fn l_shape_grows_x_first() {
    let r = optimize_blocks(vec![
        block(0, 0, 0, "minecraft:stone"),
        block(1, 0, 0, "minecraft:stone"),
        block(0, 0, 1, "minecraft:stone"),
    ]);
    assert_eq!(r.len(), 2);
    assert_eq!(dims(&r[0]), (0, 0, 0, 2, 1, 1, "minecraft:stone".to_string()));
    assert_eq!(dims(&r[1]), (0, 0, 1, 1, 1, 1, "minecraft:stone".to_string()));
}

#[test]
fn height_grows_before_depth() {
    // a 1 x 2 x 2 wall (y and z) of one type
    let r = optimize_blocks(vec![
        block(0, 0, 0, "a"),
        block(0, 1, 0, "a"),
        block(0, 0, 1, "a"),
        block(0, 1, 1, "a"),
    ]);
    assert_eq!(r.len(), 1);
    assert_eq!(dims(&r[0]), (0, 0, 0, 1, 2, 2, "a".to_string()));
}

#[test]
fn types_are_not_merged_and_keep_first_appearance_order() {
    let r = optimize_blocks(vec![
        block(1, 0, 0, "minecraft:glass"),
        block(0, 0, 0, "minecraft:stone"),
        block(2, 0, 0, "minecraft:glass"),
    ]);
    assert_eq!(r.len(), 2);
    assert_eq!(dims(&r[0]), (1, 0, 0, 2, 1, 1, "minecraft:glass".to_string()));
    assert_eq!(dims(&r[1]), (0, 0, 0, 1, 1, 1, "minecraft:stone".to_string()));
}

#[test]
fn repeated_position_is_one_box() {
    let r = optimize_blocks(vec![block(3, 3, 3, "a"), block(3, 3, 3, "a")]);
    assert_eq!(r.len(), 1);
    assert_eq!(dims(&r[0]), (3, 3, 3, 1, 1, 1, "a".to_string()));
}

#[test]
fn boxes_cover_every_block_once() {
    // a staircase: each box holds only blocks of the input and none twice
    let stairs = || {
        let mut blocks = Vec::new();
        for x in 0..4 {
            for y in 0..(4 - x) {
                blocks.push(block(x, y, 0, "s"));
            }
        }
        blocks
    };
    let blocks = stairs();
    let n = blocks.len();
    let r = optimize_blocks(stairs());
    assert!(r.len() <= n);
    let mut covered = 0;
    for b in &r {
        covered += (b.width * b.height * b.depth) as usize;
        for dx in 0..b.width {
            for dy in 0..b.height {
                assert!(blocks.iter().any(|k| k.x == b.x + dx && k.y == b.y + dy && k.z == b.z));
            }
        }
    }
    assert_eq!(covered, n);
}

#[test]
fn greedy_run_stops_at_gap() {
    let r = optimize_blocks(vec![block(0, 0, 0, "a"), block(1, 0, 0, "a"), block(3, 0, 0, "a")]);
    assert_eq!(r.len(), 2);
    assert_eq!(dims(&r[0]), (0, 0, 0, 2, 1, 1, "a".to_string()));
    assert_eq!(dims(&r[1]), (3, 0, 0, 1, 1, 1, "a".to_string()));
}

#[test]
fn reordering_blocks_keeps_the_boxes_of_each_type() {
    let blocks = vec![
        block(0, 0, 0, "minecraft:stone"),
        block(1, 0, 0, "minecraft:stone"),
        block(0, 1, 0, "minecraft:dirt"),
        block(0, 0, 1, "minecraft:stone"),
        block(3, 0, 0, "minecraft:dirt"),
        block(1, 0, 1, "minecraft:stone"),
    ];
    let mut reversed: Vec<VmfBlock> = blocks.iter().map(|b| block(b.x, b.y, b.z, &b.block_type)).collect();
    reversed.reverse();
    let r1 = optimize_blocks(blocks);
    let r2 = optimize_blocks(reversed);
    for t in ["minecraft:stone", "minecraft:dirt"] {
        let a: Vec<_> = r1.iter().filter(|b| b.block_type == t).map(dims).collect();
        let b: Vec<_> = r2.iter().filter(|b| b.block_type == t).map(dims).collect();
        assert_eq!(a, b);
    }
    assert_eq!(r1.len(), r2.len());
    // the types come in the order of their first block
    assert_eq!(r1[0].block_type, "minecraft:stone");
    assert_eq!(r2[0].block_type, "minecraft:stone");
}
