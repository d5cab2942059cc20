use mts::material::{load_material_config, MaterialTable};
use mts::mesh::{OptimizedBlock, VmfBlock};
use mts::vmf::{
    batch_bounds, calculate_batch_size, create_cube_solid, create_optimized_solid, cube_batch, optimized_batch, optimized_progress,
    solid_text, vmf_footer, vmf_header, IdAllocator, VmfSolid,
};

fn empty_table() -> MaterialTable {
    load_material_config(&Vec::new())
}

fn unit(x: i32, y: i32, z: i32) -> VmfBlock {
    VmfBlock { x, y, z, block_type: "minecraft:stone".to_string() }
}

#[test]
fn ids_start_at_one_and_count_up() {
    let mut ids = IdAllocator::new();
    assert_eq!(ids.next_id(), 1);
    assert_eq!(ids.next_id(), 2);
    assert_eq!(ids.next, 3);
}

#[test]
fn cube_solid_planes_and_ids() {
    let mut ids = IdAllocator::new();
    let s = create_cube_solid(&unit(1, 2, 3), 40, &empty_table(), "0.15625", &mut ids);
    assert_eq!(s.id, 1);
    assert_eq!(ids.next, 8);
    let planes: Vec<&str> = s.sides.iter().map(|d| d.plane.as_str()).collect();
    assert_eq!(
        planes,
        vec![
            "(40 160 120) (80 160 120) (80 120 120)",
            "(40 120 80) (80 120 80) (80 160 80)",
            "(40 160 120) (40 160 80) (80 160 80)",
            "(40 120 80) (40 120 120) (80 120 120)",
            "(80 160 120) (80 160 80) (80 120 80)",
            "(40 120 80) (40 160 80) (40 160 120)",
        ]
    );
    let side_ids: Vec<u32> = s.sides.iter().map(|d| d.id).collect();
    assert_eq!(side_ids, vec![2, 3, 4, 5, 6, 7]);
    for d in &s.sides {
        assert_eq!(d.material, "mc_1.21.8/stone");
        assert_eq!(d.rotation, "0");
        assert_eq!(d.lightmapscale, "16");
        assert_eq!(d.smoothing_groups, "0");
    }
    assert_eq!(s.sides[0].uaxis, "[1 0 0 0] 0.15625");
    assert_eq!(s.sides[0].vaxis, "[0 -1 0 0] 0.15625");
    assert_eq!(s.sides[2].vaxis, "[0 0 -1 0] 0.15625");
    assert_eq!(s.sides[3].uaxis, "[-1 0 0 0] 0.15625");
    assert_eq!(s.sides[4].uaxis, "[0 1 0 0] 0.15625");
    assert_eq!(s.sides[5].uaxis, "[0 -1 0 0] 0.15625");
}

#[test]
fn box_solid_spans_its_size_with_negative_coordinates() {
    let mut ids = IdAllocator::new();
    let b = OptimizedBlock { x: -1, y: 0, z: -2, width: 2, height: 3, depth: 1, block_type: "minecraft:dirt".to_string() };
    let s = create_optimized_solid(&b, 40, &empty_table(), "0.15625", &mut ids);
    assert_eq!(s.sides[0].plane, "(-40 -40 120) (40 -40 120) (40 -80 120)");
    assert_eq!(s.sides[1].plane, "(-40 -80 0) (40 -80 0) (40 -40 0)");
    assert_eq!(s.sides[0].material, "mc_1.21.8/dirt");
}

#[test]
fn solid_text_layout() {
    let mut ids = IdAllocator::new();
    let s: VmfSolid = create_cube_solid(&unit(0, 0, 0), 40, &empty_table(), "0.15625", &mut ids);
    let text = solid_text(&s);
    let mut expected = String::from("\tsolid\n\t{\n\t\t\"id\" \"1\"\n");
    for d in &s.sides {
        expected.push_str("\t\tside\n\t\t{\n");
        expected.push_str(&format!("\t\t\t\"id\" \"{}\"\n", d.id));
        expected.push_str(&format!("\t\t\t\"plane\" \"{}\"\n", d.plane));
        expected.push_str(&format!("\t\t\t\"material\" \"{}\"\n", d.material));
        expected.push_str(&format!("\t\t\t\"uaxis\" \"{}\"\n", d.uaxis));
        expected.push_str(&format!("\t\t\t\"vaxis\" \"{}\"\n", d.vaxis));
        expected.push_str(&format!("\t\t\t\"rotation\" \"{}\"\n", d.rotation));
        expected.push_str(&format!("\t\t\t\"lightmapscale\" \"{}\"\n", d.lightmapscale));
        expected.push_str(&format!("\t\t\t\"smoothing_groups\" \"{}\"\n", d.smoothing_groups));
        expected.push_str("\t\t}\n");
    }
    expected.push_str("\t\teditor\n\t\t{\n\t\t\t\"color\" \"0 180 0\"\n\t\t\t\"visgroupshown\" \"1\"\n\t\t\t\"visgroupautoshown\" \"1\"\n\t\t}\n\t}\n");
    assert_eq!(text, expected);
    assert!(text.contains("\t\t\t\"plane\" \"(0 40 40) (40 40 40) (40 0 40)\"\n"));
}

#[test]
fn header_and_footer_frame_the_world() {
    let h = vmf_header();
    assert!(h.starts_with("// VMF File Generated by MTS\nversioninfo\n{\n"));
    assert!(h.ends_with("world\n{\n\t\"id\" \"1\"\n\t\"mapversion\" \"1\"\n\t\"classname\" \"worldspawn\"\n\t\"skyname\" \"sky_day01_01\"\n\t\"maxpropscreenwidth\" \"-1\"\n\t\"detailvbsp\" \"detail.vbsp\"\n\t\"detailmaterial\" \"detail/detailsprites\"\n"));
    let f = vmf_footer();
    assert!(f.starts_with("}\nentity\n{\n\t\"id\" \"2\"\n"));
    assert!(f.ends_with("\t\t\"logicalpos\" \"[0 0]\"\n\t}\n}\n"));
}

#[test]
fn standard_mode_is_one_brush_per_block() {
    let blocks = vec![unit(0, 0, 0), unit(1, 0, 0), unit(5, 5, 5)];
    let mut ids = IdAllocator::new();
    let first = cube_batch(&blocks, 0, 2, 40, &empty_table(), "0.15625", &mut ids);
    let second = cube_batch(&blocks, 2, 3, 40, &empty_table(), "0.15625", &mut ids);
    assert_eq!(first.len(), 2);
    assert_eq!(second.len(), 1);
    assert_eq!(first[1].id, 8);
    assert_eq!(second[0].id, 15);
    assert_eq!(ids.next, 22);
    // every id is used once
    let mut all: Vec<u32> = Vec::new();
    for s in first.iter().chain(second.iter()) {
        all.push(s.id);
        all.extend(s.sides.iter().map(|d| d.id));
    }
    let n = all.len();
    all.sort();
    all.dedup();
    assert_eq!(all.len(), n);
}

#[test]
fn optimized_batch_follows_boxes() {
    let boxes = vec![
        OptimizedBlock { x: 0, y: 0, z: 0, width: 3, height: 1, depth: 1, block_type: "a".to_string() },
        OptimizedBlock { x: 0, y: 1, z: 0, width: 1, height: 1, depth: 2, block_type: "b".to_string() },
    ];
    let mut ids = IdAllocator::new();
    let r = optimized_batch(&boxes, 0, 2, 40, &empty_table(), "0.15625", &mut ids);
    assert_eq!(r.len(), 2);
    assert_eq!(r[0].sides[0].plane, "(0 40 40) (120 40 40) (120 0 40)");
    assert_eq!(r[1].id, 8);
    assert_eq!(r[1].sides[0].material, "mc_1.21.8/b");
}

#[test]
fn batch_size_is_clamped() {
    assert_eq!(calculate_batch_size(1_000_000_000), 20000);
    assert_eq!(calculate_batch_size(0), 1000);
    assert_eq!(calculate_batch_size(2048 * 5000), 5000);
    assert_eq!(calculate_batch_size(2048 * 5000 + 2047), 5000);
}

#[test]
fn progress_runs_from_30_to_90() {
    assert_eq!(optimized_progress(0, 10), 30);
    assert_eq!(optimized_progress(5, 10), 60);
    assert_eq!(optimized_progress(10, 10), 90);
    assert_eq!(optimized_progress(1, 3), 50);
}

#[test]
fn batches_cut_like_chunks() {
    assert_eq!(batch_bounds(0, 1000), Vec::<(usize, usize)>::new());
    assert_eq!(batch_bounds(5, 2), vec![(0, 2), (2, 4), (4, 5)]);
    assert_eq!(batch_bounds(4, 2), vec![(0, 2), (2, 4)]);
    assert_eq!(batch_bounds(3, 1000), vec![(0, 3)]);
}

#[test]
fn cube_solid_is_the_solid_of_its_unit_box() {
    let block = unit(-4, 9, 2);
    let boxed = OptimizedBlock { x: -4, y: 9, z: 2, width: 1, height: 1, depth: 1, block_type: "minecraft:stone".to_string() };
    let mut a = IdAllocator::new();
    let mut b = IdAllocator::new();
    let s1 = create_cube_solid(&block, 32, &empty_table(), "0.125", &mut a);
    let s2 = create_optimized_solid(&boxed, 32, &empty_table(), "0.125", &mut b);
    assert_eq!(a.next, b.next);
    assert_eq!(solid_text(&s1), solid_text(&s2));
}

#[test]
fn batches_write_the_same_file_as_one_batch() {
    let boxes: Vec<OptimizedBlock> = (0..5)
        .map(|i| OptimizedBlock { x: i, y: 0, z: -i, width: 1, height: 2, depth: 1, block_type: "minecraft:stone".to_string() })
        .collect();
    let table = empty_table();
    let mut whole = vmf_header();
    let mut ids = IdAllocator::new();
    for s in optimized_batch(&boxes, 0, 5, 40, &table, "0.15625", &mut ids) {
        whole.push_str(&solid_text(&s));
    }
    whole.push_str(&vmf_footer());
    let mut batched = vmf_header();
    let mut ids = IdAllocator::new();
    let bounds = batch_bounds(5, 2);
    assert_eq!(bounds, vec![(0, 2), (2, 4), (4, 5)]);
    for (lo, hi) in bounds {
        for s in optimized_batch(&boxes, lo, hi, 40, &table, "0.15625", &mut ids) {
            batched.push_str(&solid_text(&s));
        }
    }
    batched.push_str(&vmf_footer());
    assert_eq!(whole, batched);
    assert_eq!(ids.next, 1 + 7 * 5);
}
