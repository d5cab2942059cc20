use mts::material::{
    get_material_for_side, load_material_config, material_config_from_json, BlockSide, JsonValue, MaterialConfig,
    MaterialTable,
};

fn s(v: &str) -> JsonValue {
    JsonValue::Str(v.to_string())
}

fn obj(v: Vec<(&str, JsonValue)>) -> JsonValue {
    JsonValue::Object(v.into_iter().map(|(k, x)| (k.to_string(), x)).collect())
}

fn table() -> MaterialTable {
    load_material_config(&vec![
        ("// comment".to_string(), s("ignored")),
        ("minecraft:stone".to_string(), s("stone_tex")),
        (
            "minecraft:grass_block".to_string(),
            obj(vec![("top", s("grass_top")), ("side", s("grass_side")), ("bottom", s("dirt"))]),
        ),
        (
            "minecraft:furnace".to_string(),
            obj(vec![
                ("side", s("furnace_side")),
                ("front", s("furnace_front")),
                (
                    "properties",
                    obj(vec![(
                        "lit",
                        obj(vec![("true", obj(vec![("top", s("furnace_top_on")), ("side", s("furnace_side_on"))]))]),
                    )]),
                ),
            ]),
        ),
        ("minecraft:number".to_string(), JsonValue::Other),
    ])
}

#[test]
fn comments_and_other_values_are_skipped() {
    let t = table();
    assert_eq!(t.entries.len(), 3);
    assert!(t.entries.iter().all(|(k, _)| !k.starts_with("//") && k != "minecraft:number"));
}

#[test]
fn simple_texture_is_used_on_every_side() {
    let t = table();
    for side in [BlockSide::Top, BlockSide::Bottom, BlockSide::North, BlockSide::South, BlockSide::East, BlockSide::West] {
        assert_eq!(get_material_for_side("minecraft:stone", side, &t), "mc_1.21.8/stone_tex");
    }
}

#[test]
fn complex_texture_per_side() {
    let t = table();
    assert_eq!(get_material_for_side("minecraft:grass_block[snowy=false]", BlockSide::Top, &t), "mc_1.21.8/grass_top");
    assert_eq!(get_material_for_side("minecraft:grass_block", BlockSide::Bottom, &t), "mc_1.21.8/dirt");
    assert_eq!(get_material_for_side("minecraft:grass_block", BlockSide::North, &t), "mc_1.21.8/grass_side");
    assert_eq!(get_material_for_side("minecraft:grass_block", BlockSide::West, &t), "mc_1.21.8/grass_side");
}

#[test]
fn property_override_applies() {
    let t = table();
    assert_eq!(get_material_for_side("minecraft:furnace[facing=north,lit=true]", BlockSide::Top, &t), "mc_1.21.8/furnace_top_on");
    assert_eq!(get_material_for_side("minecraft:furnace[lit=true]", BlockSide::East, &t), "mc_1.21.8/furnace_side_on");
    // the front texture is not overridden
    assert_eq!(get_material_for_side("minecraft:furnace[lit=true]", BlockSide::South, &t), "mc_1.21.8/furnace_front");
    assert_eq!(get_material_for_side("minecraft:furnace[lit=false]", BlockSide::Top, &t), "mc_1.21.8/furnace_side");
}

#[test]
fn unknown_block_uses_its_name() {
    let t = table();
    assert_eq!(get_material_for_side("minecraft:dirt", BlockSide::Top, &t), "mc_1.21.8/dirt");
    assert_eq!(get_material_for_side("minecraft:oak_log[axis=y]", BlockSide::Top, &t), "mc_1.21.8/oak_log");
    assert_eq!(get_material_for_side("mod:thing", BlockSide::Top, &t), "mc_1.21.8/mod:thing");
}

#[test]
fn complex_without_any_texture_falls_back_to_name() {
    let t = load_material_config(&vec![("minecraft:odd".to_string(), obj(vec![]))]);
    assert!(matches!(t.entries[0].1, MaterialConfig::Complex { .. }));
    assert_eq!(get_material_for_side("minecraft:odd", BlockSide::Top, &t), "mc_1.21.8/odd");
}

#[test]
fn later_entry_replaces_earlier() {
    let t = load_material_config(&vec![
        ("minecraft:stone".to_string(), s("first")),
        ("minecraft:stone".to_string(), s("second")),
    ]);
    assert_eq!(get_material_for_side("minecraft:stone", BlockSide::Top, &t), "mc_1.21.8/second");
}

#[test]
fn empty_config_uses_names() {
    let t = load_material_config(&Vec::new());
    assert!(t.entries.is_empty());
    assert_eq!(get_material_for_side("minecraft:sand", BlockSide::Bottom, &t), "mc_1.21.8/sand");
}

#[test]
fn configuration_is_read_from_json_text() {
    let text = r#"{
        "// note": "ignored",
        "minecraft:stone": "stone_tex",
        "minecraft:count": 3,
        "minecraft:furnace": {
            "side": "furnace_side",
            "front": "furnace_front",
            "properties": { "lit": { "true": { "top": "furnace_top_on" } } }
        }
    }"#;
    let t = material_config_from_json(text).unwrap();
    assert_eq!(t.entries.len(), 2);
    assert_eq!(get_material_for_side("minecraft:stone", BlockSide::West, &t), "mc_1.21.8/stone_tex");
    assert_eq!(get_material_for_side("minecraft:furnace[lit=true]", BlockSide::Top, &t), "mc_1.21.8/furnace_top_on");
    assert_eq!(get_material_for_side("minecraft:furnace[lit=true]", BlockSide::South, &t), "mc_1.21.8/furnace_front");
    assert_eq!(get_material_for_side("minecraft:furnace", BlockSide::Top, &t), "mc_1.21.8/furnace_side");
}

#[test]
fn text_that_is_not_a_json_object_is_an_error() {
    assert!(material_config_from_json("not json").is_err());
    assert!(material_config_from_json("[1, 2]").is_err());
    assert!(material_config_from_json("{}").unwrap().entries.is_empty());
}
