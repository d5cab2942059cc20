use mts::blockstate::parse_block_properties;

fn props(v: &[(&str, &str)]) -> Vec<(String, String)> {
    v.iter().map(|(k, x)| (k.to_string(), x.to_string())).collect()
}

#[test]
fn plain_name_has_no_properties() {
    let (base, p) = parse_block_properties("minecraft:stone");
    assert_eq!(base, "minecraft:stone");
    assert!(p.is_empty());
}

#[test]
fn properties_are_split_and_named() {
    let (base, p) = parse_block_properties("minecraft:furnace[facing=north,lit=true]");
    assert_eq!(base, "minecraft:furnace");
    assert_eq!(p, props(&[("facing", "north"), ("lit", "true")]));
}

#[test]
fn keys_and_values_are_trimmed() {
    let (base, p) = parse_block_properties("a[ x = 1 ,\ty=2 ]");
    assert_eq!(base, "a");
    assert_eq!(p, props(&[("x", "1"), ("y", "2")]));
}

#[test]
fn missing_closing_bracket_keeps_whole_name() {
    let (base, p) = parse_block_properties("minecraft:log[axis=y");
    assert_eq!(base, "minecraft:log[axis=y");
    assert!(p.is_empty());
}

#[test]
fn piece_without_equals_is_ignored() {
    let (base, p) = parse_block_properties("a[snowy,lit=false]");
    assert_eq!(base, "a");
    assert_eq!(p, props(&[("lit", "false")]));
}

#[test]
fn later_property_replaces_earlier() {
    let (_, p) = parse_block_properties("a[x=1,y=2,x=3]");
    assert_eq!(p, props(&[("x", "3"), ("y", "2")]));
}

#[test]
fn last_closing_bracket_ends_properties() {
    let (base, p) = parse_block_properties("a[k=v]]");
    assert_eq!(base, "a");
    assert_eq!(p, props(&[("k", "v]")]));
}

#[test]
fn empty_brackets_give_no_properties() {
    let (base, p) = parse_block_properties("minecraft:chest[]");
    assert_eq!(base, "minecraft:chest");
    assert!(p.is_empty());
}

#[test]
fn value_may_hold_equals() {
    let (_, p) = parse_block_properties("a[k=v=w]");
    assert_eq!(p, props(&[("k", "v=w")]));
}

#[test]
fn written_properties_read_back() {
    let written = [("facing", "north"), ("half", "top"), ("waterlogged", "false")];
    let text: Vec<String> = written.iter().map(|(k, v)| format!("{}={}", k, v)).collect();
    let name = format!("minecraft:oak_stairs[{}]", text.join(","));
    assert_eq!(parse_block_properties(&name), ("minecraft:oak_stairs".to_string(), props(&written)));
    assert_eq!(parse_block_properties("minecraft:stone"), ("minecraft:stone".to_string(), Vec::new()));
    assert_eq!(parse_block_properties("minecraft:odd[a=b"), ("minecraft:odd[a=b".to_string(), Vec::new()));
}
