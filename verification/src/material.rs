//! Texture configuration and the choice of a material for each face of a block.
use vstd::prelude::*;
use crate::blockstate::{parse_block_properties, parse_block_spec, prop_views, Prop};
use crate::text::{append_str, chars_of, push_char, starts_with};

verus! {

/// A JSON value, as far as the texture configuration reads one.
pub enum JsonValue {
    Str(String),
    Object(Vec<(String, JsonValue)>),
    /// A number, a boolean, `null` or an array.
    Other,
}

/// A JSON value as a mathematical value.
pub enum JsonView {
    Str(Seq<char>),
    Object(Seq<(Seq<char>, JsonView)>),
    Other,
}

/// The mathematical value of a JSON value.
pub open spec fn json_view(v: JsonValue) -> JsonView
    decreases v,
{
    match v {
        JsonValue::Str(s) => JsonView::Str(s@),
        JsonValue::Object(o) => JsonView::Object(entries_view(o@)),
        JsonValue::Other => JsonView::Other,
    }
}

/// The mathematical value of the entries of a JSON object.
pub open spec fn entries_view(s: Seq<(String, JsonValue)>) -> Seq<(Seq<char>, JsonView)>
    decreases s,
{
    if s.len() == 0 {
        Seq::empty()
    } else {
        entries_view(s.drop_last()).push((s.last().0@, json_view(s.last().1)))
    }
}

/// Textures that replace the configured ones for one value of a block property.
pub struct MaterialOverride {
    pub top: Option<String>,
    pub side: Option<String>,
    pub bottom: Option<String>,
}

/// How a block type is textured: one texture for all faces, or per face.
pub enum MaterialConfig {
    Simple(String),
    Complex {
        top: Option<String>,
        side: Option<String>,
        bottom: Option<String>,
        front: Option<String>,
        end: Option<String>,
        /// Per property name, per property value, the textures it replaces.
        properties: Option<Vec<(String, Vec<(String, MaterialOverride)>)>>,
    },
}

/// The texture configuration: block type name to its textures; a later entry
/// for a name replaces an earlier one.
pub struct MaterialTable {
    pub entries: Vec<(String, MaterialConfig)>,
}

/// A face of a block.
#[derive(Clone, Copy)]
pub enum BlockSide {
    Top,
    Bottom,
    North,
    South,
    East,
    West,
}

pub struct OverrideView {
    pub top: Option<Seq<char>>,
    pub side: Option<Seq<char>>,
    pub bottom: Option<Seq<char>>,
}

pub type OverrideList = Seq<(Seq<char>, OverrideView)>;

pub type PropertyList = Seq<(Seq<char>, OverrideList)>;

pub enum MaterialView {
    Simple(Seq<char>),
    Complex {
        top: Option<Seq<char>>,
        side: Option<Seq<char>>,
        bottom: Option<Seq<char>>,
        front: Option<Seq<char>>,
        end: Option<Seq<char>>,
        properties: Option<PropertyList>,
    },
}

pub open spec fn opt_view(o: Option<String>) -> Option<Seq<char>> {
    match o {
        Some(s) => Some(s@),
        None => None,
    }
}

impl View for MaterialOverride {
    type V = OverrideView;

    open spec fn view(&self) -> OverrideView {
        OverrideView {
            top: opt_view(self.top),
            side: opt_view(self.side),
            bottom: opt_view(self.bottom),
        }
    }
}

pub open spec fn overrides_view(v: Seq<(String, MaterialOverride)>) -> OverrideList {
    v.map_values(|p: (String, MaterialOverride)| (p.0@, p.1@))
}

pub open spec fn properties_view(v: Seq<(String, Vec<(String, MaterialOverride)>)>) -> PropertyList {
    v.map_values(|p: (String, Vec<(String, MaterialOverride)>)| (p.0@, overrides_view(p.1@)))
}

impl View for MaterialConfig {
    type V = MaterialView;

    open spec fn view(&self) -> MaterialView {
        match self {
            MaterialConfig::Simple(s) => MaterialView::Simple(s@),
            MaterialConfig::Complex { top, side, bottom, front, end, properties } => {
                MaterialView::Complex {
                    top: opt_view(*top),
                    side: opt_view(*side),
                    bottom: opt_view(*bottom),
                    front: opt_view(*front),
                    end: opt_view(*end),
                    properties: match properties {
                        Some(p) => Some(properties_view(p@)),
                        None => None,
                    },
                }
            },
        }
    }
}

impl View for MaterialTable {
    type V = Seq<(Seq<char>, MaterialView)>;

    open spec fn view(&self) -> Seq<(Seq<char>, MaterialView)> {
        self.entries@.map_values(|p: (String, MaterialConfig)| (p.0@, p.1@))
    }
}

// ---------------------------------------------------------------------------
// Keyed lists: a later entry for a key replaces an earlier one.
// ---------------------------------------------------------------------------

/// The index of the last key equal to `k`.
pub open spec fn last_key(keys: Seq<Seq<char>>, k: Seq<char>) -> Option<int>
    decreases keys.len(),
{
    if keys.len() == 0 {
        None
    } else if keys.last() == k {
        Some(keys.len() - 1)
    } else {
        last_key(keys.drop_last(), k)
    }
}

pub open spec fn keys_of<V>(s: Seq<(String, V)>) -> Seq<Seq<char>> {
    s.map_values(|p: (String, V)| p.0@)
}

/// The value that a keyed list holds for `k`.
pub open spec fn lookup<V>(s: Seq<(Seq<char>, V)>, k: Seq<char>) -> Option<V> {
    match last_key(s.map_values(|p: (Seq<char>, V)| p.0), k) {
        Some(i) => Some(s[i].1),
        None => None,
    }
}

proof fn lemma_last_key(keys: Seq<Seq<char>>, k: Seq<char>)
    ensures
        match last_key(keys, k) {
            Some(i) => 0 <= i < keys.len() && keys[i] == k,
            None => true,
        },
    decreases keys.len(),
{
    if keys.len() > 0 {
        lemma_last_key(keys.drop_last(), k);
    }
}

/// The index of the entry that holds the value of `k`.
fn key_lookup<V>(s: &Vec<(String, V)>, k: &String) -> (r: Option<usize>)
    ensures
        match r {
            Some(i) => i < s.len() && last_key(keys_of(s@), k@) == Some(i as int),
            None => last_key(keys_of(s@), k@) is None,
        },
{
    let ghost keys = keys_of(s@);
    proof {
        lemma_last_key(keys, k@);
    }
    let mut i = s.len();
    proof {
        assert(keys.subrange(0, i as int) =~= keys);
    }
    while i > 0
        invariant
            i <= s.len(),
            keys == keys_of(s@),
            last_key(keys, k@) == last_key(keys.subrange(0, i as int), k@),
        decreases i,
    {
        proof {
            assert(keys.subrange(0, i as int).drop_last() =~= keys.subrange(0, i - 1));
            assert(keys.subrange(0, i as int).last() == s@[i - 1].0@);
        }
        if s[i - 1].0 == *k {
            return Some(i - 1);
        }
        i = i - 1;
    }
    None
}

// ---------------------------------------------------------------------------
// Loading the configuration
// ---------------------------------------------------------------------------

/// The value of `k` in a JSON object (the last one, should a key repeat).
pub open spec fn json_get(obj: Seq<(Seq<char>, JsonView)>, k: Seq<char>) -> Option<JsonView> {
    lookup(obj, k)
}

/// The string that a JSON value holds, if it is a string.
pub open spec fn json_str(v: Option<JsonView>) -> Option<Seq<char>> {
    match v {
        Some(JsonView::Str(s)) => Some(s),
        _ => None,
    }
}

pub open spec fn override_of(o: Seq<(Seq<char>, JsonView)>) -> OverrideView {
    OverrideView {
        top: json_str(json_get(o, "top"@)),
        side: json_str(json_get(o, "side"@)),
        bottom: json_str(json_get(o, "bottom"@)),
    }
}

/// The overrides of one property: its values whose JSON is an object.
pub open spec fn overrides_of(values: Seq<(Seq<char>, JsonView)>) -> OverrideList
    decreases values.len(),
{
    if values.len() == 0 {
        Seq::empty()
    } else {
        let acc = overrides_of(values.drop_last());
        match values.last().1 {
            JsonView::Object(o) => acc.push((values.last().0, override_of(o))),
            _ => acc,
        }
    }
}

/// The property overrides: the properties whose JSON is an object.
pub open spec fn properties_of(props: Seq<(Seq<char>, JsonView)>) -> PropertyList
    decreases props.len(),
{
    if props.len() == 0 {
        Seq::empty()
    } else {
        let acc = properties_of(props.drop_last());
        match props.last().1 {
            JsonView::Object(o) => acc.push((props.last().0, overrides_of(o))),
            _ => acc,
        }
    }
}

pub open spec fn complex_of(o: Seq<(Seq<char>, JsonView)>) -> MaterialView {
    MaterialView::Complex {
        top: json_str(json_get(o, "top"@)),
        side: json_str(json_get(o, "side"@)),
        bottom: json_str(json_get(o, "bottom"@)),
        front: json_str(json_get(o, "front"@)),
        end: json_str(json_get(o, "end"@)),
        properties: match json_get(o, "properties"@) {
            Some(JsonView::Object(p)) => Some(properties_of(p)),
            _ => None,
        },
    }
}

/// Keys that begin with `//` are comments.
pub open spec fn is_comment_key(k: Seq<char>) -> bool {
    "//"@.is_prefix_of(k)
}

/// The configuration that the top-level JSON entries give: comments, and
/// entries that are neither strings nor objects, are skipped.
pub open spec fn config_entries(raw: Seq<(Seq<char>, JsonView)>) -> Seq<(Seq<char>, MaterialView)>
    decreases raw.len(),
{
    if raw.len() == 0 {
        Seq::empty()
    } else {
        let acc = config_entries(raw.drop_last());
        let k = raw.last().0;
        if is_comment_key(k) {
            acc
        } else {
            match raw.last().1 {
                JsonView::Str(s) => acc.push((k, MaterialView::Simple(s))),
                JsonView::Object(o) => acc.push((k, complex_of(o))),
                JsonView::Other => acc,
            }
        }
    }
}

/// The entries of a JSON object seen one by one.
proof fn lemma_entries_view(s: Seq<(String, JsonValue)>)
    ensures
        entries_view(s).len() == s.len(),
        forall|i: int|
            0 <= i < s.len() ==> #[trigger] entries_view(s)[i] == (s[i].0@, json_view(s[i].1)),
    decreases s.len(),
{
    if s.len() > 0 {
        lemma_entries_view(s.drop_last());
        assert forall|i: int| 0 <= i < s.len() implies #[trigger] entries_view(s)[i] == (
            s[i].0@,
            json_view(s[i].1),
        ) by {
            if i < s.len() - 1 {
                assert(entries_view(s)[i] == entries_view(s.drop_last())[i]);
                assert(s.drop_last()[i] == s[i]);
            }
        }
    }
}

/// Looking a key up in a JSON object, entry by entry.
proof fn lemma_json_get(o: Seq<(String, JsonValue)>, k: Seq<char>)
    ensures
        json_get(entries_view(o), k) == match last_key(keys_of(o), k) {
            Some(i) => Some(json_view(o[i].1)),
            None => None::<JsonView>,
        },
{
    lemma_entries_view(o);
    lemma_last_key(keys_of(o), k);
    assert(entries_view(o).map_values(|p: (Seq<char>, JsonView)| p.0) =~= keys_of(o));
}

/// One more entry of a JSON object.
proof fn lemma_entries_view_take(s: Seq<(String, JsonValue)>, i: int)
    requires
        0 <= i < s.len(),
    ensures
        entries_view(s.take(i + 1)) == entries_view(s.take(i)).push((s[i].0@, json_view(s[i].1))),
        entries_view(s.take(i + 1)).drop_last() == entries_view(s.take(i)),
        entries_view(s.take(i + 1)).last() == (s[i].0@, json_view(s[i].1)),
{
    assert(s.take(i + 1).drop_last() =~= s.take(i));
    assert(s.take(i + 1).last() == s[i]);
    assert(entries_view(s.take(i)).push((s[i].0@, json_view(s[i].1))).drop_last() =~= entries_view(
        s.take(i),
    ));
}

/// The string value of `k` in a JSON object.
fn json_get_str(o: &Vec<(String, JsonValue)>, k: &str) -> (r: Option<String>)
    ensures
        opt_view(r) == json_str(json_get(entries_view(o@), k@)),
{
    let key = k.to_owned();
    let idx = key_lookup(o, &key);
    proof {
        lemma_json_get(o@, k@);
    }
    match idx {
        Some(i) => match &o[i].1 {
            JsonValue::Str(s) => Some(s.clone()),
            _ => None,
        },
        None => None,
    }
}

fn override_from_json(o: &Vec<(String, JsonValue)>) -> (r: MaterialOverride)
    ensures
        r@ == override_of(entries_view(o@)),
{
    MaterialOverride {
        top: json_get_str(o, "top"),
        side: json_get_str(o, "side"),
        bottom: json_get_str(o, "bottom"),
    }
}

fn overrides_from_json(values: &Vec<(String, JsonValue)>) -> (r: Vec<(String, MaterialOverride)>)
    ensures
        overrides_view(r@) == overrides_of(entries_view(values@)),
{
    let mut r: Vec<(String, MaterialOverride)> = Vec::new();
    let n = values.len();
    proof {
        assert(values@.take(0) =~= Seq::<(String, JsonValue)>::empty());
    }
    for i in 0..n
        invariant
            n == values.len(),
            overrides_view(r@) == overrides_of(entries_view(values@.take(i as int))),
    {
        proof {
            lemma_entries_view_take(values@, i as int);
        }
        let ghost old_r = r@;
        match &values[i].1 {
            JsonValue::Object(o) => {
                let ov = override_from_json(o);
                r.push((values[i].0.clone(), ov));
                proof {
                    assert(overrides_view(r@) =~= overrides_view(old_r).push(
                        (values@[i as int].0@, override_of(entries_view(o@))),
                    ));
                }
            },
            _ => {},
        }
    }
    proof {
        assert(values@.take(n as int) =~= values@);
    }
    r
}

fn properties_from_json(props: &Vec<(String, JsonValue)>) -> (r: Vec<
    (String, Vec<(String, MaterialOverride)>),
>)
    ensures
        properties_view(r@) == properties_of(entries_view(props@)),
{
    let mut r: Vec<(String, Vec<(String, MaterialOverride)>)> = Vec::new();
    let n = props.len();
    proof {
        assert(props@.take(0) =~= Seq::<(String, JsonValue)>::empty());
    }
    for i in 0..n
        invariant
            n == props.len(),
            properties_view(r@) == properties_of(entries_view(props@.take(i as int))),
    {
        proof {
            lemma_entries_view_take(props@, i as int);
        }
        let ghost old_r = r@;
        match &props[i].1 {
            JsonValue::Object(o) => {
                let vals = overrides_from_json(o);
                r.push((props[i].0.clone(), vals));
                proof {
                    assert(properties_view(r@) =~= properties_view(old_r).push(
                        (props@[i as int].0@, overrides_of(entries_view(o@))),
                    ));
                }
            },
            _ => {},
        }
    }
    proof {
        assert(props@.take(n as int) =~= props@);
    }
    r
}

fn complex_from_json(o: &Vec<(String, JsonValue)>) -> (r: MaterialConfig)
    ensures
        r@ == complex_of(entries_view(o@)),
{
    let key = "properties".to_owned();
    let idx = key_lookup(o, &key);
    proof {
        lemma_json_get(o@, "properties"@);
    }
    let properties = match idx {
        Some(i) => match &o[i].1 {
            JsonValue::Object(p) => Some(properties_from_json(p)),
            _ => None,
        },
        None => None,
    };
    MaterialConfig::Complex {
        top: json_get_str(o, "top"),
        side: json_get_str(o, "side"),
        bottom: json_get_str(o, "bottom"),
        front: json_get_str(o, "front"),
        end: json_get_str(o, "end"),
        properties,
    }
}

/// Builds the texture configuration from the entries of its JSON object.
pub fn load_material_config(raw_config: &Vec<(String, JsonValue)>) -> (r: MaterialTable)
    ensures
        r@ == config_entries(entries_view(raw_config@)),
{
    let mut entries: Vec<(String, MaterialConfig)> = Vec::new();
    let comment = chars_of("//");
    let n = raw_config.len();
    proof {
        assert(raw_config@.take(0) =~= Seq::<(String, JsonValue)>::empty());
    }
    for i in 0..n
        invariant
            n == raw_config.len(),
            comment@ == "//"@,
            entries@.map_values(|p: (String, MaterialConfig)| (p.0@, p.1@)) == config_entries(
                entries_view(raw_config@.take(i as int)),
            ),
    {
        proof {
            lemma_entries_view_take(raw_config@, i as int);
        }
        let ghost old_e = entries@;
        let key = &raw_config[i].0;
        let kc = chars_of(key.as_str());
        if !starts_with(&kc, &comment) {
            match &raw_config[i].1 {
                JsonValue::Str(s) => {
                    entries.push((key.clone(), MaterialConfig::Simple(s.clone())));
                    proof {
                        assert(entries@.map_values(|p: (String, MaterialConfig)| (p.0@, p.1@))
                            =~= old_e.map_values(|p: (String, MaterialConfig)| (p.0@, p.1@)).push(
                            (key@, MaterialView::Simple(s@)),
                        ));
                    }
                },
                JsonValue::Object(o) => {
                    let c = complex_from_json(o);
                    entries.push((key.clone(), c));
                    proof {
                        assert(entries@.map_values(|p: (String, MaterialConfig)| (p.0@, p.1@))
                            =~= old_e.map_values(|p: (String, MaterialConfig)| (p.0@, p.1@)).push(
                            (key@, complex_of(entries_view(o@))),
                        ));
                    }
                },
                JsonValue::Other => {},
            }
        }
    }
    proof {
        assert(raw_config@.take(n as int) =~= raw_config@);
    }
    MaterialTable { entries }
}

/// A JSON value of `serde_json`.
#[verifier::external_type_specification]
#[verifier::external_body]
pub struct ExSerdeJsonValue(serde_json::Value);

/// The entries of the JSON object that `text` holds, as `serde_json` parses them
/// (its object type keeps one entry per key); `None` where `text` is not a JSON object.
pub uninterp spec fn json_object_of(text: Seq<char>) -> Option<Seq<(Seq<char>, JsonView)>>;

/// Converts a `serde_json` value into a [`JsonValue`], variant for variant:
/// strings and objects (entry by entry, in the order of `serde_json::Map`) are
/// kept, every other kind of value becomes `Other`. It serves `parse_json_object`,
/// whose contract states what the conversion gives.
#[verifier::external_body]
fn json_value_from(v: serde_json::Value) -> JsonValue {
    match v {
        serde_json::Value::String(s) => JsonValue::Str(s),
        serde_json::Value::Object(m) => JsonValue::Object(
            m.into_iter().map(|(k, x)| (k, json_value_from(x))).collect(),
        ),
        _ => JsonValue::Other,
    }
}

/// Parses a JSON object with `serde_json::from_str` into a `serde_json::Map`.
/// Trusted: parsing is a function of the text alone, which `json_object_of` names.
/// The error message, `serde_json::Error`'s `Display`, is not stated.
#[verifier::external_body]
fn parse_json_object(text: &str) -> (r: Result<Vec<(String, JsonValue)>, String>)
    ensures
        r is Ok <==> json_object_of(text@) is Some,
        r matches Ok(v) ==> json_object_of(text@) == Some(entries_view(v@)),
{
    match serde_json::from_str::<serde_json::Map<String, serde_json::Value>>(text) {
        Ok(m) => Ok(m.into_iter().map(|(k, v)| (k, json_value_from(v))).collect()),
        Err(e) => Err(e.to_string()),
    }
}

/// Reads the texture configuration from the text of its JSON file. Where the text
/// is not a JSON object, the parser's message is returned.
pub fn material_config_from_json(text: &str) -> (r: Result<MaterialTable, String>)
    ensures
        r is Ok <==> json_object_of(text@) is Some,
        r matches Ok(t) ==> t@ == config_entries(json_object_of(text@).unwrap()),
{
    match parse_json_object(text) {
        Ok(raw) => Ok(load_material_config(&raw)),
        Err(e) => Err(e),
    }
}

// ---------------------------------------------------------------------------
// Choosing a material
// ---------------------------------------------------------------------------

/// Top, side and bottom textures.
pub type Textures = (Option<Seq<char>>, Option<Seq<char>>, Option<Seq<char>>);

pub open spec fn or_else(a: Option<Seq<char>>, b: Option<Seq<char>>) -> Option<Seq<char>> {
    match a {
        Some(_) => a,
        None => b,
    }
}

/// The textures after one block property: the override configured for its
/// value replaces the textures that it names.
pub open spec fn override_step(acc: Textures, cp: PropertyList, kv: Prop) -> Textures {
    match lookup(cp, kv.0) {
        Some(values) => match lookup(values, kv.1) {
            Some(ov) => (or_else(ov.top, acc.0), or_else(ov.side, acc.1), or_else(ov.bottom, acc.2)),
            None => acc,
        },
        None => acc,
    }
}

/// The textures after the block's properties, taken in order.
pub open spec fn apply_overrides(acc: Textures, cp: PropertyList, props: Seq<Prop>) -> Textures
    decreases props.len(),
{
    if props.len() == 0 {
        acc
    } else {
        override_step(apply_overrides(acc, cp, props.drop_last()), cp, props.last())
    }
}

/// The texture of a face: the face's own texture, else the side texture.
pub open spec fn side_texture(
    side: BlockSide,
    t: Textures,
    front: Option<Seq<char>>,
    end: Option<Seq<char>>,
) -> Option<Seq<char>> {
    match side {
        BlockSide::Top => or_else(t.0, t.1),
        BlockSide::Bottom => or_else(t.2, t.1),
        BlockSide::North | BlockSide::South => or_else(front, t.1),
        BlockSide::East | BlockSide::West => or_else(end, t.1),
    }
}

pub open spec fn material_prefix() -> Seq<char> {
    "mc_1.21.8/"@
}

/// A block name without the `minecraft:` namespace.
pub open spec fn strip_namespace(base: Seq<char>) -> Seq<char> {
    if "minecraft:"@.is_prefix_of(base) {
        base.subrange("minecraft:"@.len() as int, base.len() as int)
    } else {
        base
    }
}

/// The material of one face of a block: the configured texture when there is
/// one for the block's base name and face, else the base name without its
/// namespace; always under the material folder.
pub open spec fn material_spec(
    name: Seq<char>,
    side: BlockSide,
    config: Seq<(Seq<char>, MaterialView)>,
) -> Seq<char> {
    let base = parse_block_spec(name).0;
    let props = parse_block_spec(name).1;
    let fallback = material_prefix() + strip_namespace(base);
    match lookup(config, base) {
        Some(MaterialView::Simple(t)) => material_prefix() + t,
        Some(MaterialView::Complex { top, side: s, bottom, front, end, properties }) => {
            let t = match properties {
                Some(cp) => apply_overrides((top, s, bottom), cp, props),
                None => (top, s, bottom),
            };
            match side_texture(side, t, front, end) {
                Some(tex) => material_prefix() + tex,
                None => fallback,
            }
        },
        None => fallback,
    }
}

proof fn lemma_keys_match<V, W>(exec: Seq<(String, V)>, view: Seq<(Seq<char>, W)>)
    requires
        view.len() == exec.len(),
        forall|i: int| 0 <= i < exec.len() ==> (#[trigger] view[i]).0 == exec[i].0@,
    ensures
        view.map_values(|p: (Seq<char>, W)| p.0) == keys_of(exec),
{
    assert(view.map_values(|p: (Seq<char>, W)| p.0) =~= keys_of(exec));
}

fn clone_opt(o: &Option<String>) -> (r: Option<String>)
    ensures
        opt_view(r) == opt_view(*o),
{
    match o {
        Some(s) => Some(s.clone()),
        None => None,
    }
}

/// The material of one face of a block.
pub fn get_material_for_side(block_name: &str, side: BlockSide, config: &MaterialTable) -> (r:
    String)
    ensures
        r@ == material_spec(block_name@, side, config@),
{
    let (base, props) = parse_block_properties(block_name);
    let ghost pv = prop_views(props@);
    let mut out = "mc_1.21.8/".to_owned();
    let idx = key_lookup(&config.entries, &base);
    proof {
        lemma_keys_match(config.entries@, config@);
    }
    if let Some(i) = idx {
        proof {
            assert(lookup(config@, base@) == Some(config@[i as int].1));
        }
        match &config.entries[i].1 {
            MaterialConfig::Simple(t) => {
                append_str(&mut out, t.as_str());
                return out;
            },
            MaterialConfig::Complex { top, side: side_tex, bottom, front, end, properties } => {
                let mut ft = clone_opt(top);
                let mut fs = clone_opt(side_tex);
                let mut fb = clone_opt(bottom);
                let ghost init: Textures = (opt_view(*top), opt_view(*side_tex), opt_view(*bottom));
                if let Some(cp) = properties {
                    let ghost cpv = properties_view(cp@);
                    proof {
                        lemma_keys_match(cp@, cpv);
                        assert(pv.take(0) =~= Seq::<Prop>::empty());
                    }
                    let np = props.len();
                    for j in 0..np
                        invariant
                            np == props.len(),
                            pv == prop_views(props@),
                            cpv == properties_view(cp@),
                            cpv.map_values(|p: (Seq<char>, OverrideList)| p.0) == keys_of(cp@),
                            (opt_view(ft), opt_view(fs), opt_view(fb)) == apply_overrides(
                                init,
                                cpv,
                                pv.take(j as int),
                            ),
                    {
                        proof {
                            assert(pv.take(j + 1).drop_last() =~= pv.take(j as int));
                            assert(pv.take(j + 1).last() == pv[j as int]);
                        }
                        let pi = key_lookup(cp, &props[j].0);
                        if let Some(pi) = pi {
                            let vals = &cp[pi].1;
                            let ghost vv = overrides_view(vals@);
                            proof {
                                lemma_keys_match(vals@, vv);
                                assert(lookup(cpv, pv[j as int].0) == Some(vv));
                            }
                            let vi = key_lookup(vals, &props[j].1);
                            if let Some(vi) = vi {
                                let ov = &vals[vi].1;
                                proof {
                                    assert(lookup(vv, pv[j as int].1) == Some(ov@));
                                }
                                if let Some(t) = &ov.top {
                                    ft = Some(t.clone());
                                }
                                if let Some(t) = &ov.side {
                                    fs = Some(t.clone());
                                }
                                if let Some(t) = &ov.bottom {
                                    fb = Some(t.clone());
                                }
                            } else {
                                proof {
                                    assert(lookup(vv, pv[j as int].1) == None::<OverrideView>);
                                }
                            }
                        } else {
                            proof {
                                assert(lookup(cpv, pv[j as int].0) == None::<OverrideList>);
                            }
                        }
                    }
                    proof {
                        assert(pv.take(np as int) =~= pv);
                    }
                }
                let tex = match side {
                    BlockSide::Top => if ft.is_some() {
                        ft
                    } else {
                        fs
                    },
                    BlockSide::Bottom => if fb.is_some() {
                        fb
                    } else {
                        fs
                    },
                    BlockSide::North | BlockSide::South => if front.is_some() {
                        clone_opt(front)
                    } else {
                        fs
                    },
                    BlockSide::East | BlockSide::West => if end.is_some() {
                        clone_opt(end)
                    } else {
                        fs
                    },
                };
                if let Some(t) = tex {
                    append_str(&mut out, t.as_str());
                    return out;
                }
            },
        }
    } else {
        proof {
            assert(lookup(config@, base@) == None::<MaterialView>);
        }
    }
    let bc = chars_of(base.as_str());
    let ns = chars_of("minecraft:");
    if starts_with(&bc, &ns) {
        let tail = crate::text::string_of(&bc, ns.len(), bc.len());
        append_str(&mut out, tail.as_str());
    } else {
        append_str(&mut out, base.as_str());
    }
    out
}

/// Every material lies in the material folder: its name begins with `mc_1.21.8/`.
pub proof fn lemma_material_in_folder(
    name: Seq<char>,
    side: BlockSide,
    config: Seq<(Seq<char>, MaterialView)>,
)
    ensures
        material_prefix().is_prefix_of(material_spec(name, side, config)),
{
    let m = material_spec(name, side, config);
    let base = parse_block_spec(name).0;
    let rest = m.subrange(material_prefix().len() as int, m.len() as int);
    assert(m =~= material_prefix() + rest);
}

// ---------------------------------------------------------------------------
// Laws of the configuration and of the choice of a material
// ---------------------------------------------------------------------------

/// The last occurrence of a key.
proof fn lemma_last_key_at(keys: Seq<Seq<char>>, k: Seq<char>, i: int)
    requires
        0 <= i < keys.len(),
        keys[i] == k,
        forall|j: int| i < j < keys.len() ==> keys[j] != k,
    ensures
        last_key(keys, k) == Some(i),
    decreases keys.len(),
{
    if i < keys.len() - 1 {
        assert(keys.last() != k) by {
            assert(keys[keys.len() - 1] != k);
        }
        lemma_last_key_at(keys.drop_last(), k, i);
    }
}

/// In a keyed list, the value of a key is the one at its last occurrence.
proof fn lemma_lookup_at<V>(s: Seq<(Seq<char>, V)>, k: Seq<char>, i: int)
    requires
        0 <= i < s.len(),
        s[i].0 == k,
        forall|j: int| i < j < s.len() ==> s[j].0 != k,
    ensures
        lookup(s, k) == Some(s[i].1),
{
    let keys = s.map_values(|p: (Seq<char>, V)| p.0);
    assert forall|j: int| i < j < keys.len() implies keys[j] != k by {
        assert(keys[j] == s[j].0);
    }
    lemma_last_key_at(keys, k, i);
}

/// A configured texture field, by its key in the JSON object.
pub open spec fn texture_field(m: MaterialView, key: Seq<char>) -> Option<Seq<char>> {
    match m {
        MaterialView::Complex { top, side, bottom, front, end, .. } => if key == "top"@ {
            top
        } else if key == "side"@ {
            side
        } else if key == "bottom"@ {
            bottom
        } else if key == "front"@ {
            front
        } else if key == "end"@ {
            end
        } else {
            None
        },
        MaterialView::Simple(_) => None,
    }
}

/// Loading a configuration entry that is a JSON object keeps each of its
/// textures: where the last `top`, `side`, `bottom`, `front` or `end` of the
/// object is a string, the loaded entry (the last one of the table) has that
/// string for that face.
pub proof fn lemma_loaded_texture_fields(
    raw: Seq<(Seq<char>, JsonView)>,
    k: Seq<char>,
    o: Seq<(Seq<char>, JsonView)>,
    key: Seq<char>,
    i: int,
    t: Seq<char>,
)
    requires
        !"//"@.is_prefix_of(k),
        key == "top"@ || key == "side"@ || key == "bottom"@ || key == "front"@ || key == "end"@,
        0 <= i < o.len(),
        o[i] == (key, JsonView::Str(t)),
        forall|j: int| i < j < o.len() ==> o[j].0 != key,
    ensures
        config_entries(raw.push((k, JsonView::Object(o)))).last().0 == k,
        config_entries(raw.push((k, JsonView::Object(o)))).last().1 is Complex,
        texture_field(config_entries(raw.push((k, JsonView::Object(o)))).last().1, key) == Some(t),
{
    let all = raw.push((k, JsonView::Object(o)));
    assert(all.drop_last() =~= raw);
    assert(all.last() == (k, JsonView::Object(o)));
    lemma_lookup_at(o, key, i);
    reveal_strlit("top");
    reveal_strlit("side");
    reveal_strlit("bottom");
    reveal_strlit("front");
    reveal_strlit("end");
}

/// The textures that a configured entry gives each face, without property
/// overrides: the face's own texture (top, bottom, front for north and south,
/// end for east and west), else the side texture, else the block's name
/// without `minecraft:`; all under `mc_1.21.8/`.
pub proof fn lemma_complex_faces(
    name: Seq<char>,
    config: Seq<(Seq<char>, MaterialView)>,
    i: int,
    top: Option<Seq<char>>,
    side: Option<Seq<char>>,
    bottom: Option<Seq<char>>,
    front: Option<Seq<char>>,
    end: Option<Seq<char>>,
)
    requires
        0 <= i < config.len(),
        config[i] == (
            parse_block_spec(name).0,
            MaterialView::Complex { top, side, bottom, front, end, properties: None },
        ),
        forall|j: int| i < j < config.len() ==> config[j].0 != parse_block_spec(name).0,
    ensures
        ({
            let base = parse_block_spec(name).0;
            let plain = if "minecraft:"@.is_prefix_of(base) {
                base.subrange(10, base.len() as int)
            } else {
                base
            };
            let face = |own: Option<Seq<char>>|
                match own {
                    Some(t) => "mc_1.21.8/"@ + t,
                    None => match side {
                        Some(t) => "mc_1.21.8/"@ + t,
                        None => "mc_1.21.8/"@ + plain,
                    },
                };
            &&& material_spec(name, BlockSide::Top, config) == face(top)
            &&& material_spec(name, BlockSide::Bottom, config) == face(bottom)
            &&& material_spec(name, BlockSide::North, config) == face(front)
            &&& material_spec(name, BlockSide::South, config) == face(front)
            &&& material_spec(name, BlockSide::East, config) == face(end)
            &&& material_spec(name, BlockSide::West, config) == face(end)
        }),
{
    lemma_lookup_at(config, parse_block_spec(name).0, i);
    reveal_strlit("minecraft:");
}

/// Property overrides carry the side and bottom textures through whatever the
/// top texture is.
proof fn lemma_overrides_keep_side_bottom(
    t1: Option<Seq<char>>,
    t2: Option<Seq<char>>,
    s: Option<Seq<char>>,
    b: Option<Seq<char>>,
    cp: PropertyList,
    props: Seq<Prop>,
)
    ensures
        apply_overrides((t1, s, b), cp, props).1 == apply_overrides((t2, s, b), cp, props).1,
        apply_overrides((t1, s, b), cp, props).2 == apply_overrides((t2, s, b), cp, props).2,
    decreases props.len(),
{
    if props.len() > 0 {
        lemma_overrides_keep_side_bottom(t1, t2, s, b, cp, props.drop_last());
    }
}

/// The top texture never decides the bottom face: two tables whose entries for
/// a block differ only in the top texture give its bottom face the same material,
/// whatever the block's properties and overrides.
pub proof fn lemma_bottom_ignores_top(
    name: Seq<char>,
    config: Seq<(Seq<char>, MaterialView)>,
    i: int,
    top1: Option<Seq<char>>,
    top2: Option<Seq<char>>,
    side: Option<Seq<char>>,
    bottom: Option<Seq<char>>,
    front: Option<Seq<char>>,
    end: Option<Seq<char>>,
    properties: Option<PropertyList>,
)
    requires
        0 <= i < config.len(),
        config[i] == (
            parse_block_spec(name).0,
            MaterialView::Complex { top: top1, side, bottom, front, end, properties },
        ),
        forall|j: int| i < j < config.len() ==> config[j].0 != parse_block_spec(name).0,
    ensures
        material_spec(name, BlockSide::Bottom, config) == material_spec(
            name,
            BlockSide::Bottom,
            config.update(
                i,
                (
                    parse_block_spec(name).0,
                    MaterialView::Complex { top: top2, side, bottom, front, end, properties },
                ),
            ),
        ),
{
    let base = parse_block_spec(name).0;
    let c2 = config.update(
        i,
        (base, MaterialView::Complex { top: top2, side, bottom, front, end, properties }),
    );
    lemma_lookup_at(config, base, i);
    lemma_lookup_at(c2, base, i);
    match properties {
        Some(cp) => {
            lemma_overrides_keep_side_bottom(top1, top2, side, bottom, cp, parse_block_spec(name).1);
        },
        None => {},
    }
}

/// Loading a string entry gives a single texture for the block; an entry whose
/// key begins with `//` is a comment and adds nothing.
pub proof fn lemma_loaded_simple_and_comments(
    raw: Seq<(Seq<char>, JsonView)>,
    k: Seq<char>,
    v: JsonView,
    t: Seq<char>,
)
    ensures
        !"//"@.is_prefix_of(k) ==> config_entries(raw.push((k, JsonView::Str(t)))) == config_entries(
            raw,
        ).push((k, MaterialView::Simple(t))),
        "//"@.is_prefix_of(k) ==> config_entries(raw.push((k, v))) == config_entries(raw),
{
    assert(raw.push((k, JsonView::Str(t))).drop_last() =~= raw);
    assert(raw.push((k, v)).drop_last() =~= raw);
}

/// A block configured with a single texture has it on every face, whatever
/// its properties.
pub proof fn lemma_simple_every_face(
    name: Seq<char>,
    config: Seq<(Seq<char>, MaterialView)>,
    i: int,
    t: Seq<char>,
    side: BlockSide,
)
    requires
        0 <= i < config.len(),
        config[i] == (parse_block_spec(name).0, MaterialView::Simple(t)),
        forall|j: int| i < j < config.len() ==> config[j].0 != parse_block_spec(name).0,
    ensures
        material_spec(name, side, config) == "mc_1.21.8/"@ + t,
{
    lemma_lookup_at(config, parse_block_spec(name).0, i);
    reveal_strlit("mc_1.21.8/");
}

/// A block that the table does not name is textured by its base name, without
/// the `minecraft:` namespace, under `mc_1.21.8/`, on every face.
pub proof fn lemma_unconfigured_uses_name(
    name: Seq<char>,
    config: Seq<(Seq<char>, MaterialView)>,
    side: BlockSide,
)
    requires
        forall|j: int| 0 <= j < config.len() ==> config[j].0 != parse_block_spec(name).0,
    ensures
        ({
            let base = parse_block_spec(name).0;
            material_spec(name, side, config) == "mc_1.21.8/"@ + if "minecraft:"@.is_prefix_of(base) {
                base.subrange(10, base.len() as int)
            } else {
                base
            }
        }),
{
    let base = parse_block_spec(name).0;
    let keys = config.map_values(|p: (Seq<char>, MaterialView)| p.0);
    lemma_last_key(keys, base);
    if last_key(keys, base) is Some {
        let q = last_key(keys, base).unwrap();
        assert(keys[q] == config[q].0);
    }
    reveal_strlit("minecraft:");
    reveal_strlit("mc_1.21.8/");
}

/// A block with one property whose value has an override: the override's top,
/// side and bottom textures replace the configured ones where it gives them,
/// and each face then takes its own texture, else the side texture, else the
/// block's name.
pub proof fn lemma_one_property_override(
    name: Seq<char>,
    config: Seq<(Seq<char>, MaterialView)>,
    i: int,
    top: Option<Seq<char>>,
    side: Option<Seq<char>>,
    bottom: Option<Seq<char>>,
    front: Option<Seq<char>>,
    end: Option<Seq<char>>,
    cp: PropertyList,
    a: int,
    b: int,
)
    requires
        0 <= i < config.len(),
        config[i] == (
            parse_block_spec(name).0,
            MaterialView::Complex { top, side, bottom, front, end, properties: Some(cp) },
        ),
        forall|j: int| i < j < config.len() ==> config[j].0 != parse_block_spec(name).0,
        parse_block_spec(name).1.len() == 1,
        0 <= a < cp.len(),
        cp[a].0 == parse_block_spec(name).1[0].0,
        forall|j: int| a < j < cp.len() ==> cp[j].0 != cp[a].0,
        0 <= b < cp[a].1.len(),
        cp[a].1[b].0 == parse_block_spec(name).1[0].1,
        forall|j: int| b < j < cp[a].1.len() ==> cp[a].1[j].0 != cp[a].1[b].0,
    ensures
        ({
            let ov = cp[a].1[b].1;
            let base = parse_block_spec(name).0;
            let plain = if "minecraft:"@.is_prefix_of(base) {
                base.subrange(10, base.len() as int)
            } else {
                base
            };
            let ft = if ov.top is Some { ov.top } else { top };
            let fs = if ov.side is Some { ov.side } else { side };
            let fb = if ov.bottom is Some { ov.bottom } else { bottom };
            let face = |own: Option<Seq<char>>|
                match own {
                    Some(t) => "mc_1.21.8/"@ + t,
                    None => match fs {
                        Some(t) => "mc_1.21.8/"@ + t,
                        None => "mc_1.21.8/"@ + plain,
                    },
                };
            &&& material_spec(name, BlockSide::Top, config) == face(ft)
            &&& material_spec(name, BlockSide::Bottom, config) == face(fb)
            &&& material_spec(name, BlockSide::North, config) == face(front)
            &&& material_spec(name, BlockSide::East, config) == face(end)
        }),
{
    let props = parse_block_spec(name).1;
    lemma_lookup_at(config, parse_block_spec(name).0, i);
    lemma_lookup_at(cp, props[0].0, a);
    lemma_lookup_at(cp[a].1, props[0].1, b);
    assert(props.drop_last() =~= Seq::<Prop>::empty());
    assert(props.last() == props[0]);
    let acc = (top, side, bottom);
    assert(apply_overrides(acc, cp, props.drop_last()) == acc);
    assert(apply_overrides(acc, cp, props) == override_step(acc, cp, props[0]));
    reveal_strlit("minecraft:");
}

/// Adding an entry of another key leaves a lookup as it was.
proof fn lemma_lookup_push_other<V>(s: Seq<(Seq<char>, V)>, x: (Seq<char>, V), k: Seq<char>)
    requires
        x.0 != k,
    ensures
        lookup(s.push(x), k) == lookup(s, k),
{
    let t = s.push(x);
    let kt = t.map_values(|p: (Seq<char>, V)| p.0);
    let ks = s.map_values(|p: (Seq<char>, V)| p.0);
    assert(kt.last() == x.0);
    assert(kt.drop_last() =~= ks);
    lemma_last_key(ks, k);
    if last_key(ks, k) is Some {
        let q = last_key(ks, k).unwrap();
        assert(t[q] == s[q]);
    }
}

/// The overrides of the last object-valued entry `vn` of a property's values.
proof fn lemma_overrides_lookup(vals: Seq<(Seq<char>, JsonView)>, vn: Seq<char>, b: int, ovo: Seq<(Seq<char>, JsonView)>)
    requires
        0 <= b < vals.len(),
        vals[b] == (vn, JsonView::Object(ovo)),
        forall|j: int| b < j < vals.len() ==> vals[j].0 != vn,
    ensures
        lookup(overrides_of(vals), vn) == Some(override_of(ovo)),
    decreases vals.len(),
{
    let pre = vals.drop_last();
    if b == vals.len() - 1 {
        let r = overrides_of(vals);
        assert(vals.last() == vals[b]);
        assert(r == overrides_of(pre).push((vn, override_of(ovo))));
        lemma_lookup_at(r, vn, r.len() - 1);
    } else {
        assert forall|j: int| b < j < pre.len() implies pre[j].0 != vn by {
            assert(pre[j] == vals[j]);
        }
        assert(pre[b] == vals[b]);
        lemma_overrides_lookup(pre, vn, b, ovo);
        assert(vals.last().0 != vn) by {
            assert(vals[vals.len() - 1].0 != vn);
        }
        match vals.last().1 {
            JsonView::Object(o2) => {
                lemma_lookup_push_other(overrides_of(pre), (vals.last().0, override_of(o2)), vn);
            },
            _ => {},
        }
    }
}

/// The overrides of the last object-valued property `pn`.
proof fn lemma_properties_lookup(props: Seq<(Seq<char>, JsonView)>, pn: Seq<char>, a: int, vals: Seq<(Seq<char>, JsonView)>)
    requires
        0 <= a < props.len(),
        props[a] == (pn, JsonView::Object(vals)),
        forall|j: int| a < j < props.len() ==> props[j].0 != pn,
    ensures
        lookup(properties_of(props), pn) == Some(overrides_of(vals)),
    decreases props.len(),
{
    let pre = props.drop_last();
    if a == props.len() - 1 {
        let r = properties_of(props);
        assert(props.last() == props[a]);
        assert(r == properties_of(pre).push((pn, overrides_of(vals))));
        lemma_lookup_at(r, pn, r.len() - 1);
    } else {
        assert forall|j: int| a < j < pre.len() implies pre[j].0 != pn by {
            assert(pre[j] == props[j]);
        }
        assert(pre[a] == props[a]);
        lemma_properties_lookup(pre, pn, a, vals);
        assert(props.last().0 != pn) by {
            assert(props[props.len() - 1].0 != pn);
        }
        match props.last().1 {
            JsonView::Object(o2) => {
                lemma_lookup_push_other(properties_of(pre), (props.last().0, overrides_of(o2)), pn);
            },
            _ => {},
        }
    }
}

/// An override texture, by its key in the JSON object.
pub open spec fn override_field(ov: OverrideView, key: Seq<char>) -> Option<Seq<char>> {
    if key == "top"@ {
        ov.top
    } else if key == "side"@ {
        ov.side
    } else if key == "bottom"@ {
        ov.bottom
    } else {
        None
    }
}

/// Loading keeps property overrides: where an entry's object has under
/// `properties` a property `pn` whose value `vn` is an object with a string under
/// `top`, `side` or `bottom` (each the last of its key), the loaded entry's
/// overrides give that property value that texture.
pub proof fn lemma_loaded_override(
    raw: Seq<(Seq<char>, JsonView)>,
    k: Seq<char>,
    o: Seq<(Seq<char>, JsonView)>,
    pi: int,
    p: Seq<(Seq<char>, JsonView)>,
    pn: Seq<char>,
    a: int,
    vals: Seq<(Seq<char>, JsonView)>,
    vn: Seq<char>,
    b: int,
    ovo: Seq<(Seq<char>, JsonView)>,
    key: Seq<char>,
    c: int,
    t: Seq<char>,
)
    requires
        !"//"@.is_prefix_of(k),
        0 <= pi < o.len(),
        o[pi] == ("properties"@, JsonView::Object(p)),
        forall|j: int| pi < j < o.len() ==> o[j].0 != "properties"@,
        0 <= a < p.len(),
        p[a] == (pn, JsonView::Object(vals)),
        forall|j: int| a < j < p.len() ==> p[j].0 != pn,
        0 <= b < vals.len(),
        vals[b] == (vn, JsonView::Object(ovo)),
        forall|j: int| b < j < vals.len() ==> vals[j].0 != vn,
        key == "top"@ || key == "side"@ || key == "bottom"@,
        0 <= c < ovo.len(),
        ovo[c] == (key, JsonView::Str(t)),
        forall|j: int| c < j < ovo.len() ==> ovo[j].0 != key,
    ensures
        ({
            let m = config_entries(raw.push((k, JsonView::Object(o)))).last();
            &&& m.0 == k
            &&& m.1 matches MaterialView::Complex { properties: Some(cp), .. } && lookup(cp, pn) matches Some(
                vs,
            ) && lookup(vs, vn) matches Some(ov) && override_field(ov, key) == Some(t)
        }),
{
    let all = raw.push((k, JsonView::Object(o)));
    assert(all.drop_last() =~= raw);
    assert(all.last() == (k, JsonView::Object(o)));
    lemma_lookup_at(o, "properties"@, pi);
    lemma_properties_lookup(p, pn, a, vals);
    lemma_overrides_lookup(vals, vn, b, ovo);
    lemma_lookup_at(ovo, key, c);
    reveal_strlit("top");
    reveal_strlit("side");
    reveal_strlit("bottom");
}

} // verus!
