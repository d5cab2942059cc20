//! Block state names such as `minecraft:furnace[facing=north,lit=true]`.
use vstd::prelude::*;
use crate::text::{
    char_is, chars_of, is_unicode_whitespace, not_whitespace, lemma_first_where, lemma_last_where, find_first_char, find_last_char, first_where, last_where, string_of,
    trim_range, trim_seq,
};

verus! {

/// A property of a block state: its name and its value.
pub type Prop = (Seq<char>, Seq<char>);

/// `s` cut at every `sep`, as `str::split` does (never empty; an empty `s` gives one empty piece).
pub open spec fn split_on(s: Seq<char>, sep: char) -> Seq<Seq<char>>
    decreases s.len(),
{
    if s.len() == 0 {
        seq![Seq::empty()]
    } else {
        let prev = split_on(s.drop_last(), sep);
        if s.last() == sep {
            prev.push(Seq::empty())
        } else {
            prev.update(prev.len() - 1, prev.last().push(s.last()))
        }
    }
}

/// A piece `key=value`, both sides trimmed; `None` when it holds no `=`.
pub open spec fn parse_property(piece: Seq<char>) -> Option<Prop> {
    match first_where(piece, char_is('=')) {
        Some(q) => Some(
            (trim_seq(piece.subrange(0, q)), trim_seq(piece.subrange(q + 1, piece.len() as int))),
        ),
        None => None,
    }
}

/// The index of the property named `k`.
pub open spec fn prop_index(props: Seq<Prop>, k: Seq<char>) -> Option<int>
    decreases props.len(),
{
    if props.len() == 0 {
        None
    } else if props[0].0 == k {
        Some(0)
    } else {
        match prop_index(props.drop_first(), k) {
            Some(i) => Some(i + 1),
            None => None,
        }
    }
}

/// Sets a property, as a map insert: a property of the same name gets the new value.
pub open spec fn prop_insert(props: Seq<Prop>, kv: Prop) -> Seq<Prop> {
    match prop_index(props, kv.0) {
        Some(j) => props.update(j, kv),
        None => props.push(kv),
    }
}

/// The properties that the pieces define, later ones replacing earlier ones.
pub open spec fn props_of(pieces: Seq<Seq<char>>) -> Seq<Prop>
    decreases pieces.len(),
{
    if pieces.len() == 0 {
        Seq::empty()
    } else {
        let acc = props_of(pieces.drop_last());
        match parse_property(pieces.last()) {
            Some(kv) => prop_insert(acc, kv),
            None => acc,
        }
    }
}

/// A block state name split into its base name and its properties: the
/// properties stand between the first `[` and the last `]` after it, separated
/// by `,`; without such brackets the whole name is the base name.
pub open spec fn parse_block_spec(name: Seq<char>) -> (Seq<char>, Seq<Prop>) {
    match first_where(name, char_is('[')) {
        None => (name, Seq::empty()),
        Some(b) => {
            let rest = name.subrange(b + 1, name.len() as int);
            match last_where(rest, char_is(']')) {
                None => (name, Seq::empty()),
                Some(e) => (name.subrange(0, b), props_of(split_on(rest.subrange(0, e), ','))),
            }
        },
    }
}

pub open spec fn props_unique(props: Seq<Prop>) -> bool {
    forall|i: int, j: int| 0 <= i < j < props.len() ==> (#[trigger] props[i]).0 != (#[trigger] props[j]).0
}

pub open spec fn prop_views(s: Seq<(String, String)>) -> Seq<Prop> {
    s.map_values(|p: (String, String)| (p.0@, p.1@))
}

proof fn lemma_prop_index(props: Seq<Prop>, k: Seq<char>)
    ensures
        match prop_index(props, k) {
            Some(i) => 0 <= i < props.len() && props[i].0 == k && forall|j: int|
                0 <= j < i ==> props[j].0 != k,
            None => forall|j: int| 0 <= j < props.len() ==> props[j].0 != k,
        },
    decreases props.len(),
{
    if props.len() > 0 {
        lemma_prop_index(props.drop_first(), k);
        if props[0].0 != k {
            assert forall|j: int| 1 <= j < props.len() implies props[j] == props.drop_first()[j - 1] by {}
        }
    }
}

/// Names stay distinct under `prop_insert`.
proof fn lemma_prop_insert_unique(props: Seq<Prop>, kv: Prop)
    requires
        props_unique(props),
    ensures
        props_unique(prop_insert(props, kv)),
{
    lemma_prop_index(props, kv.0);
}

/// Sets the property `k` to `val`.
fn insert_prop(props: &mut Vec<(String, String)>, k: String, val: String)
    requires
        props_unique(prop_views(old(props)@)),
    ensures
        prop_views(final(props)@) == prop_insert(prop_views(old(props)@), (k@, val@)),
        props_unique(prop_views(final(props)@)),
{
    let ghost pv = prop_views(props@);
    proof {
        lemma_prop_insert_unique(pv, (k@, val@));
        assert(pv.subrange(0, pv.len() as int) =~= pv);
    }
    let mut j: usize = 0;
    while j < props.len()
        invariant
            0 <= j <= props.len(),
            props@ == old(props)@,
            pv == prop_views(props@),
            props_unique(prop_insert(pv, (k@, val@))),
            prop_index(pv, k@) == match prop_index(pv.subrange(j as int, pv.len() as int), k@) {
                Some(i) => Some(i + j),
                None => None::<int>,
            },
        decreases props.len() - j,
    {
        if props[j].0 == k {
            proof {
                assert(pv.subrange(j as int, pv.len() as int)[0] == pv[j as int]);
            }
            props.set(j, (k, val));
            proof {
                assert(prop_views(props@) =~= pv.update(j as int, (k@, val@)));
            }
            return;
        }
        proof {
            assert(pv.subrange(j as int, pv.len() as int).drop_first() =~= pv.subrange(
                j + 1,
                pv.len() as int,
            ));
            assert(pv.subrange(j as int, pv.len() as int)[0] == pv[j as int]);
        }
        j = j + 1;
    }
    props.push((k, val));
    proof {
        assert(pv.subrange(j as int, pv.len() as int) =~= Seq::<Prop>::empty());
        assert(prop_views(props@) =~= pv.push((k@, val@)));
    }
}

/// Adds the property that the piece `v[lo..hi]` defines, if it defines one.
fn add_piece(props: &mut Vec<(String, String)>, v: &Vec<char>, lo: usize, hi: usize)
    requires
        lo <= hi <= v.len(),
        props_unique(prop_views(old(props)@)),
    ensures
        prop_views(final(props)@) == match parse_property(v@.subrange(lo as int, hi as int)) {
            Some(kv) => prop_insert(prop_views(old(props)@), kv),
            None => prop_views(old(props)@),
        },
        props_unique(prop_views(final(props)@)),
{
    let ghost piece = v@.subrange(lo as int, hi as int);
    proof {
        lemma_first_where(piece, char_is('='));
    }
    match find_first_char(v, lo, hi, '=') {
        None => {},
        Some(q) => {
            let (a, b) = trim_range(v, lo, q);
            let (c, d) = trim_range(v, q + 1, hi);
            let key = string_of(v, a, b);
            let val = string_of(v, c, d);
            proof {
                assert(piece.subrange(0, q - lo) =~= v@.subrange(lo as int, q as int));
                assert(piece.subrange(q - lo + 1, piece.len() as int) =~= v@.subrange(
                    q + 1,
                    hi as int,
                ));
            }
            insert_prop(props, key, val);
        },
    }
}

/// The properties defined by `v[lo..hi]`, a `,`-separated list of `key=value`.
fn parse_props(v: &Vec<char>, lo: usize, hi: usize) -> (r: Vec<(String, String)>)
    requires
        lo <= hi <= v.len(),
    ensures
        prop_views(r@) == props_of(split_on(v@.subrange(lo as int, hi as int), ',')),
        props_unique(prop_views(r@)),
{
    let mut props: Vec<(String, String)> = Vec::new();
    let mut ps = lo;
    let mut i = lo;
    proof {
        assert(v@.subrange(lo as int, lo as int) =~= Seq::<char>::empty());
        assert(split_on(Seq::<char>::empty(), ',').drop_last() =~= Seq::<Seq<char>>::empty());
        assert(prop_views(props@) =~= Seq::<Prop>::empty());
    }
    while i < hi
        invariant
            lo <= ps <= i <= hi <= v.len(),
            split_on(v@.subrange(lo as int, i as int), ',').len() >= 1,
            split_on(v@.subrange(lo as int, i as int), ',').last() == v@.subrange(ps as int, i as int),
            prop_views(props@) == props_of(split_on(v@.subrange(lo as int, i as int), ',').drop_last()),
            props_unique(prop_views(props@)),
        decreases hi - i,
    {
        let ghost prev = split_on(v@.subrange(lo as int, i as int), ',');
        proof {
            assert(v@.subrange(lo as int, i + 1).drop_last() =~= v@.subrange(lo as int, i as int));
            assert(v@.subrange(lo as int, i + 1).last() == v@[i as int]);
        }
        if v[i] == ',' {
            add_piece(&mut props, v, ps, i);
            proof {
                let next = split_on(v@.subrange(lo as int, i + 1), ',');
                assert(next == prev.push(Seq::empty()));
                assert(next.drop_last() =~= prev);
                assert(prev =~= prev.drop_last().push(prev.last()));
                assert(v@.subrange(i + 1, i + 1) =~= Seq::<char>::empty());
            }
            ps = i + 1;
        } else {
            proof {
                let next = split_on(v@.subrange(lo as int, i + 1), ',');
                assert(next == prev.update(prev.len() - 1, prev.last().push(v@[i as int])));
                assert(next.drop_last() =~= prev.drop_last());
                assert(v@.subrange(ps as int, i + 1) =~= v@.subrange(ps as int, i as int).push(
                    v@[i as int],
                ));
            }
        }
        i = i + 1;
    }
    let ghost all = split_on(v@.subrange(lo as int, hi as int), ',');
    add_piece(&mut props, v, ps, hi);
    proof {
        assert(all =~= all.drop_last().push(all.last()));
    }
    props
}

/// Splits a block state name into its base name and its properties, as
/// `parse_block_spec` describes. A property named twice keeps its last value.
pub fn parse_block_properties(block_name: &str) -> (r: (String, Vec<(String, String)>))
    ensures
        r.0@ == parse_block_spec(block_name@).0,
        prop_views(r.1@) == parse_block_spec(block_name@).1,
        props_unique(prop_views(r.1@)),
{
    let v = chars_of(block_name);
    let n = v.len();
    proof {
        assert(v@.subrange(0, n as int) =~= v@);
    }
    proof {
        lemma_first_where(v@, char_is('['));
    }
    match find_first_char(&v, 0, n, '[') {
        None => {
            let empty: Vec<(String, String)> = Vec::new();
            proof {
                assert(prop_views(empty@) =~= Seq::<Prop>::empty());
            }
            (block_name.to_owned(), empty)
        },
        Some(b) => {
            let ghost rest = v@.subrange(b + 1, n as int);
            proof {
                lemma_last_where(rest, char_is(']'));
            }
            match find_last_char(&v, b + 1, n, ']') {
                None => {
                    let empty: Vec<(String, String)> = Vec::new();
                    proof {
                        assert(prop_views(empty@) =~= Seq::<Prop>::empty());
                    }
                    (block_name.to_owned(), empty)
                },
                Some(e) => {
                    let props = parse_props(&v, b + 1, e);
                    proof {
                        assert(rest.subrange(0, e - (b + 1)) =~= v@.subrange(b + 1, e as int));
                    }
                    (string_of(&v, 0, b), props)
                },
            }
        },
    }
}

// ---------------------------------------------------------------------------
// Writing properties and reading them back
// ---------------------------------------------------------------------------

/// A property name or value that can stand in a block state name as it is: it
/// holds no `,`, `=` or `]`, and no whitespace at either end.
pub open spec fn plain_part(s: Seq<char>) -> bool {
    &&& !s.contains(',') && !s.contains('=') && !s.contains(']')
    &&& s.len() > 0 ==> !is_unicode_whitespace(s[0]) && !is_unicode_whitespace(s.last())
}

/// A property written `name=value`.
pub open spec fn prop_text(p: Prop) -> Seq<char> {
    p.0 + seq!['='] + p.1
}

/// Properties written `name=value,name=value,...`.
pub open spec fn props_text(ps: Seq<Prop>) -> Seq<char>
    decreases ps.len(),
{
    if ps.len() == 0 {
        Seq::empty()
    } else if ps.len() == 1 {
        prop_text(ps[0])
    } else {
        props_text(ps.drop_last()) + seq![','] + prop_text(ps.last())
    }
}

proof fn lemma_split_without_sep(b: Seq<char>, sep: char)
    requires
        !b.contains(sep),
    ensures
        split_on(b, sep) == seq![b],
    decreases b.len(),
{
    if b.len() > 0 {
        assert(!b.drop_last().contains(sep)) by {
            if b.drop_last().contains(sep) {
                let k = choose|k: int| 0 <= k < b.drop_last().len() && b.drop_last()[k] == sep;
                assert(b[k] == sep);
            }
        }
        lemma_split_without_sep(b.drop_last(), sep);
        assert(b.last() != sep) by {
            assert(b[b.len() - 1] == b.last());
        }
        assert(b.drop_last().push(b.last()) =~= b);
        assert(seq![b.drop_last()].update(0, b.drop_last().push(b.last())) =~= seq![b]);
    } else {
        assert(b =~= Seq::<char>::empty());
    }
}

proof fn lemma_split_after_sep(a: Seq<char>, b: Seq<char>, sep: char)
    requires
        !b.contains(sep),
    ensures
        split_on(a + seq![sep] + b, sep) == split_on(a, sep).push(b),
    decreases b.len(),
{
    let s = a + seq![sep] + b;
    if b.len() == 0 {
        assert(s.drop_last() =~= a);
        assert(s.last() == sep);
        assert(b =~= Seq::<char>::empty());
    } else {
        assert(!b.drop_last().contains(sep)) by {
            if b.drop_last().contains(sep) {
                let k = choose|k: int| 0 <= k < b.drop_last().len() && b.drop_last()[k] == sep;
                assert(b[k] == sep);
            }
        }
        lemma_split_after_sep(a, b.drop_last(), sep);
        assert(s.drop_last() =~= a + seq![sep] + b.drop_last());
        assert(s.last() == b.last());
        assert(b.last() != sep) by {
            assert(b[b.len() - 1] == b.last());
        }
        assert(b.drop_last().push(b.last()) =~= b);
        assert(split_on(a, sep).push(b.drop_last()).update(
            split_on(a, sep).len() as int,
            b.drop_last().push(b.last()),
        ) =~= split_on(a, sep).push(b));
    }
}

proof fn lemma_prop_text_no_comma(p: Prop)
    requires
        plain_part(p.0),
        plain_part(p.1),
    ensures
        !prop_text(p).contains(','),
{
    let t = prop_text(p);
    if t.contains(',') {
        let k = choose|k: int| 0 <= k < t.len() && t[k] == ',';
        if k < p.0.len() {
            assert(p.0[k] == ',');
        } else if k > p.0.len() {
            assert(p.1[k - p.0.len() - 1] == ',');
        }
    }
}

proof fn lemma_split_props_text(ps: Seq<Prop>)
    requires
        ps.len() >= 1,
        forall|i: int| 0 <= i < ps.len() ==> plain_part((#[trigger] ps[i]).0) && plain_part(ps[i].1),
    ensures
        split_on(props_text(ps), ',') == ps.map_values(|p: Prop| prop_text(p)),
    decreases ps.len(),
{
    if ps.len() == 1 {
        lemma_prop_text_no_comma(ps[0]);
        lemma_split_without_sep(prop_text(ps[0]), ',');
        assert(ps.map_values(|p: Prop| prop_text(p)) =~= seq![prop_text(ps[0])]);
    } else {
        let pre = ps.drop_last();
        assert forall|i: int| 0 <= i < pre.len() implies plain_part((#[trigger] pre[i]).0) && plain_part(
            pre[i].1,
        ) by {
            assert(pre[i] == ps[i]);
        }
        lemma_split_props_text(pre);
        assert(ps.last() == ps[ps.len() - 1]);
        lemma_prop_text_no_comma(ps.last());
        lemma_split_after_sep(props_text(pre), prop_text(ps.last()), ',');
        assert(ps.map_values(|p: Prop| prop_text(p)) =~= pre.map_values(|p: Prop| prop_text(p)).push(
            prop_text(ps.last()),
        ));
    }
}

proof fn lemma_trim_plain(s: Seq<char>)
    requires
        s.len() > 0 ==> !is_unicode_whitespace(s[0]) && !is_unicode_whitespace(s.last()),
    ensures
        trim_seq(s) == s,
{
    lemma_first_where(s, not_whitespace());
    lemma_last_where(s, not_whitespace());
    if s.len() > 0 {
        assert((not_whitespace())(s[0]));
        assert((not_whitespace())(s[s.len() - 1]));
        assert(s.subrange(0, s.len() as int) =~= s);
    } else {
        assert(s =~= Seq::<char>::empty());
    }
}

proof fn lemma_parse_prop_text(p: Prop)
    requires
        plain_part(p.0),
        plain_part(p.1),
    ensures
        parse_property(prop_text(p)) == Some(p),
{
    let t = prop_text(p);
    let k = p.0.len() as int;
    lemma_first_where(t, char_is('='));
    assert(t[k] == '=');
    assert((char_is('='))(t[k]));
    match first_where(t, char_is('=')) {
        Some(q) => {
            if q < k {
                assert(p.0[q] == '=');
            }
            assert(q == k);
        },
        None => {},
    }
    assert(t.subrange(0, k) =~= p.0);
    assert(t.subrange(k + 1, t.len() as int) =~= p.1);
    lemma_trim_plain(p.0);
    lemma_trim_plain(p.1);
}

proof fn lemma_props_of_texts(ps: Seq<Prop>)
    requires
        props_unique(ps),
        forall|i: int| 0 <= i < ps.len() ==> plain_part((#[trigger] ps[i]).0) && plain_part(ps[i].1),
    ensures
        props_of(ps.map_values(|p: Prop| prop_text(p))) == ps,
    decreases ps.len(),
{
    let pieces = ps.map_values(|p: Prop| prop_text(p));
    if ps.len() == 0 {
        assert(ps =~= Seq::<Prop>::empty());
    } else {
        let pre = ps.drop_last();
        assert forall|i: int| 0 <= i < pre.len() implies plain_part((#[trigger] pre[i]).0) && plain_part(
            pre[i].1,
        ) by {
            assert(pre[i] == ps[i]);
        }
        lemma_props_of_texts(pre);
        assert(pieces.drop_last() =~= pre.map_values(|p: Prop| prop_text(p)));
        assert(ps.last() == ps[ps.len() - 1]);
        lemma_parse_prop_text(ps.last());
        lemma_prop_index(pre, ps.last().0);
        if prop_index(pre, ps.last().0) is Some {
            let j = prop_index(pre, ps.last().0).unwrap();
            assert(ps[j].0 == ps[ps.len() - 1].0);
        }
        assert(pre.push(ps.last()) =~= ps);
    }
}

/// Writing a base name and properties as `base[name=value,...]` and splitting
/// the result gives them back: for a base name without `[`, at least one
/// property, distinct property names, and names and values that hold no `,`,
/// `=` or `]` and no whitespace at either end.
pub proof fn lemma_block_spec_round_trip(base: Seq<char>, ps: Seq<Prop>)
    requires
        !base.contains('['),
        ps.len() >= 1,
        props_unique(ps),
        forall|i: int| 0 <= i < ps.len() ==> plain_part((#[trigger] ps[i]).0) && plain_part(ps[i].1),
    ensures
        parse_block_spec(base + seq!['['] + props_text(ps) + seq![']']) == (base, ps),
{
    let t = props_text(ps);
    let name = base + seq!['['] + t + seq![']'];
    let b = base.len() as int;
    lemma_first_where(name, char_is('['));
    assert(name[b] == '[');
    assert((char_is('['))(name[b]));
    match first_where(name, char_is('[')) {
        Some(q) => {
            if q < b {
                assert(base[q] == name[q]);
                assert(base.contains(base[q]));
            }
            assert(q == b);
        },
        None => {},
    }
    let rest = name.subrange(b + 1, name.len() as int);
    assert(rest =~= t + seq![']']);
    assert(rest.last() == ']');
    assert(last_where(rest, char_is(']')) == Some(rest.len() - 1));
    assert(rest.subrange(0, rest.len() - 1) =~= t);
    assert(name.subrange(0, b) =~= base);
    lemma_split_props_text(ps);
    lemma_props_of_texts(ps);
}

/// A name without `[`, or with no `]` after its first `[`, is all base name
/// and has no properties.
pub proof fn lemma_block_spec_without_brackets(name: Seq<char>)
    ensures
        !name.contains('[') ==> parse_block_spec(name) == (name, Seq::<Prop>::empty()),
        forall|b: int|
            0 <= b < name.len() && name[b] == '[' && (forall|j: int| 0 <= j < b ==> name[j] != '[') && (
            forall|j: int| b < j < name.len() ==> name[j] != ']') ==> parse_block_spec(name) == (
                name,
                Seq::<Prop>::empty(),
            ),
{
    lemma_first_where(name, char_is('['));
    if !name.contains('[') {
        if first_where(name, char_is('[')) is Some {
            let q = first_where(name, char_is('[')).unwrap();
            assert(name.contains(name[q]));
        }
    }
    assert forall|b: int|
        0 <= b < name.len() && name[b] == '[' && (forall|j: int| 0 <= j < b ==> name[j] != '[') && (
        forall|j: int| b < j < name.len() ==> name[j] != ']') implies parse_block_spec(name) == (
            name,
            Seq::<Prop>::empty(),
        ) by {
        assert((char_is('['))(name[b]));
        let q = first_where(name, char_is('[')).unwrap();
        assert(q == b);
        let rest = name.subrange(b + 1, name.len() as int);
        lemma_last_where(rest, char_is(']'));
        if last_where(rest, char_is(']')) is Some {
            let e = last_where(rest, char_is(']')).unwrap();
            assert(rest[e] == name[b + 1 + e]);
        }
    }
}

} // verus!
