//! The per-object codec.
//!
//! Each asset file holds one object subtree, encoded as a structured value
//! (a document tree of scalars, strings, lists and keyed documents) that the
//! shell serializes byte-for-byte. Parent fields are never encoded: they are
//! reconstructed from context. On-disk identifiers are embedded so that
//! identity survives a save/load cycle. Decoding defaults missing or damaged
//! fields instead of failing the whole object.

use vstd::prelude::*;

use crate::layer::LayerKind;
use crate::stroke::{StrokeColor, StrokePoint};

verus! {

/// The structured value a codec produces: the exchange form between the
/// verified codec and the unverified byte serializer.
pub enum Value {
    Null,
    U64(u64),
    I64(i64),
    Bool(bool),
    Str(String),
    List(Vec<Value>),
    Doc(Vec<(String, Value)>),
}

/// The first binding of `name` in a document's field list.
pub open spec fn doc_lookup(fields: Seq<(String, Value)>, name: Seq<char>) -> Option<Value>
    decreases fields.len(),
{
    if fields.len() == 0 {
        None
    } else if fields.first().0@ == name {
        Some(fields.first().1)
    } else {
        doc_lookup(fields.drop_first(), name)
    }
}

/// Looks a field up in a document's field list, first binding wins.
pub fn doc_get<'a>(fields: &'a Vec<(String, Value)>, name: &String) -> (r: Option<&'a Value>)
    ensures
        match r {
            Some(v) => doc_lookup(fields@, name@) == Some(*v),
            None => doc_lookup(fields@, name@) is None,
        },
{
    let mut i: usize = 0;
    proof {
        assert(fields@.skip(0) =~= fields@);
    }
    while i < fields.len()
        invariant
            0 <= i <= fields@.len(),
            doc_lookup(fields@, name@) == doc_lookup(fields@.skip(i as int), name@),
        decreases fields@.len() - i,
    {
        proof {
            assert(fields@.skip(i as int).first() == fields@[i as int]);
            assert(fields@.skip(i as int).drop_first() =~= fields@.skip(i as int + 1));
        }
        if fields[i].0 == *name {
            return Some(&fields[i].1);
        }
        i = i + 1;
    }
    proof {
        assert(fields@.skip(fields@.len() as int) =~= Seq::<(String, Value)>::empty());
    }
    None
}

/// Looks a field up in a document's field list, returning the position of
/// the first binding.
pub fn doc_get_index(fields: &Vec<(String, Value)>, name: &String) -> (r: Option<usize>)
    ensures
        match r {
            Some(i) => {
                &&& i < fields@.len()
                &&& fields@[i as int].0@ == name@
                &&& doc_lookup(fields@, name@) == Some(fields@[i as int].1)
            },
            None => doc_lookup(fields@, name@) is None,
        },
{
    let mut i: usize = 0;
    proof {
        assert(fields@.skip(0) =~= fields@);
    }
    while i < fields.len()
        invariant
            0 <= i <= fields@.len(),
            doc_lookup(fields@, name@) == doc_lookup(fields@.skip(i as int), name@),
        decreases fields@.len() - i,
    {
        proof {
            assert(fields@.skip(i as int).first() == fields@[i as int]);
            assert(fields@.skip(i as int).drop_first() =~= fields@.skip(i as int + 1));
        }
        if fields[i].0 == *name {
            return Some(i);
        }
        i = i + 1;
    }
    proof {
        assert(fields@.skip(fields@.len() as int) =~= Seq::<(String, Value)>::empty());
    }
    None
}

/// One stroke as stored on disk: its identifier and its field data; the
/// owning frame is context.
pub struct StrokeTree {
    pub key: u64,
    pub color: StrokeColor,
    pub r: u32,
    pub filled: bool,
    pub points: Vec<StrokePoint>,
}

/// One frame as stored on disk: its identifier, its time, and the strokes it
/// owns.
pub struct FrameTree {
    pub key: u64,
    pub time: i32,
    pub strokes: Vec<StrokeTree>,
}

/// One layer as stored on disk: its identifier, its field data, and the
/// frames and sub-layers it owns.
pub struct LayerTree {
    pub key: u64,
    pub name: String,
    pub show: bool,
    pub kind: LayerKind,
    pub frames: Vec<FrameTree>,
    pub layers: Vec<LayerTree>,
}

/// One graphic as stored on disk: the root object of a graphic asset file.
pub struct GraphicTree {
    pub key: u64,
    pub name: String,
    pub len: u32,
    pub clip: bool,
    pub w: u32,
    pub h: u32,
    pub layers: Vec<LayerTree>,
}

/// One palette as stored on disk: the root object of a palette asset file.
pub struct PaletteTree {
    pub key: u64,
    pub name: String,
    pub colors: Vec<u32>,
}

/// Observable equality of stroke subtrees.
pub open spec fn stroke_tree_eqv(a: StrokeTree, b: StrokeTree) -> bool {
    &&& a.key == b.key
    &&& a.color == b.color
    &&& a.r == b.r
    &&& a.filled == b.filled
    &&& a.points@ == b.points@
}

/// Observable equality of frame subtrees.
pub open spec fn frame_tree_eqv(a: FrameTree, b: FrameTree) -> bool {
    &&& a.key == b.key
    &&& a.time == b.time
    &&& a.strokes@.len() == b.strokes@.len()
    &&& forall|i: int|
        0 <= i < a.strokes@.len() ==> stroke_tree_eqv(
            #[trigger] a.strokes@[i],
            b.strokes@[i],
        )
}

/// Observable equality of layer subtrees.
pub open spec fn layer_tree_eqv(a: LayerTree, b: LayerTree) -> bool
    decreases a,
{
    &&& a.key == b.key
    &&& a.name@ == b.name@
    &&& a.show == b.show
    &&& a.kind == b.kind
    &&& a.frames@.len() == b.frames@.len()
    &&& forall|i: int|
        0 <= i < a.frames@.len() ==> frame_tree_eqv(#[trigger] a.frames@[i], b.frames@[i])
    &&& a.layers@.len() == b.layers@.len()
    &&& forall|i: int|
        0 <= i < a.layers@.len() ==> layer_tree_eqv(#[trigger] a.layers@[i], b.layers@[i])
}

/// Observable equality of graphic trees.
pub open spec fn graphic_tree_eqv(a: GraphicTree, b: GraphicTree) -> bool {
    &&& a.key == b.key
    &&& a.name@ == b.name@
    &&& a.len == b.len
    &&& a.clip == b.clip
    &&& a.w == b.w
    &&& a.h == b.h
    &&& a.layers@.len() == b.layers@.len()
    &&& forall|i: int|
        0 <= i < a.layers@.len() ==> layer_tree_eqv(#[trigger] a.layers@[i], b.layers@[i])
}

/// Observable equality of palette trees.
pub open spec fn palette_tree_eqv(a: PaletteTree, b: PaletteTree) -> bool {
    &&& a.key == b.key
    &&& a.name@ == b.name@
    &&& a.colors@ == b.colors@
}

fn encode_point(p: StrokePoint) -> (r: Value)
    ensures
        decode_point_spec(r) == p,
{
    let mut items: Vec<Value> = Vec::new();
    items.push(Value::U64(p.ax as u64));
    items.push(Value::U64(p.ay as u64));
    items.push(Value::U64(p.ptx as u64));
    items.push(Value::U64(p.pty as u64));
    items.push(Value::U64(p.bx as u64));
    items.push(Value::U64(p.by as u64));
    Value::List(items)
}

/// What decoding a point value yields: six scalar encodings, damaged or
/// missing entries defaulting to zero.
pub open spec fn decode_point_spec(v: Value) -> StrokePoint {
    match v {
        Value::List(items) => StrokePoint {
            ax: list_u32(items@, 0),
            ay: list_u32(items@, 1),
            ptx: list_u32(items@, 2),
            pty: list_u32(items@, 3),
            bx: list_u32(items@, 4),
            by: list_u32(items@, 5),
        },
        _ => StrokePoint { ax: 0, ay: 0, ptx: 0, pty: 0, bx: 0, by: 0 },
    }
}

pub open spec fn list_u32(items: Seq<Value>, i: int) -> u32 {
    if 0 <= i < items.len() {
        as_u32(items[i])
    } else {
        0u32
    }
}

pub open spec fn as_u32(v: Value) -> u32 {
    match v {
        Value::U64(x) => if x <= u32::MAX as u64 {
            x as u32
        } else {
            0u32
        },
        _ => 0u32,
    }
}

fn value_as_u32(v: &Value) -> (r: u32)
    ensures
        r == as_u32(*v),
{
    match v {
        Value::U64(x) => {
            if *x <= u32::MAX as u64 {
                *x as u32
            } else {
                0
            }
        },
        _ => 0,
    }
}

fn decode_point(v: &Value) -> (r: StrokePoint)
    ensures
        r == decode_point_spec(*v),
{
    match v {
        Value::List(items) => {
            let ax = if items.len() > 0 {
                value_as_u32(&items[0])
            } else {
                0
            };
            let ay = if items.len() > 1 {
                value_as_u32(&items[1])
            } else {
                0
            };
            let ptx = if items.len() > 2 {
                value_as_u32(&items[2])
            } else {
                0
            };
            let pty = if items.len() > 3 {
                value_as_u32(&items[3])
            } else {
                0
            };
            let bx = if items.len() > 4 {
                value_as_u32(&items[4])
            } else {
                0
            };
            let by = if items.len() > 5 {
                value_as_u32(&items[5])
            } else {
                0
            };
            StrokePoint { ax, ay, ptx, pty, bx, by }
        },
        _ => StrokePoint { ax: 0, ay: 0, ptx: 0, pty: 0, bx: 0, by: 0 },
    }
}

pub open spec fn as_u64(v: Option<Value>) -> u64 {
    match v {
        Some(Value::U64(x)) => x,
        _ => 0u64,
    }
}

pub open spec fn as_i32(v: Option<Value>) -> i32 {
    match v {
        Some(Value::I64(x)) => if i32::MIN as i64 <= x <= i32::MAX as i64 {
            x as i32
        } else {
            0i32
        },
        _ => 0i32,
    }
}

pub open spec fn as_u32_field(v: Option<Value>) -> u32 {
    match v {
        Some(x) => as_u32(x),
        None => 0u32,
    }
}

/// The text of a string field, empty when missing or damaged.
pub open spec fn as_str_field(v: Option<Value>) -> Seq<char> {
    match v {
        Some(Value::Str(s)) => s@,
        _ => Seq::empty(),
    }
}

/// The length of a list field, zero when missing or damaged.
pub open spec fn list_len_of(v: Option<Value>) -> int {
    match v {
        Some(Value::List(items)) => items@.len() as int,
        _ => 0,
    }
}

pub open spec fn as_bool(v: Option<Value>) -> bool {
    match v {
        Some(Value::Bool(b)) => b,
        _ => false,
    }
}

fn field_u64(fields: &Vec<(String, Value)>, name: &String) -> (r: u64)
    ensures
        r == as_u64(doc_lookup(fields@, name@)),
{
    match doc_get(fields, name) {
        Some(Value::U64(x)) => *x,
        _ => 0,
    }
}

fn field_i32(fields: &Vec<(String, Value)>, name: &String) -> (r: i32)
    ensures
        r == as_i32(doc_lookup(fields@, name@)),
{
    match doc_get(fields, name) {
        Some(Value::I64(x)) => {
            if i32::MIN as i64 <= *x && *x <= i32::MAX as i64 {
                *x as i32
            } else {
                0
            }
        },
        _ => 0,
    }
}

fn field_u32(fields: &Vec<(String, Value)>, name: &String) -> (r: u32)
    ensures
        r == as_u32_field(doc_lookup(fields@, name@)),
{
    match doc_get(fields, name) {
        Some(v) => value_as_u32(v),
        None => 0,
    }
}

fn field_bool(fields: &Vec<(String, Value)>, name: &String) -> (r: bool)
    ensures
        r == as_bool(doc_lookup(fields@, name@)),
{
    match doc_get(fields, name) {
        Some(Value::Bool(b)) => *b,
        _ => false,
    }
}

fn field_string(fields: &Vec<(String, Value)>, name: &String) -> (r: String)
    ensures
        r@ == match doc_lookup(fields@, name@) {
            Some(Value::Str(s)) => s@,
            _ => Seq::<char>::empty(),
        },
{
    match doc_get(fields, name) {
        Some(Value::Str(s)) => s.clone(),
        _ => String::new(),
    }
}

/// What a stroke color value decodes to.
pub open spec fn decode_color_spec(v: Option<Value>) -> StrokeColor {
    match v {
        Some(Value::Doc(cf)) => {
            if doc_lookup(cf@, "palette"@) is Some {
                StrokeColor::Palette(
                    as_u64(doc_lookup(cf@, "palette"@)),
                    as_u32_field(doc_lookup(cf@, "entry"@)),
                )
            } else {
                StrokeColor::Inline(as_u32_field(doc_lookup(cf@, "inline"@)))
            }
        },
        _ => StrokeColor::Inline(0u32),
    }
}

fn encode_color(c: StrokeColor) -> (r: Value)
    ensures
        decode_color_spec(Some(r)) == c,
{
    let mut fields: Vec<(String, Value)> = Vec::new();
    match c {
        StrokeColor::Inline(x) => {
            fields.push((String::from_str("inline"), Value::U64(x as u64)));
            proof {
                reveal_strlit("inline");
                reveal_strlit("palette");
                assert(fields@.len() == 1);
                assert(fields@.first().0@ == "inline"@);
                assert(fields@.drop_first() =~= Seq::<(String, Value)>::empty());
                assert(doc_lookup(fields@.drop_first(), "palette"@) is None);
                assert("inline"@.len() != "palette"@.len());
                assert(doc_lookup(fields@, "palette"@) is None);
                assert(doc_lookup(fields@, "inline"@) == Some(fields@.first().1));
            }
        },
        StrokeColor::Palette(p, e) => {
            fields.push((String::from_str("palette"), Value::U64(p)));
            fields.push((String::from_str("entry"), Value::U64(e as u64)));
            proof {
                reveal_strlit("inline");
                reveal_strlit("palette");
                reveal_strlit("entry");
                assert(fields@.len() == 2);
                assert(fields@.first().0@ == "palette"@);
                assert(fields@.drop_first().first() == fields@[1]);
                assert(fields@[1].0@ == "entry"@);
                assert(fields@.drop_first().drop_first() =~= Seq::<(String, Value)>::empty());
                assert("palette"@.len() != "entry"@.len());
                assert(doc_lookup(fields@, "palette"@) == Some(fields@.first().1));
                assert(doc_lookup(fields@.drop_first(), "entry"@) == Some(fields@[1].1));
                assert(doc_lookup(fields@, "entry"@) == Some(fields@[1].1));
            }
        },
    }
    Value::Doc(fields)
}

fn decode_color(v: Option<&Value>) -> (r: StrokeColor)
    ensures
        r == decode_color_spec(match v {
            Some(x) => Some(*x),
            None => None,
        }),
{
    match v {
        Some(Value::Doc(cf)) => {
            let pal = String::from_str("palette");
            match doc_get(cf, &pal) {
                Some(_) => {
                    let p = field_u64(cf, &pal);
                    let e = field_u32(cf, &String::from_str("entry"));
                    StrokeColor::Palette(p, e)
                },
                None => StrokeColor::Inline(field_u32(cf, &String::from_str("inline"))),
            }
        },
        _ => StrokeColor::Inline(0),
    }
}

/// Whether `v` is the encoding of stroke subtree `t`.
pub open spec fn stroke_encoded(v: Value, t: StrokeTree) -> bool {
    match v {
        Value::Doc(fields) => {
            &&& as_u64(doc_lookup(fields@, "key"@)) == t.key
            &&& decode_color_spec(doc_lookup(fields@, "color"@)) == t.color
            &&& as_u32_field(doc_lookup(fields@, "r"@)) == t.r
            &&& as_bool(doc_lookup(fields@, "filled"@)) == t.filled
            &&& match doc_lookup(fields@, "points"@) {
                Some(Value::List(items)) => items@.len() == t.points@.len() && forall|i: int|
                    0 <= i < items@.len() ==> decode_point_spec(#[trigger] items@[i])
                        == t.points@[i],
                _ => false,
            }
        },
        _ => false,
    }
}

/// Encodes a stroke subtree; parent context is not stored.
pub fn encode_stroke(t: &StrokeTree) -> (r: Value)
    ensures
        stroke_encoded(r, *t),
{
    let mut points: Vec<Value> = Vec::new();
    let mut i: usize = 0;
    while i < t.points.len()
        invariant
            0 <= i <= t.points@.len(),
            points@.len() == i,
            forall|j: int|
                0 <= j < i ==> decode_point_spec(#[trigger] points@[j]) == t.points@[j],
        decreases t.points@.len() - i,
    {
        points.push(encode_point(t.points[i]));
        i = i + 1;
    }
    let colorv = encode_color(t.color);
    let mut fields: Vec<(String, Value)> = Vec::new();
    fields.push((String::from_str("key"), Value::U64(t.key)));
    fields.push((String::from_str("color"), colorv));
    fields.push((String::from_str("r"), Value::U64(t.r as u64)));
    fields.push((String::from_str("filled"), Value::Bool(t.filled)));
    fields.push((String::from_str("points"), Value::List(points)));
    proof {
        reveal_strlit("key");
        reveal_strlit("color");
        reveal_strlit("r");
        reveal_strlit("filled");
        reveal_strlit("points");
        assert(fields@.len() == 5);
        assert(fields@[0].0@ == "key"@);
        assert(fields@[1].0@ == "color"@);
        assert(fields@[2].0@ == "r"@);
        assert(fields@[3].0@ == "filled"@);
        assert(fields@[4].0@ == "points"@);
        assert("key"@ != "color"@ && "key"@ != "r"@ && "key"@ != "filled"@ && "key"@
            != "points"@);
        assert("color"@ != "r"@ && "color"@ != "filled"@ && "color"@ != "points"@);
        assert("r"@ != "filled"@ && "r"@ != "points"@);
        assert("filled"@ != "points"@) by {
            assert("filled"@[0] == 'f');
            assert("points"@[0] == 'p');
        }
        assert forall|p: int, q: int|
            0 <= p < q < fields@.len() implies (#[trigger] fields@[p]).0@ != (
        #[trigger] fields@[q]).0@ by {}
        lemma_lookup_hit(fields@, 0);
        lemma_lookup_hit(fields@, 1);
        lemma_lookup_hit(fields@, 2);
        lemma_lookup_hit(fields@, 3);
        lemma_lookup_hit(fields@, 4);
    }
    Value::Doc(fields)
}

proof fn lemma_lookup_hit(fields: Seq<(String, Value)>, k: int)
    requires
        0 <= k < fields.len(),
        forall|p: int, q: int|
            0 <= p < q < fields.len() ==> (#[trigger] fields[p]).0@ != (#[trigger] fields[q]).0@,
    ensures
        doc_lookup(fields, fields[k].0@) == Some(fields[k].1),
    decreases k,
{
    if k == 0 {
    } else {
        assert(fields.first().0@ != fields[k].0@);
        assert forall|p: int, q: int|
            0 <= p < q < fields.drop_first().len() implies (#[trigger] fields.drop_first()[p]).0@
            != (#[trigger] fields.drop_first()[q]).0@ by {
            assert(fields.drop_first()[p] == fields[p + 1]);
            assert(fields.drop_first()[q] == fields[q + 1]);
        }
        assert(fields.drop_first()[k - 1] == fields[k]);
        lemma_lookup_hit(fields.drop_first(), k - 1);
    }
}

/// Decodes a stroke subtree, defaulting missing or damaged fields; for any
/// subtree the value encodes, the result is observably equal to it — the
/// round-trip law at the stroke level.
pub fn decode_stroke(v: &Value) -> (r: StrokeTree)
    ensures
        forall|t0: StrokeTree| stroke_encoded(*v, t0) ==> stroke_tree_eqv(r, t0),
        *v is Doc ==> {
            let fields = v->Doc_0@;
            &&& r.key == as_u64(doc_lookup(fields, "key"@))
            &&& r.color == decode_color_spec(doc_lookup(fields, "color"@))
            &&& r.r == as_u32_field(doc_lookup(fields, "r"@))
            &&& r.filled == as_bool(doc_lookup(fields, "filled"@))
            &&& r.points@.len() == list_len_of(doc_lookup(fields, "points"@))
            &&& match doc_lookup(fields, "points"@) {
                Some(Value::List(items)) => forall|j: int|
                    0 <= j < items@.len() ==> r.points@[j] == decode_point_spec(
                        #[trigger] items@[j],
                    ),
                _ => true,
            }
        },
        !(*v is Doc) ==> r.key == 0 && r.points@.len() == 0,
{
    match v {
        Value::Doc(fields) => {
            let key = field_u64(fields, &String::from_str("key"));
            let color = decode_color(doc_get(fields, &String::from_str("color")));
            let rr = field_u32(fields, &String::from_str("r"));
            let filled = field_bool(fields, &String::from_str("filled"));
            let mut points: Vec<StrokePoint> = Vec::new();
            let got = doc_get(fields, &String::from_str("points"));
            match got {
                Some(Value::List(items)) => {
                    proof {
                        assert(doc_lookup(fields@, "points"@) == Some(Value::List(*items)));
                    }
                    let mut i: usize = 0;
                    while i < items.len()
                        invariant
                            0 <= i <= items@.len(),
                            points@.len() == i,
                            forall|j: int|
                                0 <= j < i ==> points@[j] == decode_point_spec(
                                    #[trigger] items@[j],
                                ),
                        decreases items@.len() - i,
                    {
                        points.push(decode_point(&items[i]));
                        i = i + 1;
                    }
                    let res = StrokeTree { key, color, r: rr, filled, points };
                    proof {
                        assert forall|t0: StrokeTree| stroke_encoded(*v, t0) implies
                            stroke_tree_eqv(res, t0) by {
                            assert forall|i: int|
                                0 <= i < res.points@.len() implies res.points@[i]
                                == t0.points@[i] by {
                                assert(decode_point_spec(items@[i]) == t0.points@[i]);
                            }
                            assert(res.points@ =~= t0.points@);
                        }
                    }
                    res
                },
                _ => {
                    let res = StrokeTree { key, color, r: rr, filled, points };
                    proof {
                        assert forall|t0: StrokeTree| stroke_encoded(*v, t0) implies
                            stroke_tree_eqv(res, t0) by {}
                    }
                    res
                },
            }
        },
        _ => StrokeTree {
            key: 0,
            color: StrokeColor::Inline(0),
            r: 0,
            filled: false,
            points: Vec::new(),
        },
    }
}

/// Whether `v` is the encoding of frame subtree `t`.
pub open spec fn frame_encoded(v: Value, t: FrameTree) -> bool {
    match v {
        Value::Doc(fields) => {
            &&& as_u64(doc_lookup(fields@, "key"@)) == t.key
            &&& as_i32(doc_lookup(fields@, "time"@)) == t.time
            &&& match doc_lookup(fields@, "strokes"@) {
                Some(Value::List(items)) => items@.len() == t.strokes@.len() && forall|i: int|
                    0 <= i < items@.len() ==> stroke_encoded(
                        #[trigger] items@[i],
                        t.strokes@[i],
                    ),
                _ => false,
            }
        },
        _ => false,
    }
}

/// Encodes a frame subtree with its strokes.
pub fn encode_frame(t: &FrameTree) -> (r: Value)
    ensures
        frame_encoded(r, *t),
{
    let mut strokes: Vec<Value> = Vec::new();
    let mut i: usize = 0;
    while i < t.strokes.len()
        invariant
            0 <= i <= t.strokes@.len(),
            strokes@.len() == i,
            forall|j: int|
                0 <= j < i ==> stroke_encoded(#[trigger] strokes@[j], t.strokes@[j]),
        decreases t.strokes@.len() - i,
    {
        strokes.push(encode_stroke(&t.strokes[i]));
        i = i + 1;
    }
    let mut fields: Vec<(String, Value)> = Vec::new();
    fields.push((String::from_str("key"), Value::U64(t.key)));
    fields.push((String::from_str("time"), Value::I64(t.time as i64)));
    fields.push((String::from_str("strokes"), Value::List(strokes)));
    proof {
        reveal_strlit("key");
        reveal_strlit("time");
        reveal_strlit("strokes");
        assert(fields@.len() == 3);
        assert(fields@[0].0@ == "key"@);
        assert(fields@[1].0@ == "time"@);
        assert(fields@[2].0@ == "strokes"@);
        assert("key"@ != "time"@ && "key"@ != "strokes"@ && "time"@ != "strokes"@);
        assert forall|p: int, q: int|
            0 <= p < q < fields@.len() implies (#[trigger] fields@[p]).0@ != (
        #[trigger] fields@[q]).0@ by {}
        lemma_lookup_hit(fields@, 0);
        lemma_lookup_hit(fields@, 1);
        lemma_lookup_hit(fields@, 2);
    }
    Value::Doc(fields)
}

/// Decodes a frame subtree; the round-trip law at the frame level.
pub fn decode_frame(v: &Value) -> (r: FrameTree)
    ensures
        forall|t0: FrameTree| frame_encoded(*v, t0) ==> frame_tree_eqv(r, t0),
        *v is Doc ==> {
            let fields = v->Doc_0@;
            &&& r.key == as_u64(doc_lookup(fields, "key"@))
            &&& r.time == as_i32(doc_lookup(fields, "time"@))
            &&& r.strokes@.len() == list_len_of(doc_lookup(fields, "strokes"@))
        },
        !(*v is Doc) ==> r.key == 0 && r.time == 0 && r.strokes@.len() == 0,
{
    match v {
        Value::Doc(fields) => {
            let key = field_u64(fields, &String::from_str("key"));
            let time = field_i32(fields, &String::from_str("time"));
            let mut strokes: Vec<StrokeTree> = Vec::new();
            let got = doc_get(fields, &String::from_str("strokes"));
            match got {
                Some(Value::List(items)) => {
                    proof {
                        assert(doc_lookup(fields@, "strokes"@) == Some(Value::List(*items)));
                    }
                    let mut i: usize = 0;
                    while i < items.len()
                        invariant
                            0 <= i <= items@.len(),
                            strokes@.len() == i,
                            forall|j: int, st: StrokeTree|
                                0 <= j < i && #[trigger] stroke_encoded(items@[j], st)
                                    ==> stroke_tree_eqv(strokes@[j], st),
                        decreases items@.len() - i,
                    {
                        strokes.push(decode_stroke(&items[i]));
                        i = i + 1;
                    }
                    let res = FrameTree { key, time, strokes };
                    proof {
                        assert forall|t0: FrameTree| frame_encoded(*v, t0) implies
                            frame_tree_eqv(res, t0) by {
                            assert forall|j: int| 0 <= j < res.strokes@.len() implies
                                stroke_tree_eqv(#[trigger] res.strokes@[j], t0.strokes@[j]) by {
                                assert(stroke_encoded(items@[j], t0.strokes@[j]));
                            }
                        }
                    }
                    res
                },
                _ => {
                    let res = FrameTree { key, time, strokes };
                    proof {
                        assert forall|t0: FrameTree| frame_encoded(*v, t0) implies
                            frame_tree_eqv(res, t0) by {}
                    }
                    res
                },
            }
        },
        _ => FrameTree { key: 0, time: 0, strokes: Vec::new() },
    }
}

/// The stored code of a layer kind.
pub open spec fn kind_code(k: LayerKind) -> u64 {
    match k {
        LayerKind::Animation => 0u64,
        LayerKind::Audio => 1u64,
        LayerKind::Group => 2u64,
    }
}

pub open spec fn code_kind(c: u64) -> LayerKind {
    if c == 1u64 {
        LayerKind::Audio
    } else if c == 2u64 {
        LayerKind::Group
    } else {
        LayerKind::Animation
    }
}

/// Whether `v` is the encoding of layer subtree `t`.
pub open spec fn layer_encoded(v: Value, t: LayerTree) -> bool
    decreases t,
{
    match v {
        Value::Doc(fields) => {
            &&& as_u64(doc_lookup(fields@, "key"@)) == t.key
            &&& match doc_lookup(fields@, "name"@) {
                Some(Value::Str(s)) => s@ == t.name@,
                _ => false,
            }
            &&& as_bool(doc_lookup(fields@, "show"@)) == t.show
            &&& code_kind(as_u64(doc_lookup(fields@, "kind"@))) == t.kind
            &&& match doc_lookup(fields@, "frames"@) {
                Some(Value::List(items)) => items@.len() == t.frames@.len() && forall|i: int|
                    0 <= i < items@.len() ==> frame_encoded(#[trigger] items@[i], t.frames@[i]),
                _ => false,
            }
            &&& match doc_lookup(fields@, "layers"@) {
                Some(Value::List(items)) => items@.len() == t.layers@.len() && forall|i: int|
                    0 <= i < items@.len() ==> layer_encoded(#[trigger] items@[i], t.layers@[i]),
                _ => false,
            }
        },
        _ => false,
    }
}

/// Encodes a layer subtree with its frames and sub-layers.
pub fn encode_layer(t: &LayerTree) -> (r: Value)
    ensures
        layer_encoded(r, *t),
    decreases *t,
{
    let mut frames: Vec<Value> = Vec::new();
    let mut i: usize = 0;
    while i < t.frames.len()
        invariant
            0 <= i <= t.frames@.len(),
            frames@.len() == i,
            forall|j: int| 0 <= j < i ==> frame_encoded(#[trigger] frames@[j], t.frames@[j]),
        decreases t.frames@.len() - i,
    {
        frames.push(encode_frame(&t.frames[i]));
        i = i + 1;
    }
    let mut layers: Vec<Value> = Vec::new();
    let mut i: usize = 0;
    while i < t.layers.len()
        invariant
            0 <= i <= t.layers@.len(),
            layers@.len() == i,
            forall|j: int| 0 <= j < i ==> layer_encoded(#[trigger] layers@[j], t.layers@[j]),
        decreases t.layers@.len() - i,
    {
        layers.push(encode_layer(&t.layers[i]));
        i = i + 1;
    }
    let kindv = match t.kind {
        LayerKind::Animation => 0u64,
        LayerKind::Audio => 1u64,
        LayerKind::Group => 2u64,
    };
    let mut fields: Vec<(String, Value)> = Vec::new();
    fields.push((String::from_str("key"), Value::U64(t.key)));
    fields.push((String::from_str("name"), Value::Str(t.name.clone())));
    fields.push((String::from_str("show"), Value::Bool(t.show)));
    fields.push((String::from_str("kind"), Value::U64(kindv)));
    fields.push((String::from_str("frames"), Value::List(frames)));
    fields.push((String::from_str("layers"), Value::List(layers)));
    proof {
        reveal_strlit("key");
        reveal_strlit("name");
        reveal_strlit("show");
        reveal_strlit("kind");
        reveal_strlit("frames");
        reveal_strlit("layers");
        assert(fields@.len() == 6);
        assert(fields@[0].0@ == "key"@);
        assert(fields@[1].0@ == "name"@);
        assert(fields@[2].0@ == "show"@);
        assert(fields@[3].0@ == "kind"@);
        assert(fields@[4].0@ == "frames"@);
        assert(fields@[5].0@ == "layers"@);
        assert("key"@ != "name"@ && "key"@ != "show"@ && "key"@ != "kind"@ && "key"@
            != "frames"@ && "key"@ != "layers"@);
        assert("name"@ != "show"@ && "name"@ != "kind"@ && "name"@ != "frames"@ && "name"@
            != "layers"@) by {
            assert("name"@[0] == 'n');
            assert("show"@[0] == 's');
            assert("kind"@[0] == 'k');
        }
        assert("show"@ != "kind"@ && "show"@ != "frames"@ && "show"@ != "layers"@) by {
            assert("show"@[0] == 's');
            assert("kind"@[0] == 'k');
        }
        assert("kind"@ != "frames"@ && "kind"@ != "layers"@);
        assert("frames"@ != "layers"@) by {
            assert("frames"@[0] == 'f');
            assert("layers"@[0] == 'l');
        }
        assert forall|p: int, q: int|
            0 <= p < q < fields@.len() implies (#[trigger] fields@[p]).0@ != (
        #[trigger] fields@[q]).0@ by {}
        lemma_lookup_hit(fields@, 0);
        lemma_lookup_hit(fields@, 1);
        lemma_lookup_hit(fields@, 2);
        lemma_lookup_hit(fields@, 3);
        lemma_lookup_hit(fields@, 4);
        lemma_lookup_hit(fields@, 5);
    }
    Value::Doc(fields)
}

/// Decodes a layer subtree; the round-trip law at the layer level.
pub fn decode_layer(v: &Value) -> (r: LayerTree)
    ensures
        forall|t0: LayerTree| layer_encoded(*v, t0) ==> layer_tree_eqv(r, t0),
        *v is Doc ==> {
            let fields = v->Doc_0@;
            &&& r.key == as_u64(doc_lookup(fields, "key"@))
            &&& r.name@ == as_str_field(doc_lookup(fields, "name"@))
            &&& r.show == as_bool(doc_lookup(fields, "show"@))
            &&& r.kind == code_kind(as_u64(doc_lookup(fields, "kind"@)))
            &&& r.frames@.len() == list_len_of(doc_lookup(fields, "frames"@))
            &&& r.layers@.len() == list_len_of(doc_lookup(fields, "layers"@))
        },
        !(*v is Doc) ==> r.key == 0 && r.name@ == Seq::<char>::empty() && r.frames@.len() == 0
            && r.layers@.len() == 0,
    decreases *v,
{
    match v {
        Value::Doc(fields) => {
            let key = field_u64(fields, &String::from_str("key"));
            let name = field_string(fields, &String::from_str("name"));
            let show = field_bool(fields, &String::from_str("show"));
            let kc = field_u64(fields, &String::from_str("kind"));
            let kind = if kc == 1 {
                LayerKind::Audio
            } else if kc == 2 {
                LayerKind::Group
            } else {
                LayerKind::Animation
            };
            let mut frames: Vec<FrameTree> = Vec::new();
            let gotf = doc_get(fields, &String::from_str("frames"));
            match gotf {
                Some(Value::List(items)) => {
                    proof {
                        assert(doc_lookup(fields@, "frames"@) == Some(Value::List(*items)));
                    }
                    let mut i: usize = 0;
                    while i < items.len()
                        invariant
                            0 <= i <= items@.len(),
                            frames@.len() == i,
                            forall|j: int, ft: FrameTree|
                                0 <= j < i && #[trigger] frame_encoded(items@[j], ft)
                                    ==> frame_tree_eqv(frames@[j], ft),
                        decreases items@.len() - i,
                    {
                        frames.push(decode_frame(&items[i]));
                        i = i + 1;
                    }
                },
                _ => {},
            }
            let mut layers: Vec<LayerTree> = Vec::new();
            let gotl = doc_get_index(fields, &String::from_str("layers"));
            match gotl {
                Some(k) => {
                    match &fields[k].1 {
                        Value::List(items) => {
                            proof {
                                assert(doc_lookup(fields@, "layers"@) == Some(
                                    Value::List(*items),
                                ));
                            }
                            let mut i: usize = 0;
                            while i < items.len()
                                invariant
                                    *v == Value::Doc(*fields),
                                    0 <= i <= items@.len(),
                                    k < fields@.len(),
                                    fields@[k as int].1 == Value::List(*items),
                                    layers@.len() == i,
                                    forall|j: int, lt: LayerTree|
                                        0 <= j < i && #[trigger] layer_encoded(items@[j], lt)
                                            ==> layer_tree_eqv(layers@[j], lt),
                                decreases items@.len() - i,
                            {
                                proof {
                                    broadcast use vstd::std_specs::vec::axiom_vec_index_decreases;
                                    broadcast use vstd::seq::axiom_seq_index_decreases;

                                    let fv = v->Doc_0;
                                    assert(*v == Value::Doc(fv));
                                    assert(decreases_to!(*v => fv));
                                    assert(decreases_to!(fv => fv[k as int]));
                                    assert(decreases_to!(fv[k as int] => fv[k as int].1));
                                    let lv = fv@[k as int].1->List_0;
                                    assert(fv@[k as int].1 == Value::List(lv));
                                    assert(decreases_to!(fv[k as int].1 => lv));
                                    assert(decreases_to!(lv => lv[i as int]));
                                    assert(lv@[i as int] == items@[i as int]);
                                    assert(decreases_to!(*v => items@[i as int]));
                                }
                                layers.push(decode_layer(&items[i]));
                                i = i + 1;
                            }
                        },
                        _ => {},
                    }
                },
                _ => {},
            }
            let res = LayerTree { key, name, show, kind, frames, layers };
            proof {
                assert forall|t0: LayerTree| layer_encoded(*v, t0) implies layer_tree_eqv(
                    res,
                    t0,
                ) by {
                    assert forall|j: int| 0 <= j < res.frames@.len() implies frame_tree_eqv(
                        #[trigger] res.frames@[j],
                        t0.frames@[j],
                    ) by {
                        let fitems = doc_lookup(fields@, "frames"@)->Some_0->List_0;
                        assert(frame_encoded(fitems@[j], t0.frames@[j]));
                    }
                    assert forall|j: int| 0 <= j < res.layers@.len() implies layer_tree_eqv(
                        #[trigger] res.layers@[j],
                        t0.layers@[j],
                    ) by {
                        let litems = doc_lookup(fields@, "layers"@)->Some_0->List_0;
                        assert(layer_encoded(litems@[j], t0.layers@[j]));
                    }
                }
            }
            res
        },
        _ => LayerTree {
            key: 0,
            name: String::new(),
            show: false,
            kind: LayerKind::Animation,
            frames: Vec::new(),
            layers: Vec::new(),
        },
    }
}

/// Whether `v` is the encoding of graphic tree `t`.
pub open spec fn graphic_encoded(v: Value, t: GraphicTree) -> bool {
    match v {
        Value::Doc(fields) => {
            &&& as_u64(doc_lookup(fields@, "key"@)) == t.key
            &&& match doc_lookup(fields@, "name"@) {
                Some(Value::Str(s)) => s@ == t.name@,
                _ => false,
            }
            &&& as_u32_field(doc_lookup(fields@, "len"@)) == t.len
            &&& as_bool(doc_lookup(fields@, "clip"@)) == t.clip
            &&& as_u32_field(doc_lookup(fields@, "w"@)) == t.w
            &&& as_u32_field(doc_lookup(fields@, "h"@)) == t.h
            &&& match doc_lookup(fields@, "layers"@) {
                Some(Value::List(items)) => items@.len() == t.layers@.len() && forall|i: int|
                    0 <= i < items@.len() ==> layer_encoded(#[trigger] items@[i], t.layers@[i]),
                _ => false,
            }
        },
        _ => false,
    }
}

/// Encodes a graphic tree: the full content of one graphic asset file.
pub fn encode_graphic(t: &GraphicTree) -> (r: Value)
    ensures
        graphic_encoded(r, *t),
{
    let mut layers: Vec<Value> = Vec::new();
    let mut i: usize = 0;
    while i < t.layers.len()
        invariant
            0 <= i <= t.layers@.len(),
            layers@.len() == i,
            forall|j: int| 0 <= j < i ==> layer_encoded(#[trigger] layers@[j], t.layers@[j]),
        decreases t.layers@.len() - i,
    {
        layers.push(encode_layer(&t.layers[i]));
        i = i + 1;
    }
    let mut fields: Vec<(String, Value)> = Vec::new();
    fields.push((String::from_str("key"), Value::U64(t.key)));
    fields.push((String::from_str("name"), Value::Str(t.name.clone())));
    fields.push((String::from_str("len"), Value::U64(t.len as u64)));
    fields.push((String::from_str("clip"), Value::Bool(t.clip)));
    fields.push((String::from_str("w"), Value::U64(t.w as u64)));
    fields.push((String::from_str("h"), Value::U64(t.h as u64)));
    fields.push((String::from_str("layers"), Value::List(layers)));
    proof {
        reveal_strlit("key");
        reveal_strlit("name");
        reveal_strlit("len");
        reveal_strlit("clip");
        reveal_strlit("w");
        reveal_strlit("h");
        reveal_strlit("layers");
        assert(fields@.len() == 7);
        assert(fields@[0].0@ == "key"@);
        assert(fields@[1].0@ == "name"@);
        assert(fields@[2].0@ == "len"@);
        assert(fields@[3].0@ == "clip"@);
        assert(fields@[4].0@ == "w"@);
        assert(fields@[5].0@ == "h"@);
        assert(fields@[6].0@ == "layers"@);
        assert("key"@ != "name"@ && "key"@ != "len"@ && "key"@ != "clip"@ && "key"@ != "w"@
            && "key"@ != "h"@ && "key"@ != "layers"@) by {
            assert("key"@[0] == 'k');
            assert("len"@[0] == 'l');
        }
        assert("name"@ != "len"@ && "name"@ != "clip"@ && "name"@ != "w"@ && "name"@ != "h"@
            && "name"@ != "layers"@) by {
            assert("name"@[0] == 'n');
            assert("clip"@[0] == 'c');
        }
        assert("len"@ != "clip"@ && "len"@ != "w"@ && "len"@ != "h"@ && "len"@ != "layers"@);
        assert("clip"@ != "w"@ && "clip"@ != "h"@ && "clip"@ != "layers"@);
        assert("w"@ != "h"@ && "w"@ != "layers"@) by {
            assert("w"@[0] == 'w');
            assert("h"@[0] == 'h');
        }
        assert("h"@ != "layers"@);
        assert forall|p: int, q: int|
            0 <= p < q < fields@.len() implies (#[trigger] fields@[p]).0@ != (
        #[trigger] fields@[q]).0@ by {}
        lemma_lookup_hit(fields@, 0);
        lemma_lookup_hit(fields@, 1);
        lemma_lookup_hit(fields@, 2);
        lemma_lookup_hit(fields@, 3);
        lemma_lookup_hit(fields@, 4);
        lemma_lookup_hit(fields@, 5);
        lemma_lookup_hit(fields@, 6);
    }
    Value::Doc(fields)
}

/// Decodes a graphic tree; the round-trip law for graphic asset files:
/// decoding any encoding of a tree yields an observably equal tree.
pub fn decode_graphic(v: &Value) -> (r: GraphicTree)
    ensures
        forall|t0: GraphicTree| graphic_encoded(*v, t0) ==> graphic_tree_eqv(r, t0),
        *v is Doc ==> {
            let fields = v->Doc_0@;
            &&& r.key == as_u64(doc_lookup(fields, "key"@))
            &&& r.name@ == as_str_field(doc_lookup(fields, "name"@))
            &&& r.len == as_u32_field(doc_lookup(fields, "len"@))
            &&& r.clip == as_bool(doc_lookup(fields, "clip"@))
            &&& r.w == as_u32_field(doc_lookup(fields, "w"@))
            &&& r.h == as_u32_field(doc_lookup(fields, "h"@))
            &&& r.layers@.len() == list_len_of(doc_lookup(fields, "layers"@))
        },
        !(*v is Doc) ==> r.key == 0 && r.name@ == Seq::<char>::empty() && r.layers@.len() == 0,
{
    match v {
        Value::Doc(fields) => {
            let key = field_u64(fields, &String::from_str("key"));
            let name = field_string(fields, &String::from_str("name"));
            let len = field_u32(fields, &String::from_str("len"));
            let clip = field_bool(fields, &String::from_str("clip"));
            let w = field_u32(fields, &String::from_str("w"));
            let h = field_u32(fields, &String::from_str("h"));
            let mut layers: Vec<LayerTree> = Vec::new();
            let gotl = doc_get(fields, &String::from_str("layers"));
            match gotl {
                Some(Value::List(items)) => {
                    proof {
                        assert(doc_lookup(fields@, "layers"@) == Some(Value::List(*items)));
                    }
                    let mut i: usize = 0;
                    while i < items.len()
                        invariant
                            0 <= i <= items@.len(),
                            layers@.len() == i,
                            forall|j: int, lt: LayerTree|
                                0 <= j < i && #[trigger] layer_encoded(items@[j], lt)
                                    ==> layer_tree_eqv(layers@[j], lt),
                        decreases items@.len() - i,
                    {
                        layers.push(decode_layer(&items[i]));
                        i = i + 1;
                    }
                },
                _ => {},
            }
            let res = GraphicTree { key, name, len, clip, w, h, layers };
            proof {
                assert forall|t0: GraphicTree| graphic_encoded(*v, t0) implies graphic_tree_eqv(
                    res,
                    t0,
                ) by {
                    assert forall|j: int| 0 <= j < res.layers@.len() implies layer_tree_eqv(
                        #[trigger] res.layers@[j],
                        t0.layers@[j],
                    ) by {
                        let litems = doc_lookup(fields@, "layers"@)->Some_0->List_0;
                        assert(layer_encoded(litems@[j], t0.layers@[j]));
                    }
                }
            }
            res
        },
        _ => GraphicTree {
            key: 0,
            name: String::new(),
            len: 0,
            clip: false,
            w: 0,
            h: 0,
            layers: Vec::new(),
        },
    }
}

/// Whether `v` is the encoding of palette tree `t`.
pub open spec fn palette_encoded(v: Value, t: PaletteTree) -> bool {
    match v {
        Value::Doc(fields) => {
            &&& as_u64(doc_lookup(fields@, "key"@)) == t.key
            &&& match doc_lookup(fields@, "name"@) {
                Some(Value::Str(s)) => s@ == t.name@,
                _ => false,
            }
            &&& match doc_lookup(fields@, "colors"@) {
                Some(Value::List(items)) => items@.len() == t.colors@.len() && forall|i: int|
                    0 <= i < items@.len() ==> as_u32(#[trigger] items@[i]) == t.colors@[i],
                _ => false,
            }
        },
        _ => false,
    }
}

/// Encodes a palette tree: the full content of one palette asset file.
pub fn encode_palette(t: &PaletteTree) -> (r: Value)
    ensures
        palette_encoded(r, *t),
{
    let mut colors: Vec<Value> = Vec::new();
    let mut i: usize = 0;
    while i < t.colors.len()
        invariant
            0 <= i <= t.colors@.len(),
            colors@.len() == i,
            forall|j: int| 0 <= j < i ==> as_u32(#[trigger] colors@[j]) == t.colors@[j],
        decreases t.colors@.len() - i,
    {
        colors.push(Value::U64(t.colors[i] as u64));
        i = i + 1;
    }
    let mut fields: Vec<(String, Value)> = Vec::new();
    fields.push((String::from_str("key"), Value::U64(t.key)));
    fields.push((String::from_str("name"), Value::Str(t.name.clone())));
    fields.push((String::from_str("colors"), Value::List(colors)));
    proof {
        reveal_strlit("key");
        reveal_strlit("name");
        reveal_strlit("colors");
        assert(fields@.len() == 3);
        assert(fields@[0].0@ == "key"@);
        assert(fields@[1].0@ == "name"@);
        assert(fields@[2].0@ == "colors"@);
        assert("key"@ != "name"@ && "key"@ != "colors"@ && "name"@ != "colors"@ ) by {
            assert("name"@[0] == 'n');
            assert("colors"@[0] == 'c');
        }
        assert forall|p: int, q: int|
            0 <= p < q < fields@.len() implies (#[trigger] fields@[p]).0@ != (
        #[trigger] fields@[q]).0@ by {}
        lemma_lookup_hit(fields@, 0);
        lemma_lookup_hit(fields@, 1);
        lemma_lookup_hit(fields@, 2);
    }
    Value::Doc(fields)
}

/// Decodes a palette tree; the round-trip law for palette asset files.
pub fn decode_palette(v: &Value) -> (r: PaletteTree)
    ensures
        forall|t0: PaletteTree| palette_encoded(*v, t0) ==> palette_tree_eqv(r, t0),
        *v is Doc ==> {
            let fields = v->Doc_0@;
            &&& r.key == as_u64(doc_lookup(fields, "key"@))
            &&& r.name@ == as_str_field(doc_lookup(fields, "name"@))
            &&& r.colors@.len() == list_len_of(doc_lookup(fields, "colors"@))
            &&& match doc_lookup(fields, "colors"@) {
                Some(Value::List(items)) => forall|j: int|
                    0 <= j < items@.len() ==> r.colors@[j] == as_u32(#[trigger] items@[j]),
                _ => true,
            }
        },
        !(*v is Doc) ==> r.key == 0 && r.name@ == Seq::<char>::empty() && r.colors@.len() == 0,
{
    match v {
        Value::Doc(fields) => {
            let key = field_u64(fields, &String::from_str("key"));
            let name = field_string(fields, &String::from_str("name"));
            let mut colors: Vec<u32> = Vec::new();
            let got = doc_get(fields, &String::from_str("colors"));
            match got {
                Some(Value::List(items)) => {
                    proof {
                        assert(doc_lookup(fields@, "colors"@) == Some(Value::List(*items)));
                    }
                    let mut i: usize = 0;
                    while i < items.len()
                        invariant
                            0 <= i <= items@.len(),
                            colors@.len() == i,
                            forall|j: int| 0 <= j < i ==> colors@[j] == as_u32(
                                #[trigger] items@[j],
                            ),
                        decreases items@.len() - i,
                    {
                        colors.push(value_as_u32(&items[i]));
                        i = i + 1;
                    }
                },
                _ => {},
            }
            let res = PaletteTree { key, name, colors };
            proof {
                assert forall|t0: PaletteTree| palette_encoded(*v, t0) implies palette_tree_eqv(
                    res,
                    t0,
                ) by {
                    let citems = doc_lookup(fields@, "colors"@)->Some_0->List_0;
                    assert forall|i: int|
                        0 <= i < res.colors@.len() implies res.colors@[i] == t0.colors@[i] by {
                        assert(as_u32(citems@[i]) == t0.colors@[i]);
                    }
                    assert(res.colors@ =~= t0.colors@);
                }
            }
            res
        },
        _ => PaletteTree { key: 0, name: String::new(), colors: Vec::new() },
    }
}

} // verus!
