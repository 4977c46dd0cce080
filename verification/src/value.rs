//! The data model that the diff and apply engines traverse.
//!
//! A diffable value is a finite tree: leaves are scalars, and the inner
//! nodes are the aggregate shapes the engines know how to walk.  Records
//! carry one entry per field together with the field's diff mode; tagged
//! unions carry the active variant's name and payload; optionals are held
//! as sequences of length at most one, since the diff rules treat them as
//! such.  Host-language values are converted into this tree at the edge.

use vstd::prelude::*;

verus! {

/// A terminal (scalar) value: diffed by comparison, replaced wholesale.
///
/// Floating-point leaves are carried as their bit patterns and compared
/// bitwise; times, addresses and similar opaque scalars are carried as
/// strings or byte strings by the conversion at the edge.
#[derive(Clone, Debug)]
pub enum Leaf {
    Bool(bool),
    U64(u64),
    I64(i64),
    U128(u128),
    I128(i128),
    F32Bits(u32),
    F64Bits(u64),
    Char(char),
    Str(String),
    Bytes(Vec<u8>),
    Unit,
}

/// Mathematical model of a [`Leaf`].
#[verifier::ext_equal]
pub enum LeafV {
    Bool(bool),
    U64(u64),
    I64(i64),
    U128(u128),
    I128(i128),
    F32Bits(u32),
    F64Bits(u64),
    Char(char),
    Str(Seq<char>),
    Bytes(Seq<u8>),
    Unit,
}

impl View for Leaf {
    type V = LeafV;

    open spec fn view(&self) -> LeafV {
        match self {
            Leaf::Bool(x) => LeafV::Bool(*x),
            Leaf::U64(x) => LeafV::U64(*x),
            Leaf::I64(x) => LeafV::I64(*x),
            Leaf::U128(x) => LeafV::U128(*x),
            Leaf::I128(x) => LeafV::I128(*x),
            Leaf::F32Bits(x) => LeafV::F32Bits(*x),
            Leaf::F64Bits(x) => LeafV::F64Bits(*x),
            Leaf::Char(x) => LeafV::Char(*x),
            Leaf::Str(s) => LeafV::Str(s@),
            Leaf::Bytes(b) => LeafV::Bytes(b@),
            Leaf::Unit => LeafV::Unit,
        }
    }
}

/// How a record-shaped aggregate addresses its fields on the wire.
#[derive(Clone, Copy, Debug, PartialEq, Eq, Structural)]
pub enum RecordKind {
    /// Fields have names; the field path mode chooses name or index.
    Named,
    /// Fields are anonymous; positional indices are always used.
    Positional,
    /// Tuple positions, addressed by the decimal string of the position.
    Tuple,
}

/// What the diff and apply engines do with one record field.
#[derive(Clone, Copy, Debug, PartialEq, Eq, Structural)]
pub enum FieldMode {
    /// Recurse into the field.
    Normal,
    /// Compare the whole field for equality and replace it wholesale.
    Opaque,
    /// Exclude the field from diffing and applying entirely.
    Skip,
}

/// One field of a record-shaped value.
#[derive(Debug)]
pub struct FieldEntry {
    pub name: String,
    pub mode: FieldMode,
    pub value: Node,
}

/// One entry of a keyed map.
#[derive(Debug)]
pub struct MapEntry {
    pub key: Leaf,
    pub value: Node,
}

/// A diffable value.
#[derive(Debug)]
pub enum Node {
    /// A scalar.
    Leaf(Leaf),
    /// A subtree treated as a leaf: compared as a whole, replaced wholesale.
    Opaque(Box<Node>),
    /// A record with a fixed set of fields.
    Record(RecordKind, Vec<FieldEntry>),
    /// The active case of a tagged union: variant name and payload fields.
    Variant(String, RecordKind, Vec<FieldEntry>),
    /// An ordered sequence that may grow and shrink at the tail.
    List(Vec<Node>),
    /// An optional value, held as a sequence of length at most one.
    Opt(Vec<Node>),
    /// A fixed-length array: elements change in place, never in number.
    Array(Vec<Node>),
    /// A keyed map with pairwise distinct keys.
    Dict(Vec<MapEntry>),
}

/// Mathematical model of a [`FieldEntry`].
#[verifier::ext_equal]
pub struct FieldV {
    pub name: Seq<char>,
    pub mode: FieldMode,
    pub value: NodeV,
}

/// Mathematical model of a [`MapEntry`].
#[verifier::ext_equal]
pub struct MapEntryV {
    pub key: LeafV,
    pub value: NodeV,
}

/// Mathematical model of a [`Node`].
#[verifier::ext_equal]
pub enum NodeV {
    Leaf(LeafV),
    Opaque(Box<NodeV>),
    Record(RecordKind, Seq<FieldV>),
    Variant(Seq<char>, RecordKind, Seq<FieldV>),
    List(Seq<NodeV>),
    Opt(Seq<NodeV>),
    Array(Seq<NodeV>),
    Dict(Seq<MapEntryV>),
}

pub open spec fn node_view(n: Node) -> NodeV
    decreases n,
{
    match n {
        Node::Leaf(l) => NodeV::Leaf(l@),
        Node::Opaque(inner) => NodeV::Opaque(Box::new(node_view(*inner))),
        Node::Record(kind, fields) => NodeV::Record(kind, fields_view(fields@)),
        Node::Variant(name, kind, fields) => NodeV::Variant(name@, kind, fields_view(fields@)),
        Node::List(elems) => NodeV::List(nodes_view(elems@)),
        Node::Opt(elems) => NodeV::Opt(nodes_view(elems@)),
        Node::Array(elems) => NodeV::Array(nodes_view(elems@)),
        Node::Dict(entries) => NodeV::Dict(entries_view(entries@)),
    }
}

pub open spec fn fields_view(s: Seq<FieldEntry>) -> Seq<FieldV>
    decreases s,
{
    if s.len() == 0 {
        Seq::empty()
    } else {
        fields_view(s.drop_last()).push(
            FieldV { name: s.last().name@, mode: s.last().mode, value: node_view(s.last().value) },
        )
    }
}

pub open spec fn nodes_view(s: Seq<Node>) -> Seq<NodeV>
    decreases s,
{
    if s.len() == 0 {
        Seq::empty()
    } else {
        nodes_view(s.drop_last()).push(node_view(s.last()))
    }
}

pub open spec fn entries_view(s: Seq<MapEntry>) -> Seq<MapEntryV>
    decreases s,
{
    if s.len() == 0 {
        Seq::empty()
    } else {
        entries_view(s.drop_last()).push(
            MapEntryV { key: s.last().key@, value: node_view(s.last().value) },
        )
    }
}

impl View for Node {
    type V = NodeV;

    open spec fn view(&self) -> NodeV {
        node_view(*self)
    }
}

/// Byte-string equality.
pub fn bytes_eq(a: &Vec<u8>, b: &Vec<u8>) -> (r: bool)
    ensures
        r == (a@ == b@),
{
    if a.len() != b.len() {
        return false;
    }
    let mut i: usize = 0;
    while i < a.len()
        invariant
            i <= a.len(),
            a@.len() == b@.len(),
            forall|j: int| 0 <= j < i ==> a@[j] == b@[j],
        decreases a.len() - i,
    {
        if a[i] != b[i] {
            return false;
        }
        i = i + 1;
    }
    proof {
        assert(a@ =~= b@);
    }
    true
}

/// Byte-string copy.
pub fn bytes_clone(a: &Vec<u8>) -> (r: Vec<u8>)
    ensures
        r@ == a@,
{
    let mut out: Vec<u8> = Vec::new();
    let mut i: usize = 0;
    while i < a.len()
        invariant
            i <= a.len(),
            out@ =~= a@.take(i as int),
        decreases a.len() - i,
    {
        out.push(a[i]);
        i = i + 1;
    }
    proof {
        assert(out@ =~= a@);
    }
    out
}

/// Leaf equality: the comparison that decides whether a scalar changed.
pub fn leaf_eq(a: &Leaf, b: &Leaf) -> (r: bool)
    ensures
        r == (a@ == b@),
{
    match (a, b) {
        (Leaf::Bool(x), Leaf::Bool(y)) => *x == *y,
        (Leaf::U64(x), Leaf::U64(y)) => *x == *y,
        (Leaf::I64(x), Leaf::I64(y)) => *x == *y,
        (Leaf::U128(x), Leaf::U128(y)) => *x == *y,
        (Leaf::I128(x), Leaf::I128(y)) => *x == *y,
        (Leaf::F32Bits(x), Leaf::F32Bits(y)) => *x == *y,
        (Leaf::F64Bits(x), Leaf::F64Bits(y)) => *x == *y,
        (Leaf::Char(x), Leaf::Char(y)) => *x == *y,
        (Leaf::Str(x), Leaf::Str(y)) => *x == *y,
        (Leaf::Bytes(x), Leaf::Bytes(y)) => bytes_eq(x, y),
        (Leaf::Unit, Leaf::Unit) => true,
        _ => false,
    }
}

/// Leaf copy.
pub fn leaf_clone(l: &Leaf) -> (r: Leaf)
    ensures
        r@ == l@,
{
    match l {
        Leaf::Bool(x) => Leaf::Bool(*x),
        Leaf::U64(x) => Leaf::U64(*x),
        Leaf::I64(x) => Leaf::I64(*x),
        Leaf::U128(x) => Leaf::U128(*x),
        Leaf::I128(x) => Leaf::I128(*x),
        Leaf::F32Bits(x) => Leaf::F32Bits(*x),
        Leaf::F64Bits(x) => Leaf::F64Bits(*x),
        Leaf::Char(x) => Leaf::Char(*x),
        Leaf::Str(s) => Leaf::Str(s.clone()),
        Leaf::Bytes(b) => Leaf::Bytes(bytes_clone(b)),
        Leaf::Unit => Leaf::Unit,
    }
}

pub broadcast proof fn lemma_fields_view(s: Seq<FieldEntry>)
    ensures
        #[trigger] fields_view(s).len() == s.len(),
        forall|i: int|
            0 <= i < s.len() ==> fields_view(s)[i] == (FieldV {
                name: s[i].name@,
                mode: s[i].mode,
                value: node_view(s[i].value),
            }),
    decreases s,
{
    if s.len() > 0 {
        lemma_fields_view(s.drop_last());
    }
}

pub broadcast proof fn lemma_nodes_view(s: Seq<Node>)
    ensures
        #[trigger] nodes_view(s).len() == s.len(),
        forall|i: int| 0 <= i < s.len() ==> nodes_view(s)[i] == node_view(s[i]),
    decreases s,
{
    if s.len() > 0 {
        lemma_nodes_view(s.drop_last());
    }
}

pub broadcast proof fn lemma_entries_view(s: Seq<MapEntry>)
    ensures
        #[trigger] entries_view(s).len() == s.len(),
        forall|i: int|
            0 <= i < s.len() ==> entries_view(s)[i] == (MapEntryV {
                key: s[i].key@,
                value: node_view(s[i].value),
            }),
    decreases s,
{
    if s.len() > 0 {
        lemma_entries_view(s.drop_last());
    }
}

/// Deep equality of diffable values: the comparison behind opaque diffing.
pub fn node_eq(a: &Node, b: &Node) -> (r: bool)
    ensures
        r == (a@ == b@),
    decreases a,
{
    match (a, b) {
        (Node::Leaf(x), Node::Leaf(y)) => leaf_eq(x, y),
        (Node::Opaque(x), Node::Opaque(y)) => node_eq(x, y),
        (Node::Record(k1, f1), Node::Record(k2, f2)) => *k1 == *k2 && fields_eq(f1, f2),
        (Node::Variant(n1, k1, f1), Node::Variant(n2, k2, f2)) => *n1 == *n2 && *k1 == *k2
            && fields_eq(f1, f2),
        (Node::List(x), Node::List(y)) => nodes_eq(x, y),
        (Node::Opt(x), Node::Opt(y)) => nodes_eq(x, y),
        (Node::Array(x), Node::Array(y)) => nodes_eq(x, y),
        (Node::Dict(x), Node::Dict(y)) => entries_eq(x, y),
        _ => false,
    }
}

pub fn fields_eq(a: &Vec<FieldEntry>, b: &Vec<FieldEntry>) -> (r: bool)
    ensures
        r == (fields_view(a@) == fields_view(b@)),
    decreases a,
{
    proof {
        lemma_fields_view(a@);
        lemma_fields_view(b@);
    }
    if a.len() != b.len() {
        return false;
    }
    let mut i: usize = 0;
    while i < a.len()
        invariant
            i <= a@.len(),
            a@.len() == b@.len(),
            fields_view(a@).len() == a@.len(),
            fields_view(b@).len() == b@.len(),
            forall|j: int| 0 <= j < i ==> fields_view(a@)[j] == fields_view(b@)[j],
            forall|j: int|
                0 <= j < a@.len() ==> fields_view(a@)[j] == (FieldV {
                    name: a@[j].name@,
                    mode: a@[j].mode,
                    value: node_view(a@[j].value),
                }),
            forall|j: int|
                0 <= j < b@.len() ==> fields_view(b@)[j] == (FieldV {
                    name: b@[j].name@,
                    mode: b@[j].mode,
                    value: node_view(b@[j].value),
                }),
        decreases a@.len() - i,
    {
        let same_name: bool = a[i].name == b[i].name;
        let same_mode: bool = a[i].mode == b[i].mode;
        if !same_name || !same_mode || !node_eq(&a[i].value, &b[i].value) {
            proof {
                assert(fields_view(a@)[i as int] != fields_view(b@)[i as int]);
            }
            return false;
        }
        i = i + 1;
    }
    proof {
        assert(fields_view(a@) =~= fields_view(b@));
    }
    true
}

pub fn nodes_eq(a: &Vec<Node>, b: &Vec<Node>) -> (r: bool)
    ensures
        r == (nodes_view(a@) == nodes_view(b@)),
    decreases a,
{
    proof {
        lemma_nodes_view(a@);
        lemma_nodes_view(b@);
    }
    if a.len() != b.len() {
        return false;
    }
    let mut i: usize = 0;
    while i < a.len()
        invariant
            i <= a@.len(),
            a@.len() == b@.len(),
            nodes_view(a@).len() == a@.len(),
            nodes_view(b@).len() == b@.len(),
            forall|j: int| 0 <= j < i ==> nodes_view(a@)[j] == nodes_view(b@)[j],
            forall|j: int| 0 <= j < a@.len() ==> nodes_view(a@)[j] == node_view(a@[j]),
            forall|j: int| 0 <= j < b@.len() ==> nodes_view(b@)[j] == node_view(b@[j]),
        decreases a@.len() - i,
    {
        if !node_eq(&a[i], &b[i]) {
            proof {
                assert(nodes_view(a@)[i as int] != nodes_view(b@)[i as int]);
            }
            return false;
        }
        i = i + 1;
    }
    proof {
        assert(nodes_view(a@) =~= nodes_view(b@));
    }
    true
}

pub fn entries_eq(a: &Vec<MapEntry>, b: &Vec<MapEntry>) -> (r: bool)
    ensures
        r == (entries_view(a@) == entries_view(b@)),
    decreases a,
{
    proof {
        lemma_entries_view(a@);
        lemma_entries_view(b@);
    }
    if a.len() != b.len() {
        return false;
    }
    let mut i: usize = 0;
    while i < a.len()
        invariant
            i <= a@.len(),
            a@.len() == b@.len(),
            entries_view(a@).len() == a@.len(),
            entries_view(b@).len() == b@.len(),
            forall|j: int| 0 <= j < i ==> entries_view(a@)[j] == entries_view(b@)[j],
            forall|j: int|
                0 <= j < a@.len() ==> entries_view(a@)[j] == (MapEntryV {
                    key: a@[j].key@,
                    value: node_view(a@[j].value),
                }),
            forall|j: int|
                0 <= j < b@.len() ==> entries_view(b@)[j] == (MapEntryV {
                    key: b@[j].key@,
                    value: node_view(b@[j].value),
                }),
        decreases a@.len() - i,
    {
        if !leaf_eq(&a[i].key, &b[i].key) || !node_eq(&a[i].value, &b[i].value) {
            proof {
                assert(entries_view(a@)[i as int] != entries_view(b@)[i as int]);
            }
            return false;
        }
        i = i + 1;
    }
    proof {
        assert(entries_view(a@) =~= entries_view(b@));
    }
    true
}

/// Deep copy of a diffable value.
pub fn node_clone(n: &Node) -> (r: Node)
    ensures
        r@ == n@,
    decreases n,
{
    match n {
        Node::Leaf(l) => Node::Leaf(leaf_clone(l)),
        Node::Opaque(inner) => Node::Opaque(Box::new(node_clone(inner))),
        Node::Record(k, fields) => Node::Record(*k, fields_clone(fields)),
        Node::Variant(name, k, fields) => Node::Variant(name.clone(), *k, fields_clone(fields)),
        Node::List(elems) => Node::List(nodes_clone(elems)),
        Node::Opt(elems) => Node::Opt(nodes_clone(elems)),
        Node::Array(elems) => Node::Array(nodes_clone(elems)),
        Node::Dict(entries) => Node::Dict(entries_clone(entries)),
    }
}

pub fn fields_clone(v: &Vec<FieldEntry>) -> (r: Vec<FieldEntry>)
    ensures
        fields_view(r@) == fields_view(v@),
    decreases v,
{
    let mut out: Vec<FieldEntry> = Vec::new();
    let mut i: usize = 0;
    while i < v.len()
        invariant
            i <= v@.len(),
            out@.len() == i,
            forall|j: int| #![auto]
                0 <= j < i ==> out@[j].name@ == v@[j].name@ && out@[j].mode == v@[j].mode
                    && node_view(out@[j].value) == node_view(v@[j].value),
        decreases v@.len() - i,
    {
        let entry = FieldEntry {
            name: v[i].name.clone(),
            mode: v[i].mode,
            value: node_clone(&v[i].value),
        };
        out.push(entry);
        i = i + 1;
    }
    proof {
        lemma_fields_view(out@);
        lemma_fields_view(v@);
        assert(fields_view(out@) =~= fields_view(v@));
    }
    out
}

pub fn nodes_clone(v: &Vec<Node>) -> (r: Vec<Node>)
    ensures
        nodes_view(r@) == nodes_view(v@),
    decreases v,
{
    let mut out: Vec<Node> = Vec::new();
    let mut i: usize = 0;
    while i < v.len()
        invariant
            i <= v@.len(),
            out@.len() == i,
            forall|j: int| #![auto] 0 <= j < i ==> node_view(out@[j]) == node_view(v@[j]),
        decreases v@.len() - i,
    {
        let elem = node_clone(&v[i]);
        out.push(elem);
        i = i + 1;
    }
    proof {
        lemma_nodes_view(out@);
        lemma_nodes_view(v@);
        assert(nodes_view(out@) =~= nodes_view(v@));
    }
    out
}

pub fn entries_clone(v: &Vec<MapEntry>) -> (r: Vec<MapEntry>)
    ensures
        entries_view(r@) == entries_view(v@),
    decreases v,
{
    let mut out: Vec<MapEntry> = Vec::new();
    let mut i: usize = 0;
    while i < v.len()
        invariant
            i <= v@.len(),
            out@.len() == i,
            forall|j: int| #![auto]
                0 <= j < i ==> out@[j].key@ == v@[j].key@ && node_view(out@[j].value)
                    == node_view(v@[j].value),
        decreases v@.len() - i,
    {
        let entry = MapEntry { key: leaf_clone(&v[i].key), value: node_clone(&v[i].value) };
        out.push(entry);
        i = i + 1;
    }
    proof {
        lemma_entries_view(out@);
        lemma_entries_view(v@);
        assert(entries_view(out@) =~= entries_view(v@));
    }
    out
}

/// Keys of a map's entries are pairwise distinct.
pub open spec fn keys_distinct(s: Seq<MapEntryV>) -> bool {
    forall|i: int, j: int| 0 <= i < j < s.len() ==> s[i].key != s[j].key
}

/// Validity of a diffable value: map keys are pairwise distinct and an
/// optional holds at most one element, recursively.  Conversions at the
/// edge establish this; the universal laws assume it, since a map with
/// duplicate keys has no coherent diff.
pub open spec fn node_wf(n: NodeV) -> bool
    decreases n,
{
    match n {
        NodeV::Leaf(_) => true,
        NodeV::Opaque(inner) => node_wf(*inner),
        NodeV::Record(_, fs) => fields_wf(fs),
        NodeV::Variant(_, _, fs) => fields_wf(fs),
        NodeV::List(es) => elems_wf(es),
        NodeV::Opt(es) => es.len() <= 1 && elems_wf(es),
        NodeV::Array(es) => elems_wf(es),
        NodeV::Dict(en) => keys_distinct(en) && entries_wf(en),
    }
}

pub open spec fn fields_wf(fs: Seq<FieldV>) -> bool
    decreases fs,
{
    if fs.len() == 0 {
        true
    } else {
        fields_wf(fs.drop_last()) && node_wf(fs.last().value)
    }
}

pub open spec fn elems_wf(es: Seq<NodeV>) -> bool
    decreases es,
{
    if es.len() == 0 {
        true
    } else {
        elems_wf(es.drop_last()) && node_wf(es.last())
    }
}

pub open spec fn entries_wf(en: Seq<MapEntryV>) -> bool
    decreases en,
{
    if en.len() == 0 {
        true
    } else {
        entries_wf(en.drop_last()) && node_wf(en.last().value)
    }
}

pub broadcast proof fn lemma_fields_wf(fs: Seq<FieldV>)
    ensures
        #[trigger] fields_wf(fs) ==> forall|i: int| 0 <= i < fs.len() ==> node_wf(
            #[trigger] fs[i].value,
        ),
    decreases fs,
{
    if fs.len() > 0 {
        lemma_fields_wf(fs.drop_last());
        if fields_wf(fs) {
            assert forall|i: int| 0 <= i < fs.len() implies node_wf(fs[i].value) by {
                if i < fs.len() - 1 {
                    assert(fs[i] == fs.drop_last()[i]);
                } else {
                    assert(fs[i] == fs.last());
                }
            }
        }
    }
}

pub broadcast proof fn lemma_elems_wf(es: Seq<NodeV>)
    ensures
        #[trigger] elems_wf(es) ==> forall|i: int| 0 <= i < es.len() ==> node_wf(#[trigger] es[i]),
    decreases es,
{
    if es.len() > 0 {
        lemma_elems_wf(es.drop_last());
        if elems_wf(es) {
            assert forall|i: int| 0 <= i < es.len() implies node_wf(es[i]) by {
                if i < es.len() - 1 {
                    assert(es[i] == es.drop_last()[i]);
                } else {
                    assert(es[i] == es.last());
                }
            }
        }
    }
}

pub broadcast proof fn lemma_entries_wf(en: Seq<MapEntryV>)
    ensures
        #[trigger] entries_wf(en) ==> forall|i: int| 0 <= i < en.len() ==> node_wf(
            #[trigger] en[i].value,
        ),
    decreases en,
{
    if en.len() > 0 {
        lemma_entries_wf(en.drop_last());
        if entries_wf(en) {
            assert forall|i: int| 0 <= i < en.len() implies node_wf(en[i].value) by {
                if i < en.len() - 1 {
                    assert(en[i] == en.drop_last()[i]);
                } else {
                    assert(en[i] == en.last());
                }
            }
        }
    }
}

} // verus!
