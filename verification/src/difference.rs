//! The diff command stream and the context that produces it.
//!
//! A diff is one flat sequence of commands.  `Enter` commands descend one
//! path step; `Value` replaces the addressed subtree and implicitly closes
//! the innermost `Enter`; `Remove`, `AddKey` with its following `Value`,
//! and `RemoveKey` are likewise self-closing; `Exit` closes one step
//! explicitly.  The diff context buffers pending path steps as the engine
//! descends, and flushes them as `Enter` commands only when a change is
//! found underneath, so unchanged subtrees emit nothing.

use vstd::prelude::*;

use crate::counting_serializer::{sink_after, sink_can_emit, CommandSink, SinkV};
use crate::value::{
    leaf_clone, leaf_eq, node_clone, node_eq, FieldEntry, FieldMode, FieldV, Leaf, LeafV, MapEntry,
    MapEntryV, Node, NodeV, RecordKind,
};
use crate::FieldPathMode;

verus! {

/// One step in the address of a changed subtree.
#[derive(Debug)]
pub enum DiffPathElementValue {
    /// A record field identified by name.
    Field(String),
    /// A record field identified by positional index.
    FieldIndex(u16),
    /// The active case of a tagged union, same tag on both sides.
    EnumVariant(String),
    /// The tag changed; the following value carries the entire new value.
    FullEnumVariant,
    /// Descend into one position of an ordered sequence.
    CollectionIndex(usize),
    /// The following value is appended to the sequence.
    AddToCollection,
}

/// Mathematical model of a [`DiffPathElementValue`].
#[verifier::ext_equal]
pub enum PathElV {
    Field(Seq<char>),
    FieldIndex(u16),
    EnumVariant(Seq<char>),
    FullEnumVariant,
    CollectionIndex(usize),
    AddToCollection,
}

impl View for DiffPathElementValue {
    type V = PathElV;

    open spec fn view(&self) -> PathElV {
        match self {
            DiffPathElementValue::Field(s) => PathElV::Field(s@),
            DiffPathElementValue::FieldIndex(i) => PathElV::FieldIndex(*i),
            DiffPathElementValue::EnumVariant(s) => PathElV::EnumVariant(s@),
            DiffPathElementValue::FullEnumVariant => PathElV::FullEnumVariant,
            DiffPathElementValue::CollectionIndex(i) => PathElV::CollectionIndex(*i),
            DiffPathElementValue::AddToCollection => PathElV::AddToCollection,
        }
    }
}

/// One element of the wire sequence that constitutes a diff.
///
/// The tag order is part of the wire contract: Enter, Value, Remove,
/// AddKey, EnterKey, RemoveKey, Exit.
#[derive(Debug)]
pub enum DiffCommandValue {
    /// Enter a path element.
    Enter(DiffPathElementValue),
    /// The addressed subtree takes this value; implicitly exits.
    Value(Node),
    /// Remove this many elements from the end of a sequence; implicitly exits.
    Remove(usize),
    /// Add a key to a map; the following `Value` carries the entry's value.
    AddKey(Leaf),
    /// Descend into the slot of an existing key; closed by `Exit`.
    EnterKey(Leaf),
    /// Remove a key from a map; self-closing.
    RemoveKey(Leaf),
    /// Exit a path element.
    Exit,
}

/// Mathematical model of a [`DiffCommandValue`].
#[verifier::ext_equal]
pub enum CmdV {
    Enter(PathElV),
    Value(NodeV),
    Remove(usize),
    AddKey(LeafV),
    EnterKey(LeafV),
    RemoveKey(LeafV),
    Exit,
}

impl View for DiffCommandValue {
    type V = CmdV;

    open spec fn view(&self) -> CmdV {
        match self {
            DiffCommandValue::Enter(p) => CmdV::Enter(p@),
            DiffCommandValue::Value(n) => CmdV::Value(n@),
            DiffCommandValue::Remove(n) => CmdV::Remove(*n),
            DiffCommandValue::AddKey(k) => CmdV::AddKey(k@),
            DiffCommandValue::EnterKey(k) => CmdV::EnterKey(k@),
            DiffCommandValue::RemoveKey(k) => CmdV::RemoveKey(k@),
            DiffCommandValue::Exit => CmdV::Exit,
        }
    }
}

pub open spec fn cmds_view(s: Seq<DiffCommandValue>) -> Seq<CmdV> {
    s.map_values(|c: DiffCommandValue| c@)
}

/// A pending path step, buffered until a change underneath forces it out.
///
/// Map keys need a command of their own (`EnterKey` carries the runtime
/// key value), so the stack distinguishes plain path elements from keys.
#[derive(Debug)]
pub enum ElementStackEntry {
    PathElement(DiffPathElementValue),
    KeyElement(Leaf),
}

impl View for ElementStackEntry {
    type V = CmdV;

    /// A pending entry is modeled by the command its flush will emit.
    open spec fn view(&self) -> CmdV {
        match self {
            ElementStackEntry::PathElement(p) => CmdV::Enter(p@),
            ElementStackEntry::KeyElement(k) => CmdV::EnterKey(k@),
        }
    }
}

pub open spec fn stack_view(s: Seq<ElementStackEntry>) -> Seq<CmdV> {
    s.map_values(|e: ElementStackEntry| e@)
}

/// Mathematical model of a [`DiffContext`].
#[verifier::ext_equal]
pub struct DiffContextV {
    /// The buffered path steps, as the commands their flush will emit.
    pub pending: Seq<CmdV>,
    /// The sink state: what was emitted so far.
    pub sink: SinkV,
    /// Whether the last emitted command closed its path step implicitly,
    /// so that the next pop at that step must not emit an `Exit`.
    pub implicit_exit_written: bool,
    /// How record fields are addressed.
    pub field_path_mode: FieldPathMode,
    /// Whether any change command was emitted.
    pub has_changes: bool,
}

/// Transient state of one diff traversal.
///
/// Path steps pushed during descent are buffered, not emitted; they are
/// flushed as `Enter` commands only when a change command is saved.  Every
/// push is matched by exactly one pop before the context is finished.
pub struct DiffContext {
    element_stack: Vec<ElementStackEntry>,
    sink: CommandSink,
    implicit_exit_written: bool,
    field_path_mode: FieldPathMode,
    has_changes: bool,
}

impl View for DiffContext {
    type V = DiffContextV;

    closed spec fn view(&self) -> DiffContextV {
        DiffContextV {
            pending: stack_view(self.element_stack@),
            sink: self.sink@,
            implicit_exit_written: self.implicit_exit_written,
            field_path_mode: self.field_path_mode,
            has_changes: self.has_changes,
        }
    }
}

impl DiffContext {
    /// A fresh context around the given sink.
    pub fn new(sink: CommandSink, field_path_mode: FieldPathMode) -> (r: DiffContext)
        ensures
            r@ == (DiffContextV {
                pending: Seq::empty(),
                sink: sink@,
                implicit_exit_written: false,
                field_path_mode,
                has_changes: false,
            }),
    {
        let r = DiffContext {
            element_stack: Vec::new(),
            sink,
            implicit_exit_written: false,
            field_path_mode,
            has_changes: false,
        };
        proof {
            assert(stack_view(r.element_stack@) =~= Seq::<CmdV>::empty());
        }
        r
    }

    /// Hands the sink back once the traversal is complete.
    pub fn into_sink(self) -> (r: CommandSink)
        ensures
            r@ == self@.sink,
    {
        self.sink
    }

    /// How record field paths are serialized.
    pub fn field_path_mode(&self) -> (r: FieldPathMode)
        ensures
            r == self@.field_path_mode,
    {
        self.field_path_mode
    }

    /// True if a change command has been emitted.
    pub fn has_changes(&self) -> (r: bool)
        ensures
            r == self@.has_changes,
    {
        self.has_changes
    }

    /// Buffer one pending path step.
    fn push_entry(&mut self, entry: ElementStackEntry)
        ensures
            final(self)@ == (DiffContextV { pending: old(self)@.pending.push(entry@), ..old(self)@ }),
    {
        let ghost prev = self.element_stack@;
        self.element_stack.push(entry);
        proof {
            assert(stack_view(self.element_stack@) =~= stack_view(prev).push(
                self.element_stack@.last()@,
            ));
        }
    }

    /// Called when the engine visits a named record field.
    pub fn push_field(&mut self, field_name: String)
        ensures
            final(self)@ == (DiffContextV {
                pending: old(self)@.pending.push(CmdV::Enter(PathElV::Field(field_name@))),
                ..old(self)@
            }),
    {
        self.push_entry(ElementStackEntry::PathElement(DiffPathElementValue::Field(field_name)));
    }

    /// Called when the engine visits a record field addressed by index.
    pub fn push_field_index(&mut self, field_idx: u16)
        ensures
            final(self)@ == (DiffContextV {
                pending: old(self)@.pending.push(CmdV::Enter(PathElV::FieldIndex(field_idx))),
                ..old(self)@
            }),
    {
        self.push_entry(
            ElementStackEntry::PathElement(DiffPathElementValue::FieldIndex(field_idx)),
        );
    }

    /// Called when both sides of a tagged union carry this variant.
    pub fn push_variant(&mut self, variant_name: String)
        ensures
            final(self)@ == (DiffContextV {
                pending: old(self)@.pending.push(CmdV::Enter(PathElV::EnumVariant(variant_name@))),
                ..old(self)@
            }),
    {
        self.push_entry(
            ElementStackEntry::PathElement(DiffPathElementValue::EnumVariant(variant_name)),
        );
    }

    /// Called when the two sides of a tagged union carry different variants.
    pub fn push_full_variant(&mut self)
        ensures
            final(self)@ == (DiffContextV {
                pending: old(self)@.pending.push(CmdV::Enter(PathElV::FullEnumVariant)),
                ..old(self)@
            }),
    {
        self.push_entry(ElementStackEntry::PathElement(DiffPathElementValue::FullEnumVariant));
    }

    /// Called when the engine visits one position of an ordered sequence.
    pub fn push_collection_index(&mut self, idx: usize)
        ensures
            final(self)@ == (DiffContextV {
                pending: old(self)@.pending.push(CmdV::Enter(PathElV::CollectionIndex(idx))),
                ..old(self)@
            }),
    {
        self.push_entry(
            ElementStackEntry::PathElement(DiffPathElementValue::CollectionIndex(idx)),
        );
    }

    /// Called for an element that is new at the end of a sequence.
    pub fn push_collection_add(&mut self)
        ensures
            final(self)@ == (DiffContextV {
                pending: old(self)@.pending.push(CmdV::Enter(PathElV::AddToCollection)),
                ..old(self)@
            }),
    {
        self.push_entry(ElementStackEntry::PathElement(DiffPathElementValue::AddToCollection));
    }

    /// Buffer a map-key descent: its flush emits `EnterKey` with the key.
    pub fn push_field_element(&mut self, key: Leaf)
        ensures
            final(self)@ == (DiffContextV {
                pending: old(self)@.pending.push(CmdV::EnterKey(key@)),
                ..old(self)@
            }),
    {
        self.push_entry(ElementStackEntry::KeyElement(key));
    }

    /// Called when the engine finishes visiting a path step.
    ///
    /// If the step is still buffered it is simply dropped; if it was
    /// flushed and the last command already closed it, the flag is
    /// cleared; otherwise an explicit `Exit` is emitted.
    pub fn pop_path_element(&mut self)
        requires
            old(self)@.pending.len() > 0 || old(self)@.implicit_exit_written || sink_can_emit(
                old(self)@.sink,
                1,
            ),
        ensures
            final(self)@ == (if old(self)@.pending.len() > 0 {
                DiffContextV { pending: old(self)@.pending.drop_last(), ..old(self)@ }
            } else if old(self)@.implicit_exit_written {
                DiffContextV { implicit_exit_written: false, ..old(self)@ }
            } else {
                DiffContextV { sink: sink_after(old(self)@.sink, seq![CmdV::Exit]), ..old(self)@ }
            }),
    {
        let ghost prev = self.element_stack@;
        if self.element_stack.len() > 0 {
            let _dropped = self.element_stack.pop();
            proof {
                assert(stack_view(self.element_stack@) =~= stack_view(prev).drop_last());
            }
        } else if self.implicit_exit_written {
            self.implicit_exit_written = false;
        } else {
            self.sink.serialize_element(DiffCommandValue::Exit);
        }
    }

    /// Flush all buffered path steps as `Enter`/`EnterKey` commands, then
    /// emit `cmd`.  Any self-closing command sequence must end with the
    /// matching implicit-exit flag so that the following pop stays silent.
    pub fn save_command(&mut self, cmd: DiffCommandValue, implicit_exit: bool, is_change: bool)
        requires
            sink_can_emit(old(self)@.sink, old(self)@.pending.len() + 1int),
        ensures
            final(self)@ == (DiffContextV {
                pending: Seq::empty(),
                sink: sink_after(old(self)@.sink, old(self)@.pending + seq![cmd@]),
                implicit_exit_written: implicit_exit,
                field_path_mode: old(self)@.field_path_mode,
                has_changes: old(self)@.has_changes || is_change,
            }),
    {
        let ghost prev = self@;
        let ghost prev_pending = stack_view(self.element_stack@);
        let ghost prev_sink = self.sink@;
        let pend_len: usize = self.element_stack.len();
        let mut flushed: usize = 0;
        proof {
            crate::counting_serializer::lemma_sink_after_empty(prev_sink);
            assert(prev_pending.take(0) =~= Seq::<CmdV>::empty());
            assert(prev_pending.skip(0) =~= prev_pending);
        }
        while self.element_stack.len() > 0
            invariant
                prev_pending.len() == pend_len,
                flushed + self.element_stack@.len() == pend_len,
                stack_view(self.element_stack@) =~= prev_pending.skip(flushed as int),
                self.sink@ == sink_after(prev_sink, prev_pending.take(flushed as int)),
                sink_can_emit(prev_sink, prev_pending.len() + 1int),
                self.implicit_exit_written == prev.implicit_exit_written,
                self.has_changes == prev.has_changes,
                self.field_path_mode == prev.field_path_mode,
            decreases self.element_stack@.len(),
        {
            let ghost loop_pending = stack_view(self.element_stack@);
            let ghost loop_stack = self.element_stack@;
            let entry = self.element_stack.remove(0);
            let emitted = match entry {
                ElementStackEntry::PathElement(p) => DiffCommandValue::Enter(p),
                ElementStackEntry::KeyElement(k) => DiffCommandValue::EnterKey(k),
            };
            proof {
                assert(loop_pending[0] == loop_stack[0]@);
                assert(loop_pending[0] == prev_pending.skip(flushed as int)[0]);
                assert(emitted@ == prev_pending[flushed as int]);
                assert(stack_view(self.element_stack@) =~= loop_pending.skip(1));
                assert(loop_pending.skip(1) =~= prev_pending.skip(flushed + 1int));
            }
            self.sink.serialize_element(emitted);
            flushed = flushed + 1;
            proof {
                crate::counting_serializer::lemma_sink_after_concat(
                    prev_sink,
                    prev_pending.take(flushed as int - 1),
                    seq![emitted@],
                );
                assert(prev_pending.take(flushed as int - 1) + seq![emitted@] =~= prev_pending.take(
                    flushed as int,
                ));
            }
        }
        self.has_changes = self.has_changes || is_change;
        self.implicit_exit_written = implicit_exit;
        self.sink.serialize_element(cmd);
        proof {
            assert(prev_pending.take(pend_len as int) =~= prev_pending);
            crate::counting_serializer::lemma_sink_after_concat(
                prev_sink,
                prev_pending,
                seq![cmd@],
            );
            assert(stack_view(self.element_stack@) =~= Seq::<CmdV>::empty());
            assert(self@ =~= (DiffContextV {
                pending: Seq::empty(),
                sink: sink_after(prev.sink, prev.pending + seq![cmd@]),
                implicit_exit_written: implicit_exit,
                field_path_mode: prev.field_path_mode,
                has_changes: prev.has_changes || is_change,
            }));
        }
    }

    /// Flush pending steps and emit the value for the addressed subtree.
    pub fn save_value(&mut self, value: Node)
        requires
            sink_can_emit(old(self)@.sink, old(self)@.pending.len() + 1int),
        ensures
            final(self)@ == (DiffContextV {
                pending: Seq::empty(),
                sink: sink_after(
                    old(self)@.sink,
                    old(self)@.pending + seq![CmdV::Value(value@)],
                ),
                implicit_exit_written: true,
                field_path_mode: old(self)@.field_path_mode,
                has_changes: true,
            }),
    {
        self.save_command(DiffCommandValue::Value(value), true, true);
    }

    /// Emit an explicit `Exit`, marking it self-closing for the enclosing
    /// path step.
    pub fn save_exit(&mut self)
        requires
            sink_can_emit(old(self)@.sink, old(self)@.pending.len() + 1int),
        ensures
            final(self)@ == (DiffContextV {
                pending: Seq::empty(),
                sink: sink_after(old(self)@.sink, old(self)@.pending + seq![CmdV::Exit]),
                implicit_exit_written: true,
                field_path_mode: old(self)@.field_path_mode,
                has_changes: old(self)@.has_changes,
            }),
    {
        self.save_command(DiffCommandValue::Exit, true, false);
    }
}

/// The path element the diff engine pushes for field `i` of a record of
/// kind `kind` under field path mode `mode`.
pub open spec fn field_path(kind: RecordKind, f: FieldV, i: int, mode: FieldPathMode) -> PathElV {
    match kind {
        RecordKind::Named => match mode {
            FieldPathMode::Name => PathElV::Field(f.name),
            FieldPathMode::Index => PathElV::FieldIndex(i as u16),
        },
        RecordKind::Positional => PathElV::FieldIndex(i as u16),
        RecordKind::Tuple => PathElV::Field(f.name),
    }
}

/// Whether the (nonempty) stream for an `old` subtree of this shape ends
/// in a self-closing command, so that it closes its enclosing path step
/// itself and the engine's pop after it must stay silent.
pub open spec fn self_closing(a: NodeV) -> bool {
    match a {
        NodeV::Leaf(_) => true,
        NodeV::Opaque(_) => true,
        NodeV::Record(_, _) => false,
        NodeV::Variant(_, _, _) => false,
        NodeV::List(_) => true,
        NodeV::Opt(_) => true,
        NodeV::Array(_) => true,
        NodeV::Dict(_) => true,
    }
}

/// First index at which `s` holds `k`, or `-1`.
pub open spec fn dict_find_index(s: Seq<MapEntryV>, k: LeafV) -> int
    decreases s.len(),
{
    if s.len() == 0 {
        -1
    } else if s[0].key == k {
        0
    } else {
        let r = dict_find_index(s.skip(1), k);
        if r < 0 {
            -1
        } else {
            r + 1
        }
    }
}

pub open spec fn dict_has(s: Seq<MapEntryV>, k: LeafV) -> bool {
    dict_find_index(s, k) >= 0
}

/// The value stored under `k`, if any.
pub open spec fn dict_lookup(s: Seq<MapEntryV>, k: LeafV) -> Option<NodeV> {
    if dict_find_index(s, k) < 0 {
        Option::None
    } else {
        Option::Some(s[dict_find_index(s, k)].value)
    }
}

pub broadcast proof fn lemma_dict_find_index(s: Seq<MapEntryV>, k: LeafV)
    ensures
        #[trigger] dict_find_index(s, k) < s.len(),
        dict_find_index(s, k) >= -1,
        dict_find_index(s, k) >= 0 ==> s[dict_find_index(s, k)].key == k,
        forall|j: int|
            0 <= j < s.len() && (dict_find_index(s, k) < 0 || j < dict_find_index(s, k))
                ==> s[j].key != k,
    decreases s.len(),
{
    if s.len() > 0 && s[0].key != k {
        lemma_dict_find_index(s.skip(1), k);
        assert forall|j: int|
            0 <= j < s.len() && (dict_find_index(s, k) < 0 || j < dict_find_index(s, k)) implies s[j].key
            != k by {
            if j > 0 {
                assert(s[j] == s.skip(1)[j - 1]);
            }
        }
    }
}

/// The diff command stream for the subtree pair `(a, b)`: what one diff
/// traversal emits for this subtree once its path prefix is flushed.  An
/// unchanged subtree emits nothing.  This is the functional specification
/// that the executable engine is proved to match, for either sink.
pub open spec fn dstream(a: NodeV, b: NodeV, mode: FieldPathMode) -> Seq<CmdV>
    decreases a, 0int, 0int,
{
    match (a, b) {
        (NodeV::Leaf(x), NodeV::Leaf(y)) => {
            if x == y {
                Seq::empty()
            } else {
                seq![CmdV::Value(b)]
            }
        },
        (NodeV::Opaque(_), NodeV::Opaque(_)) => {
            if a == b {
                Seq::empty()
            } else {
                seq![CmdV::Value(b)]
            }
        },
        (NodeV::Record(k1, f1), NodeV::Record(k2, f2)) => fields_stream(k1, f1, f2, mode, 0),
        (NodeV::Variant(n1, k1, f1), NodeV::Variant(n2, k2, f2)) => {
            if n1 == n2 {
                let fs = fields_stream(k1, f1, f2, mode, 0);
                if fs.len() == 0 {
                    Seq::empty()
                } else {
                    seq![CmdV::Enter(PathElV::EnumVariant(n1))] + fs + seq![CmdV::Exit]
                }
            } else {
                seq![CmdV::Enter(PathElV::FullEnumVariant), CmdV::Value(b)]
            }
        },
        (NodeV::List(xs), NodeV::List(ys)) => list_stream(xs, ys, mode),
        (NodeV::Opt(xs), NodeV::Opt(ys)) => list_stream(xs, ys, mode),
        (NodeV::Array(xs), NodeV::Array(ys)) => array_stream(xs, ys, mode),
        (NodeV::Dict(ea), NodeV::Dict(eb)) => dict_stream(ea, eb, mode),
        _ => Seq::empty(),
    }
}

/// The closed stream for a subtree standing under an `Enter`: `dstream`
/// followed by the explicit `Exit` that the engine's pop adds whenever
/// the stream does not close itself.
pub open spec fn cstream(a: NodeV, b: NodeV, mode: FieldPathMode) -> Seq<CmdV>
    decreases a, 1int, 0int,
{
    let d = dstream(a, b, mode);
    if d.len() == 0 || self_closing(a) {
        d
    } else {
        d + seq![CmdV::Exit]
    }
}

/// What the diff of a record's fields emits, from field `i` on: for each
/// non-skipped changed field, an `Enter` for its path followed by the
/// field's closed stream; opaque fields compare whole and emit a `Value`.
pub open spec fn fields_stream(
    kind: RecordKind,
    f1: Seq<FieldV>,
    f2: Seq<FieldV>,
    mode: FieldPathMode,
    i: int,
) -> Seq<CmdV>
    decreases f1, 2int, f1.len() - i,
{
    let n = if f1.len() <= f2.len() {
        f1.len() as int
    } else {
        f2.len() as int
    };
    if i < 0 || i >= n {
        Seq::empty()
    } else {
        field_contrib(kind, f1, f2, mode, i) + fields_stream(kind, f1, f2, mode, i + 1)
    }
}

pub open spec fn field_contrib(
    kind: RecordKind,
    f1: Seq<FieldV>,
    f2: Seq<FieldV>,
    mode: FieldPathMode,
    i: int,
) -> Seq<CmdV>
    decreases f1, 1int, i,
{
    if i < 0 || i >= f1.len() || i >= f2.len() {
        Seq::empty()
    } else {
        match f1[i].mode {
            FieldMode::Skip => Seq::empty(),
            FieldMode::Opaque => {
                if f1[i].value == f2[i].value {
                    Seq::empty()
                } else {
                    seq![
                        CmdV::Enter(field_path(kind, f1[i], i, mode)),
                        CmdV::Value(f2[i].value),
                    ]
                }
            },
            FieldMode::Normal => {
                let cs = cstream(f1[i].value, f2[i].value, mode);
                if cs.len() == 0 {
                    Seq::empty()
                } else {
                    seq![CmdV::Enter(field_path(kind, f1[i], i, mode))] + cs
                }
            },
        }
    }
}

/// The in-place part of a sequence diff: paired positions in lockstep.
pub open spec fn lock_stream(xs: Seq<NodeV>, ys: Seq<NodeV>, mode: FieldPathMode, i: int) -> Seq<
    CmdV,
>
    decreases xs, 2int, xs.len() - i,
{
    let n = if xs.len() <= ys.len() {
        xs.len() as int
    } else {
        ys.len() as int
    };
    if i < 0 || i >= n {
        Seq::empty()
    } else {
        lock_contrib(xs, ys, mode, i) + lock_stream(xs, ys, mode, i + 1)
    }
}

pub open spec fn lock_contrib(xs: Seq<NodeV>, ys: Seq<NodeV>, mode: FieldPathMode, i: int) -> Seq<
    CmdV,
>
    decreases xs, 1int, i,
{
    if i < 0 || i >= xs.len() || i >= ys.len() {
        Seq::empty()
    } else {
        let cs = cstream(xs[i], ys[i], mode);
        if cs.len() == 0 {
            Seq::empty()
        } else {
            seq![CmdV::Enter(PathElV::CollectionIndex(i as usize))] + cs
        }
    }
}

/// The appends at the tail of a sequence diff, from position `j` of the
/// new side on: each appended element is announced and then carried.
pub open spec fn adds_stream(ys: Seq<NodeV>, j: int) -> Seq<CmdV>
    decreases ys.len() - j,
{
    if j < 0 || j >= ys.len() {
        Seq::empty()
    } else {
        seq![CmdV::Enter(PathElV::AddToCollection), CmdV::Value(ys[j])] + adds_stream(ys, j + 1)
    }
}

/// The stream for a fixed-length array: lockstep changes closed by an
/// explicit `Exit`; elements never change in number.
pub open spec fn array_stream(xs: Seq<NodeV>, ys: Seq<NodeV>, mode: FieldPathMode) -> Seq<CmdV>
    decreases xs, 3int, 0int,
{
    let locks = lock_stream(xs, ys, mode, 0);
    if locks.len() == 0 {
        Seq::empty()
    } else {
        locks + seq![CmdV::Exit]
    }
}

/// The full stream for an ordered sequence (or an optional, which follows
/// the same rules): lockstep changes, then either a self-closing tail
/// removal, or appends closed by an explicit `Exit`, or just the `Exit`
/// that closes the sequence when in-place changes occurred.
pub open spec fn list_stream(xs: Seq<NodeV>, ys: Seq<NodeV>, mode: FieldPathMode) -> Seq<CmdV>
    decreases xs, 3int, 0int,
{
    let locks = lock_stream(xs, ys, mode, 0);
    if xs.len() > ys.len() {
        locks + seq![CmdV::Remove((xs.len() - ys.len()) as usize)]
    } else if ys.len() > xs.len() {
        locks + adds_stream(ys, xs.len() as int) + seq![CmdV::Exit]
    } else if locks.len() == 0 {
        Seq::empty()
    } else {
        locks + seq![CmdV::Exit]
    }
}

/// The per-key part of a map diff, in the old map's entry order: keys
/// shared with the new side contribute a keyed descent when their value
/// changed; keys gone from the new side contribute a removal.
pub open spec fn dict_updates(
    ea: Seq<MapEntryV>,
    eb: Seq<MapEntryV>,
    mode: FieldPathMode,
    i: int,
) -> Seq<CmdV>
    decreases ea, 2int, ea.len() - i,
{
    if i < 0 || i >= ea.len() {
        Seq::empty()
    } else {
        dict_update_contrib(ea, eb, mode, i) + dict_updates(ea, eb, mode, i + 1)
    }
}

pub open spec fn dict_update_contrib(
    ea: Seq<MapEntryV>,
    eb: Seq<MapEntryV>,
    mode: FieldPathMode,
    i: int,
) -> Seq<CmdV>
    decreases ea, 1int, i,
{
    if i < 0 || i >= ea.len() {
        Seq::empty()
    } else {
        match dict_lookup(eb, ea[i].key) {
            Option::Some(vb) => {
                let cs = cstream(ea[i].value, vb, mode);
                if cs.len() == 0 {
                    Seq::empty()
                } else {
                    seq![CmdV::EnterKey(ea[i].key)] + cs
                }
            },
            Option::None => seq![CmdV::RemoveKey(ea[i].key)],
        }
    }
}

/// The additions of a map diff, in the new map's entry order.
pub open spec fn dict_adds(ea: Seq<MapEntryV>, eb: Seq<MapEntryV>, j: int) -> Seq<CmdV>
    decreases eb.len() - j,
{
    if j < 0 || j >= eb.len() {
        Seq::empty()
    } else {
        (if dict_has(ea, eb[j].key) {
            Seq::empty()
        } else {
            seq![CmdV::AddKey(eb[j].key), CmdV::Value(eb[j].value)]
        }) + dict_adds(ea, eb, j + 1)
    }
}

pub open spec fn dict_stream(ea: Seq<MapEntryV>, eb: Seq<MapEntryV>, mode: FieldPathMode) -> Seq<
    CmdV,
>
    decreases ea, 3int, 0int,
{
    let body = dict_updates(ea, eb, mode, 0) + dict_adds(ea, eb, 0);
    if body.len() == 0 {
        Seq::empty()
    } else {
        body + seq![CmdV::Exit]
    }
}

/// The context relation every engine step preserves: either nothing was
/// emitted for the subtree and the context is untouched, or the pending
/// prefix was flushed, `emitted` followed it into the sink, and the
/// implicit-exit flag reports whether `emitted` closed the enclosing step.
pub open spec fn ctx_emitted(
    before: DiffContextV,
    after: DiffContextV,
    emitted: Seq<CmdV>,
    sc: bool,
) -> bool {
    if emitted.len() == 0 {
        after == before
    } else {
        after == (DiffContextV {
            pending: Seq::empty(),
            sink: sink_after(before.sink, before.pending + emitted),
            implicit_exit_written: sc,
            field_path_mode: before.field_path_mode,
            has_changes: true,
        })
    }
}

/// The sink budget a subtree diff needs: nothing when its stream is
/// empty (an unchanged subtree emits nothing, not even its pending
/// prefix), else room for the pending prefix and the stream.
pub open spec fn can_emit_stream(sink: SinkV, pending: Seq<CmdV>, stream: Seq<CmdV>) -> bool {
    stream.len() > 0 ==> sink_can_emit(sink, pending.len() as int + stream.len())
}

impl Node {
    /// Recursively walk the paired old (`self`) and new (`other`) values,
    /// saving a command for each changed leaf; buffered path steps are
    /// flushed only above actual changes.  Returns whether any change was
    /// emitted.  The emitted commands are exactly
    /// [`dstream`]`(self@, other@, mode)`.
    pub fn diff(&self, ctx: &mut DiffContext, other: &Node) -> (changed: bool)
        requires
            can_emit_stream(
                old(ctx)@.sink,
                old(ctx)@.pending,
                dstream(
                    self@,
                    other@,
                    old(ctx)@.field_path_mode,
                ),
            ),
        ensures
            changed == (dstream(self@, other@, old(ctx)@.field_path_mode).len() > 0),
            ctx_emitted(
                old(ctx)@,
                final(ctx)@,
                dstream(self@, other@, old(ctx)@.field_path_mode),
                self_closing(self@),
            ),
        decreases self, 4int, 0int,
    {
        let ghost ctx0 = ctx@;
        let ghost mode = ctx@.field_path_mode;
        let ghost d = dstream(self@, other@, mode);
        match (self, other) {
            (Node::Leaf(x), Node::Leaf(y)) => {
                if !leaf_eq(x, y) {
                    ctx.save_value(node_clone(other));
                    proof {
                        assert(d =~= seq![CmdV::Value(other@)]);
                        assert(ctx0.pending + d =~= ctx0.pending + seq![CmdV::Value(other@)]);
                    }
                    true
                } else {
                    false
                }
            },
            (Node::Opaque(_), Node::Opaque(_)) => {
                if !node_eq(self, other) {
                    ctx.save_value(node_clone(other));
                    proof {
                        assert(d =~= seq![CmdV::Value(other@)]);
                        assert(ctx0.pending + d =~= ctx0.pending + seq![CmdV::Value(other@)]);
                    }
                    true
                } else {
                    false
                }
            },
            (Node::Record(k, f1), Node::Record(_, f2)) => diff_fields(*k, f1, f2, ctx),
            (Node::Variant(n1, k1, f1), Node::Variant(n2, _, f2)) => {
                if *n1 == *n2 {
                    let ghost fs = fields_stream(
                        *k1,
                        crate::value::fields_view(f1@),
                        crate::value::fields_view(f2@),
                        mode,
                        0,
                    );
                    ctx.push_variant(n1.clone());
                    let fields_changed = diff_fields(*k1, f1, f2, ctx);
                    proof {
                        if fields_changed {
                            assert(ctx@.pending.len() == 0);
                            assert(!ctx@.implicit_exit_written);
                        }
                    }
                    ctx.pop_path_element();
                    proof {
                        if fields_changed {
                            assert(d =~= seq![CmdV::Enter(PathElV::EnumVariant(n1@))] + fs + seq![
                                CmdV::Exit,
                            ]);
                            crate::counting_serializer::lemma_sink_after_concat(
                                ctx0.sink,
                                ctx0.pending + (seq![CmdV::Enter(PathElV::EnumVariant(n1@))] + fs),
                                seq![CmdV::Exit],
                            );
                            assert((ctx0.pending + (seq![CmdV::Enter(PathElV::EnumVariant(n1@))]
                                + fs)) + seq![CmdV::Exit] =~= ctx0.pending + d);
                            assert(ctx@ =~= (DiffContextV {
                                pending: Seq::empty(),
                                sink: sink_after(ctx0.sink, ctx0.pending + d),
                                implicit_exit_written: false,
                                field_path_mode: mode,
                                has_changes: true,
                            }));
                        } else {
                            assert(ctx@ =~= ctx0);
                        }
                    }
                    fields_changed
                } else {
                    ctx.push_full_variant();
                    ctx.save_value(node_clone(other));
                    ctx.pop_path_element();
                    proof {
                        assert(d =~= seq![CmdV::Enter(PathElV::FullEnumVariant), CmdV::Value(
                            other@,
                        )]);
                        assert((ctx0.pending.push(CmdV::Enter(PathElV::FullEnumVariant))) + seq![
                            CmdV::Value(other@),
                        ] =~= ctx0.pending + d);
                    }
                    true
                }
            },
            (Node::List(xs), Node::List(ys)) => diff_list(xs, ys, ctx),
            (Node::Opt(xs), Node::Opt(ys)) => diff_list(xs, ys, ctx),
            (Node::Array(xs), Node::Array(ys)) => diff_array(xs, ys, ctx),
            (Node::Dict(ea), Node::Dict(eb)) => diff_dict(ea, eb, ctx),
            _ => false,
        }
    }
}

/// One field of a record diff: push the field's path, recurse (or compare
/// wholesale for an opaque field), pop.  Emits the field's contribution.
fn diff_field_step(
    kind: RecordKind,
    f1: &Vec<FieldEntry>,
    f2: &Vec<FieldEntry>,
    i: usize,
    ctx: &mut DiffContext,
) -> (changed: bool)
    requires
        i < f1@.len(),
        i < f2@.len(),
        can_emit_stream(
            old(ctx)@.sink,
            old(ctx)@.pending,
            field_contrib(
                kind,
                crate::value::fields_view(f1@),
                crate::value::fields_view(f2@),
                old(ctx)@.field_path_mode,
                i as int,
            ),
        ),
    ensures
        ({
            let piece = field_contrib(
                kind,
                crate::value::fields_view(f1@),
                crate::value::fields_view(f2@),
                old(ctx)@.field_path_mode,
                i as int,
            );
            &&& changed == (piece.len() > 0)
            &&& ctx_emitted(old(ctx)@, final(ctx)@, piece, false)
        }),
    decreases f1, 3int, 0int,
{
    let ghost ctx0 = ctx@;
    let ghost mode = ctx@.field_path_mode;
    let ghost vf1 = crate::value::fields_view(f1@);
    let ghost vf2 = crate::value::fields_view(f2@);
    let ghost piece = field_contrib(kind, vf1, vf2, mode, i as int);
    proof {
        crate::value::lemma_fields_view(f1@);
        crate::value::lemma_fields_view(f2@);
    }
    let fmode = f1[i].mode;
    if fmode == FieldMode::Skip {
        return false;
    }
    match kind {
        RecordKind::Named => {
            let m = ctx.field_path_mode();
            match m {
                FieldPathMode::Name => ctx.push_field(f1[i].name.clone()),
                FieldPathMode::Index => ctx.push_field_index(#[verifier::truncate] (i as u16)),
            }
        },
        RecordKind::Positional => ctx.push_field_index(#[verifier::truncate] (i as u16)),
        RecordKind::Tuple => ctx.push_field(f1[i].name.clone()),
    }
    let ghost path = field_path(kind, vf1[i as int], i as int, mode);
    proof {
        assert(ctx@.pending =~= ctx0.pending.push(CmdV::Enter(path)));
    }
    if fmode == FieldMode::Opaque {
        let changed = !node_eq(&f1[i].value, &f2[i].value);
        if changed {
            proof {
                assert(piece =~= seq![CmdV::Enter(path), CmdV::Value(vf2[i as int].value)]);
            }
            ctx.save_value(node_clone(&f2[i].value));
        }
        ctx.pop_path_element();
        proof {
            if changed {
                assert((ctx0.pending.push(CmdV::Enter(path))) + seq![
                    CmdV::Value(vf2[i as int].value),
                ] =~= ctx0.pending + piece);
                assert(ctx@ =~= (DiffContextV {
                    pending: Seq::empty(),
                    sink: sink_after(ctx0.sink, ctx0.pending + piece),
                    implicit_exit_written: false,
                    field_path_mode: mode,
                    has_changes: true,
                }));
            } else {
                assert(piece =~= Seq::<CmdV>::empty());
                assert(ctx@ =~= ctx0);
            }
        }
        changed
    } else {
        let ghost child_d = dstream(vf1[i as int].value, vf2[i as int].value, mode);
        let ghost child_c = cstream(vf1[i as int].value, vf2[i as int].value, mode);
        proof {
            if child_d.len() > 0 {
                assert(piece =~= seq![CmdV::Enter(path)] + child_c);
            }
        }
        let changed = f1[i].value.diff(ctx, &f2[i].value);
        ctx.pop_path_element();
        proof {
            if changed {
                if self_closing(vf1[i as int].value) {
                    assert(child_c == child_d);
                    assert((ctx0.pending.push(CmdV::Enter(path))) + child_d =~= ctx0.pending
                        + piece);
                } else {
                    crate::counting_serializer::lemma_sink_after_concat(
                        ctx0.sink,
                        (ctx0.pending.push(CmdV::Enter(path))) + child_d,
                        seq![CmdV::Exit],
                    );
                    assert(child_c =~= child_d + seq![CmdV::Exit]);
                    assert(((ctx0.pending.push(CmdV::Enter(path))) + child_d) + seq![CmdV::Exit]
                        =~= ctx0.pending + piece);
                }
                assert(ctx@ =~= (DiffContextV {
                    pending: Seq::empty(),
                    sink: sink_after(ctx0.sink, ctx0.pending + piece),
                    implicit_exit_written: false,
                    field_path_mode: mode,
                    has_changes: true,
                }));
            } else {
                assert(piece =~= Seq::<CmdV>::empty());
                assert(ctx@.pending =~= ctx0.pending);
                assert(ctx@ =~= ctx0);
            }
        }
        changed
    }
}

/// Diff the paired fields of two records (or variant payloads) of the
/// same shape, in field order.
pub fn diff_fields(
    kind: RecordKind,
    f1: &Vec<FieldEntry>,
    f2: &Vec<FieldEntry>,
    ctx: &mut DiffContext,
) -> (changed: bool)
    requires
        can_emit_stream(
            old(ctx)@.sink,
            old(ctx)@.pending,
            fields_stream(
                kind,
                crate::value::fields_view(f1@),
                crate::value::fields_view(f2@),
                old(ctx)@.field_path_mode,
                0,
            ),
        ),
    ensures
        ({
            let fs = fields_stream(
                kind,
                crate::value::fields_view(f1@),
                crate::value::fields_view(f2@),
                old(ctx)@.field_path_mode,
                0,
            );
            &&& changed == (fs.len() > 0)
            &&& ctx_emitted(old(ctx)@, final(ctx)@, fs, false)
        }),
    decreases f1, 4int, 0int,
{
    let ghost ctx0 = ctx@;
    let ghost mode = ctx@.field_path_mode;
    let ghost vf1 = crate::value::fields_view(f1@);
    let ghost vf2 = crate::value::fields_view(f2@);
    let ghost fs = fields_stream(kind, vf1, vf2, mode, 0);
    proof {
        crate::value::lemma_fields_view(f1@);
        crate::value::lemma_fields_view(f2@);
    }
    let n: usize = if f1.len() <= f2.len() {
        f1.len()
    } else {
        f2.len()
    };
    let mut changed: bool = false;
    let ghost mut emitted: Seq<CmdV> = Seq::empty();
    let mut i: usize = 0;
    while i < n
        invariant
            i <= n,
            n as int == (if vf1.len() <= vf2.len() {
                vf1.len() as int
            } else {
                vf2.len() as int
            }),
            vf1 == crate::value::fields_view(f1@),
            vf2 == crate::value::fields_view(f2@),
            vf1.len() == f1@.len(),
            vf2.len() == f2@.len(),
            fs == fields_stream(kind, vf1, vf2, mode, 0),
            fs =~= emitted + fields_stream(kind, vf1, vf2, mode, i as int),
            changed == (emitted.len() > 0),
            ctx@.field_path_mode == mode,
            fs.len() > 0 ==> sink_can_emit(ctx0.sink, ctx0.pending.len() + fs.len() as int),
            ctx_emitted(ctx0, ctx@, emitted, false),
        decreases n - i,
    {
        let ghost piece = field_contrib(kind, vf1, vf2, mode, i as int);
        proof {
            assert(fields_stream(kind, vf1, vf2, mode, i as int) == piece + fields_stream(
                kind,
                vf1,
                vf2,
                mode,
                i + 1int,
            ));
            assert(fs =~= (emitted + piece) + fields_stream(kind, vf1, vf2, mode, i + 1int));
            assert(fs.len() >= emitted.len() + piece.len());
            if changed {
                crate::counting_serializer::lemma_sink_after_concat(
                    ctx0.sink,
                    ctx0.pending + emitted,
                    piece,
                );
                assert((ctx0.pending + emitted) + piece =~= ctx0.pending + (emitted + piece));
            }
        }
        let step_changed = diff_field_step(kind, f1, f2, i, ctx);
        proof {
            if step_changed {
                emitted = emitted + piece;
            } else {
                assert(piece.len() == 0);
                assert(emitted + fields_stream(kind, vf1, vf2, mode, i + 1int) =~= fs);
            }
        }
        if step_changed {
            changed = true;
        }
        i = i + 1;
    }
    proof {
        assert(fields_stream(kind, vf1, vf2, mode, n as int).len() == 0);
        assert(fs =~= emitted);
    }
    changed
}

/// One paired position of a sequence diff: push the index, recurse, pop.
fn diff_lock_step(xs: &Vec<Node>, ys: &Vec<Node>, i: usize, ctx: &mut DiffContext) -> (changed:
    bool)
    requires
        i < xs@.len(),
        i < ys@.len(),
        can_emit_stream(
            old(ctx)@.sink,
            old(ctx)@.pending,
            lock_contrib(
                crate::value::nodes_view(xs@),
                crate::value::nodes_view(ys@),
                old(ctx)@.field_path_mode,
                i as int,
            ),
        ),
    ensures
        ({
            let piece = lock_contrib(
                crate::value::nodes_view(xs@),
                crate::value::nodes_view(ys@),
                old(ctx)@.field_path_mode,
                i as int,
            );
            &&& changed == (piece.len() > 0)
            &&& ctx_emitted(old(ctx)@, final(ctx)@, piece, false)
        }),
    decreases xs, 3int, 0int,
{
    let ghost ctx0 = ctx@;
    let ghost mode = ctx@.field_path_mode;
    let ghost vxs = crate::value::nodes_view(xs@);
    let ghost vys = crate::value::nodes_view(ys@);
    let ghost piece = lock_contrib(vxs, vys, mode, i as int);
    proof {
        crate::value::lemma_nodes_view(xs@);
        crate::value::lemma_nodes_view(ys@);
    }
    ctx.push_collection_index(i);
    let ghost path = PathElV::CollectionIndex(i);
    proof {
        assert(ctx@.pending =~= ctx0.pending.push(CmdV::Enter(path)));
    }
    let ghost child_d = dstream(vxs[i as int], vys[i as int], mode);
    let ghost child_c = cstream(vxs[i as int], vys[i as int], mode);
    proof {
        if child_d.len() > 0 {
            assert(piece =~= seq![CmdV::Enter(path)] + child_c);
        }
    }
    let changed = xs[i].diff(ctx, &ys[i]);
    ctx.pop_path_element();
    proof {
        if changed {
            if self_closing(vxs[i as int]) {
                assert(child_c == child_d);
                assert((ctx0.pending.push(CmdV::Enter(path))) + child_d =~= ctx0.pending + piece);
            } else {
                crate::counting_serializer::lemma_sink_after_concat(
                    ctx0.sink,
                    (ctx0.pending.push(CmdV::Enter(path))) + child_d,
                    seq![CmdV::Exit],
                );
                assert(child_c =~= child_d + seq![CmdV::Exit]);
                assert(((ctx0.pending.push(CmdV::Enter(path))) + child_d) + seq![CmdV::Exit]
                    =~= ctx0.pending + piece);
            }
            assert(ctx@ =~= (DiffContextV {
                pending: Seq::empty(),
                sink: sink_after(ctx0.sink, ctx0.pending + piece),
                implicit_exit_written: false,
                field_path_mode: mode,
                has_changes: true,
            }));
        } else {
            assert(piece =~= Seq::<CmdV>::empty());
            assert(ctx@.pending =~= ctx0.pending);
            assert(ctx@ =~= ctx0);
        }
    }
    changed
}

/// The lockstep phase shared by sequences, optionals and arrays: diff the
/// paired positions of the two sides in order.
fn diff_lockstep(xs: &Vec<Node>, ys: &Vec<Node>, ctx: &mut DiffContext) -> (changed: bool)
    requires
        can_emit_stream(
            old(ctx)@.sink,
            old(ctx)@.pending,
            lock_stream(
                crate::value::nodes_view(xs@),
                crate::value::nodes_view(ys@),
                old(ctx)@.field_path_mode,
                0,
            ),
        ),
    ensures
        ({
            let locks = lock_stream(
                crate::value::nodes_view(xs@),
                crate::value::nodes_view(ys@),
                old(ctx)@.field_path_mode,
                0,
            );
            &&& changed == (locks.len() > 0)
            &&& ctx_emitted(old(ctx)@, final(ctx)@, locks, false)
        }),
    decreases xs, 4int, 0int,
{
    let ghost ctx0 = ctx@;
    let ghost mode = ctx@.field_path_mode;
    let ghost vxs = crate::value::nodes_view(xs@);
    let ghost vys = crate::value::nodes_view(ys@);
    let ghost locks = lock_stream(vxs, vys, mode, 0);
    proof {
        crate::value::lemma_nodes_view(xs@);
        crate::value::lemma_nodes_view(ys@);
    }
    let n: usize = if xs.len() <= ys.len() {
        xs.len()
    } else {
        ys.len()
    };
    let mut changed: bool = false;
    let ghost mut emitted: Seq<CmdV> = Seq::empty();
    let mut i: usize = 0;
    while i < n
        invariant
            i <= n,
            n as int == (if vxs.len() <= vys.len() {
                vxs.len() as int
            } else {
                vys.len() as int
            }),
            vxs == crate::value::nodes_view(xs@),
            vys == crate::value::nodes_view(ys@),
            vxs.len() == xs@.len(),
            vys.len() == ys@.len(),
            locks == lock_stream(vxs, vys, mode, 0),
            locks =~= emitted + lock_stream(vxs, vys, mode, i as int),
            changed == (emitted.len() > 0),
            ctx@.field_path_mode == mode,
            locks.len() > 0 ==> sink_can_emit(
                ctx0.sink,
                ctx0.pending.len() + locks.len() as int,
            ),
            ctx_emitted(ctx0, ctx@, emitted, false),
        decreases n - i,
    {
        let ghost piece = lock_contrib(vxs, vys, mode, i as int);
        proof {
            assert(lock_stream(vxs, vys, mode, i as int) == piece + lock_stream(
                vxs,
                vys,
                mode,
                i + 1int,
            ));
            assert(locks =~= (emitted + piece) + lock_stream(vxs, vys, mode, i + 1int));
            assert(locks.len() >= emitted.len() + piece.len());
            if changed {
                crate::counting_serializer::lemma_sink_after_concat(
                    ctx0.sink,
                    ctx0.pending + emitted,
                    piece,
                );
                assert((ctx0.pending + emitted) + piece =~= ctx0.pending + (emitted + piece));
            }
        }
        let step_changed = diff_lock_step(xs, ys, i, ctx);
        proof {
            if step_changed {
                emitted = emitted + piece;
            } else {
                assert(piece.len() == 0);
                assert(emitted + lock_stream(vxs, vys, mode, i + 1int) =~= locks);
            }
        }
        if step_changed {
            changed = true;
        }
        i = i + 1;
    }
    proof {
        assert(lock_stream(vxs, vys, mode, n as int).len() == 0);
        assert(locks =~= emitted);
    }
    changed
}

/// Diff two ordered sequences (or optionals, held as sequences of length
/// at most one): lockstep positions, then remove or append at the tail.
#[verifier::rlimit(60)]
pub fn diff_list(xs: &Vec<Node>, ys: &Vec<Node>, ctx: &mut DiffContext) -> (changed: bool)
    requires
        can_emit_stream(
            old(ctx)@.sink,
            old(ctx)@.pending,
            list_stream(
                crate::value::nodes_view(xs@),
                crate::value::nodes_view(ys@),
                old(ctx)@.field_path_mode,
            ),
        ),
    ensures
        ({
            let d = list_stream(
                crate::value::nodes_view(xs@),
                crate::value::nodes_view(ys@),
                old(ctx)@.field_path_mode,
            );
            &&& changed == (d.len() > 0)
            &&& ctx_emitted(old(ctx)@, final(ctx)@, d, true)
        }),
    decreases xs, 5int, 0int,
{
    let ghost ctx0 = ctx@;
    let ghost mode = ctx@.field_path_mode;
    let ghost vxs = crate::value::nodes_view(xs@);
    let ghost vys = crate::value::nodes_view(ys@);
    let ghost d = list_stream(vxs, vys, mode);
    let ghost locks = lock_stream(vxs, vys, mode, 0);
    proof {
        crate::value::lemma_nodes_view(xs@);
        crate::value::lemma_nodes_view(ys@);
    }
    let mut changed = diff_lockstep(xs, ys, ctx);
    if xs.len() > ys.len() {
        let num_to_remove: usize = xs.len() - ys.len();
        proof {
            assert(d =~= locks + seq![CmdV::Remove((vxs.len() - vys.len()) as usize)]);
            if changed {
                crate::counting_serializer::lemma_sink_after_concat(
                    ctx0.sink,
                    ctx0.pending + locks,
                    seq![CmdV::Remove((vxs.len() - vys.len()) as usize)],
                );
                assert((ctx0.pending + locks) + seq![CmdV::Remove((vxs.len() - vys.len()) as usize)]
                    =~= ctx0.pending + d);
            } else {
                assert(locks.len() == 0);
                assert(ctx0.pending + locks =~= ctx0.pending);
                assert(ctx0.pending + d =~= ctx0.pending + seq![CmdV::Remove(
                    (vxs.len() - vys.len()) as usize,
                )]);
            }
        }
        ctx.save_command(DiffCommandValue::Remove(num_to_remove), true, true);
        changed = true;
    } else if ys.len() > xs.len() {
        let ghost adds = adds_stream(vys, vxs.len() as int);
        let mut j: usize = xs.len();
        let ghost mut emitted_adds: Seq<CmdV> = Seq::empty();
        proof {
            assert(d =~= (locks + adds_stream(vys, vxs.len() as int)) + seq![CmdV::Exit]);
            assert(d.len() > 0);
            assert(locks + emitted_adds =~= locks);
            assert(adds_stream(vys, vxs.len() as int) =~= emitted_adds + adds_stream(
                vys,
                vxs.len() as int,
            ));
        }
        while j < ys.len()
            invariant
                vxs.len() <= j <= ys@.len(),
                vys == crate::value::nodes_view(ys@),
                vys.len() == ys@.len(),
                d == list_stream(vxs, vys, mode),
                locks == lock_stream(vxs, vys, mode, 0),
                d =~= (locks + adds_stream(vys, vxs.len() as int)) + seq![CmdV::Exit],
                adds_stream(vys, vxs.len() as int) =~= emitted_adds + adds_stream(vys, j as int),
                ctx@.field_path_mode == mode,
                sink_can_emit(ctx0.sink, ctx0.pending.len() + d.len() as int),
                ctx_emitted(ctx0, ctx@, locks + emitted_adds, false)
                    || (emitted_adds.len() > 0 && ctx_emitted(ctx0, ctx@, locks + emitted_adds, true)),
            decreases ys@.len() - j,
        {
            let ghost pair = seq![CmdV::Enter(PathElV::AddToCollection), CmdV::Value(vys[j as int])];
            let ghost s_before = ctx@.sink;
            let ghost p_before = ctx@.pending;
            proof {
                assert(adds_stream(vys, j as int) == pair + adds_stream(vys, j + 1int));
                assert(adds_stream(vys, vxs.len() as int) =~= (emitted_adds + pair)
                    + adds_stream(vys, j + 1int));
            }
            ctx.save_command(
                DiffCommandValue::Enter(DiffPathElementValue::AddToCollection),
                false,
                true,
            );
            ctx.save_command(DiffCommandValue::Value(node_clone(&ys[j])), true, true);
            proof {
                let prev_adds = emitted_adds;
                emitted_adds = emitted_adds + pair;
                crate::value::lemma_nodes_view(ys@);
                assert(vys[j as int] == crate::value::node_view(ys@[j as int]));
                assert(Seq::<CmdV>::empty() + seq![CmdV::Value(vys[j as int])] =~= seq![
                    CmdV::Value(vys[j as int]),
                ]);
                crate::counting_serializer::lemma_sink_after_concat(
                    s_before,
                    p_before + seq![CmdV::Enter(PathElV::AddToCollection)],
                    seq![CmdV::Value(vys[j as int])],
                );
                assert(ctx@.sink == sink_after(
                    s_before,
                    (p_before + seq![CmdV::Enter(PathElV::AddToCollection)]) + seq![
                        CmdV::Value(vys[j as int]),
                    ],
                ));
                if (locks + prev_adds).len() == 0 {
                    assert(s_before == ctx0.sink && p_before == ctx0.pending);
                    assert((p_before + seq![CmdV::Enter(PathElV::AddToCollection)]) + seq![
                        CmdV::Value(vys[j as int]),
                    ] =~= ctx0.pending + (locks + emitted_adds));
                } else {
                    assert(s_before == sink_after(ctx0.sink, ctx0.pending + (locks + prev_adds))
                        && p_before == Seq::<CmdV>::empty());
                    crate::counting_serializer::lemma_sink_after_concat(
                        ctx0.sink,
                        ctx0.pending + (locks + prev_adds),
                        (p_before + seq![CmdV::Enter(PathElV::AddToCollection)]) + seq![
                            CmdV::Value(vys[j as int]),
                        ],
                    );
                    assert((ctx0.pending + (locks + prev_adds)) + ((p_before + seq![
                        CmdV::Enter(PathElV::AddToCollection),
                    ]) + seq![CmdV::Value(vys[j as int])]) =~= ctx0.pending + (locks
                        + emitted_adds));
                }
                assert(ctx@.sink == sink_after(ctx0.sink, ctx0.pending + (locks + emitted_adds)));
            }
            j = j + 1;
        }
        proof {
            assert(adds_stream(vys, ys@.len() as int).len() == 0);
            assert(adds_stream(vys, vxs.len() as int) =~= emitted_adds);
            assert(emitted_adds.len() > 0);
            crate::counting_serializer::lemma_sink_after_concat(
                ctx0.sink,
                ctx0.pending + (locks + emitted_adds),
                seq![CmdV::Exit],
            );
            assert((ctx0.pending + (locks + emitted_adds)) + seq![CmdV::Exit] =~= ctx0.pending + d);
        }
        ctx.save_exit();
        changed = true;
    } else {
        if changed {
            proof {
                assert(d =~= locks + seq![CmdV::Exit]);
                crate::counting_serializer::lemma_sink_after_concat(
                    ctx0.sink,
                    ctx0.pending + locks,
                    seq![CmdV::Exit],
                );
                assert((ctx0.pending + locks) + seq![CmdV::Exit] =~= ctx0.pending + d);
            }
            ctx.save_exit();
        } else {
            proof {
                assert(d.len() == 0);
            }
        }
    }
    changed
}

/// Diff two fixed-length arrays: lockstep positions closed by an `Exit`.
pub fn diff_array(xs: &Vec<Node>, ys: &Vec<Node>, ctx: &mut DiffContext) -> (changed: bool)
    requires
        can_emit_stream(
            old(ctx)@.sink,
            old(ctx)@.pending,
            array_stream(
                crate::value::nodes_view(xs@),
                crate::value::nodes_view(ys@),
                old(ctx)@.field_path_mode,
            ),
        ),
    ensures
        ({
            let d = array_stream(
                crate::value::nodes_view(xs@),
                crate::value::nodes_view(ys@),
                old(ctx)@.field_path_mode,
            );
            &&& changed == (d.len() > 0)
            &&& ctx_emitted(old(ctx)@, final(ctx)@, d, true)
        }),
    decreases xs, 5int, 0int,
{
    let ghost ctx0 = ctx@;
    let ghost mode = ctx@.field_path_mode;
    let ghost vxs = crate::value::nodes_view(xs@);
    let ghost vys = crate::value::nodes_view(ys@);
    let ghost d = array_stream(vxs, vys, mode);
    let ghost locks = lock_stream(vxs, vys, mode, 0);
    let changed = diff_lockstep(xs, ys, ctx);
    if changed {
        proof {
            assert(d =~= locks + seq![CmdV::Exit]);
            crate::counting_serializer::lemma_sink_after_concat(
                ctx0.sink,
                ctx0.pending + locks,
                seq![CmdV::Exit],
            );
            assert((ctx0.pending + locks) + seq![CmdV::Exit] =~= ctx0.pending + d);
        }
        ctx.save_exit();
    }
    changed
}

/// Find the first entry holding `key`, if any.
pub fn dict_find(entries: &Vec<MapEntry>, key: &Leaf) -> (r: Option<usize>)
    ensures
        ({
            let s = crate::value::entries_view(entries@);
            match r {
                Option::Some(i) => dict_find_index(s, key@) == i as int,
                Option::None => dict_find_index(s, key@) < 0,
            }
        }),
{
    let ghost s = crate::value::entries_view(entries@);
    proof {
        crate::value::lemma_entries_view(entries@);
        lemma_dict_find_index(s, key@);
    }
    let mut i: usize = 0;
    while i < entries.len()
        invariant
            i <= entries@.len(),
            s == crate::value::entries_view(entries@),
            s.len() == entries@.len(),
            forall|j: int| #![auto] 0 <= j < s.len() ==> s[j].key == entries@[j].key@,
            forall|j: int| #![auto] 0 <= j < i ==> s[j].key != key@,
            dict_find_index(s, key@) < s.len(),
            dict_find_index(s, key@) >= 0 ==> s[dict_find_index(s, key@)].key == key@,
            forall|j: int|
                0 <= j < s.len() && (dict_find_index(s, key@) < 0 || j < dict_find_index(s, key@))
                    ==> s[j].key != key@,
        decreases entries@.len() - i,
    {
        if leaf_eq(&entries[i].key, key) {
            proof {
                assert(s[i as int].key == key@);
                let fi = dict_find_index(s, key@);
                if fi < 0 {
                    assert(s[i as int].key != key@);
                } else if fi < i as int {
                    assert(s[fi].key != key@);
                } else if fi > i as int {
                    assert(s[i as int].key != key@);
                }
                assert(fi == i as int);
            }
            return Some(i);
        }
        i = i + 1;
    }
    proof {
        assert(dict_find_index(s, key@) < 0);
    }
    None
}

/// One old-side entry of a map diff: descend into a shared key's value,
/// or remove a key gone from the new side.
fn diff_dict_update_step(
    ea: &Vec<MapEntry>,
    eb: &Vec<MapEntry>,
    i: usize,
    ctx: &mut DiffContext,
) -> (changed: bool)
    requires
        i < ea@.len(),
        can_emit_stream(
            old(ctx)@.sink,
            old(ctx)@.pending,
            dict_update_contrib(
                crate::value::entries_view(ea@),
                crate::value::entries_view(eb@),
                old(ctx)@.field_path_mode,
                i as int,
            ),
        ),
    ensures
        ({
            let piece = dict_update_contrib(
                crate::value::entries_view(ea@),
                crate::value::entries_view(eb@),
                old(ctx)@.field_path_mode,
                i as int,
            );
            &&& changed == (piece.len() > 0)
            &&& (ctx_emitted(old(ctx)@, final(ctx)@, piece, false) || ctx_emitted(
                old(ctx)@,
                final(ctx)@,
                piece,
                true,
            ))
        }),
    decreases ea, 3int, 0int,
{
    let ghost ctx0 = ctx@;
    let ghost mode = ctx@.field_path_mode;
    let ghost vea = crate::value::entries_view(ea@);
    let ghost veb = crate::value::entries_view(eb@);
    let ghost piece = dict_update_contrib(vea, veb, mode, i as int);
    proof {
        crate::value::lemma_entries_view(ea@);
        crate::value::lemma_entries_view(eb@);
        lemma_dict_find_index(veb, vea[i as int].key);
    }
    match dict_find(eb, &ea[i].key) {
        Option::Some(idx) => {
            let ghost vb = veb[idx as int].value;
            proof {
                assert(dict_lookup(veb, vea[i as int].key) == Option::Some(vb));
            }
            ctx.push_field_element(leaf_clone(&ea[i].key));
            let ghost path_cmd = CmdV::EnterKey(vea[i as int].key);
            proof {
                assert(ctx@.pending =~= ctx0.pending.push(path_cmd));
            }
            let ghost child_d = dstream(vea[i as int].value, vb, mode);
            let ghost child_c = cstream(vea[i as int].value, vb, mode);
            proof {
                if child_d.len() > 0 {
                    assert(piece =~= seq![path_cmd] + child_c);
                }
            }
            let changed = ea[i].value.diff(ctx, &eb[idx].value);
            ctx.pop_path_element();
            proof {
                if changed {
                    if self_closing(vea[i as int].value) {
                        assert(child_c == child_d);
                        assert((ctx0.pending.push(path_cmd)) + child_d =~= ctx0.pending + piece);
                    } else {
                        crate::counting_serializer::lemma_sink_after_concat(
                            ctx0.sink,
                            (ctx0.pending.push(path_cmd)) + child_d,
                            seq![CmdV::Exit],
                        );
                        assert(child_c =~= child_d + seq![CmdV::Exit]);
                        assert(((ctx0.pending.push(path_cmd)) + child_d) + seq![CmdV::Exit]
                            =~= ctx0.pending + piece);
                    }
                    assert(ctx@ =~= (DiffContextV {
                        pending: Seq::empty(),
                        sink: sink_after(ctx0.sink, ctx0.pending + piece),
                        implicit_exit_written: false,
                        field_path_mode: mode,
                        has_changes: true,
                    }));
                } else {
                    assert(piece =~= Seq::<CmdV>::empty());
                    assert(ctx@.pending =~= ctx0.pending);
                    assert(ctx@ =~= ctx0);
                }
            }
            changed
        },
        Option::None => {
            proof {
                assert(dict_lookup(veb, vea[i as int].key) is None);
                assert(piece =~= seq![CmdV::RemoveKey(vea[i as int].key)]);
                assert(ctx0.pending + piece =~= ctx0.pending + seq![CmdV::RemoveKey(
                    vea[i as int].key,
                )]);
            }
            ctx.save_command(DiffCommandValue::RemoveKey(leaf_clone(&ea[i].key)), true, true);
            true
        },
    }
}

/// Diff two keyed maps: shared keys descend, missing keys are removed,
/// new keys are added with their values, closed by an `Exit`.
pub fn diff_dict(ea: &Vec<MapEntry>, eb: &Vec<MapEntry>, ctx: &mut DiffContext) -> (changed: bool)
    requires
        can_emit_stream(
            old(ctx)@.sink,
            old(ctx)@.pending,
            dict_stream(
                crate::value::entries_view(ea@),
                crate::value::entries_view(eb@),
                old(ctx)@.field_path_mode,
            ),
        ),
    ensures
        ({
            let d = dict_stream(
                crate::value::entries_view(ea@),
                crate::value::entries_view(eb@),
                old(ctx)@.field_path_mode,
            );
            &&& changed == (d.len() > 0)
            &&& ctx_emitted(old(ctx)@, final(ctx)@, d, true)
        }),
    decreases ea, 5int, 0int,
{
    let ghost ctx0 = ctx@;
    let ghost mode = ctx@.field_path_mode;
    let ghost vea = crate::value::entries_view(ea@);
    let ghost veb = crate::value::entries_view(eb@);
    let ghost d = dict_stream(vea, veb, mode);
    let ghost ups = dict_updates(vea, veb, mode, 0);
    let ghost adds = dict_adds(vea, veb, 0);
    proof {
        crate::value::lemma_entries_view(ea@);
        crate::value::lemma_entries_view(eb@);
        if (ups + adds).len() > 0 {
            assert(d =~= (ups + adds) + seq![CmdV::Exit]);
        }
    }
    let mut changed: bool = false;
    let ghost mut emitted: Seq<CmdV> = Seq::empty();
    let mut i: usize = 0;
    while i < ea.len()
        invariant
            i <= ea@.len(),
            vea == crate::value::entries_view(ea@),
            veb == crate::value::entries_view(eb@),
            vea.len() == ea@.len(),
            d == dict_stream(vea, veb, mode),
            ups == dict_updates(vea, veb, mode, 0),
            adds == dict_adds(vea, veb, 0),
            ups =~= emitted + dict_updates(vea, veb, mode, i as int),
            changed == (emitted.len() > 0),
            ctx@.field_path_mode == mode,
            d.len() > 0 ==> sink_can_emit(ctx0.sink, ctx0.pending.len() + d.len() as int),
            d.len() >= ups.len() + adds.len(),
            ctx_emitted(ctx0, ctx@, emitted, false) || ctx_emitted(ctx0, ctx@, emitted, true),
        decreases ea@.len() - i,
    {
        let ghost piece = dict_update_contrib(vea, veb, mode, i as int);
        proof {
            assert(dict_updates(vea, veb, mode, i as int) == piece + dict_updates(
                vea,
                veb,
                mode,
                i + 1int,
            ));
            assert(ups =~= (emitted + piece) + dict_updates(vea, veb, mode, i + 1int));
            assert(ups.len() >= emitted.len() + piece.len());
            if changed {
                crate::counting_serializer::lemma_sink_after_concat(
                    ctx0.sink,
                    ctx0.pending + emitted,
                    piece,
                );
                assert((ctx0.pending + emitted) + piece =~= ctx0.pending + (emitted + piece));
            }
        }
        let step_changed = diff_dict_update_step(ea, eb, i, ctx);
        proof {
            if step_changed {
                emitted = emitted + piece;
            } else {
                assert(piece.len() == 0);
                assert(emitted + dict_updates(vea, veb, mode, i + 1int) =~= ups);
            }
        }
        if step_changed {
            changed = true;
        }
        i = i + 1;
    }
    proof {
        assert(dict_updates(vea, veb, mode, ea@.len() as int).len() == 0);
        assert(ups =~= emitted);
    }
    let mut j: usize = 0;
    let ghost mut emitted_adds: Seq<CmdV> = Seq::empty();
    proof {
        assert(ups + emitted_adds =~= ups);
        assert(adds =~= emitted_adds + dict_adds(vea, veb, 0));
    }
    while j < eb.len()
        invariant
            j <= eb@.len(),
            vea == crate::value::entries_view(ea@),
            veb == crate::value::entries_view(eb@),
            veb.len() == eb@.len(),
            d == dict_stream(vea, veb, mode),
            ups == dict_updates(vea, veb, mode, 0),
            adds == dict_adds(vea, veb, 0),
            adds =~= emitted_adds + dict_adds(vea, veb, j as int),
            changed == (ups.len() > 0 || emitted_adds.len() > 0),
            ctx@.field_path_mode == mode,
            d.len() > 0 ==> sink_can_emit(ctx0.sink, ctx0.pending.len() + d.len() as int),
            d.len() >= ups.len() + adds.len(),
            ctx_emitted(ctx0, ctx@, ups + emitted_adds, false) || ctx_emitted(
                ctx0,
                ctx@,
                ups + emitted_adds,
                true,
            ),
        decreases eb@.len() - j,
    {
        let ghost piece = (if dict_has(vea, veb[j as int].key) {
            Seq::<CmdV>::empty()
        } else {
            seq![CmdV::AddKey(veb[j as int].key), CmdV::Value(veb[j as int].value)]
        });
        proof {
            crate::value::lemma_entries_view(ea@);
            crate::value::lemma_entries_view(eb@);
            assert(veb[j as int].key == eb@[j as int].key@);
            assert(dict_adds(vea, veb, j as int) == piece + dict_adds(vea, veb, j + 1int));
            assert(adds =~= (emitted_adds + piece) + dict_adds(vea, veb, j + 1int));
            assert(adds.len() >= emitted_adds.len() + piece.len());
            lemma_dict_find_index(vea, veb[j as int].key);
        }
        let present = match dict_find(ea, &eb[j].key) {
            Option::Some(_) => true,
            Option::None => false,
        };
        if !present {
            proof {
                assert(!dict_has(vea, veb[j as int].key));
            }
            let ghost s_before = ctx@.sink;
            let ghost p_before = ctx@.pending;
            ctx.save_command(DiffCommandValue::AddKey(leaf_clone(&eb[j].key)), true, true);
            ctx.save_command(DiffCommandValue::Value(node_clone(&eb[j].value)), true, true);
            changed = true;
            proof {
                let prev_adds = emitted_adds;
                emitted_adds = emitted_adds + piece;
                crate::value::lemma_entries_view(eb@);
                assert(veb[j as int].value == crate::value::node_view(eb@[j as int].value));
                assert(veb[j as int].key == eb@[j as int].key@);
                assert(Seq::<CmdV>::empty() + seq![CmdV::Value(veb[j as int].value)] =~= seq![
                    CmdV::Value(veb[j as int].value),
                ]);
                crate::counting_serializer::lemma_sink_after_concat(
                    s_before,
                    p_before + seq![CmdV::AddKey(veb[j as int].key)],
                    seq![CmdV::Value(veb[j as int].value)],
                );
                assert(ctx@.sink == sink_after(
                    s_before,
                    (p_before + seq![CmdV::AddKey(veb[j as int].key)]) + seq![
                        CmdV::Value(veb[j as int].value),
                    ],
                ));
                if (ups + prev_adds).len() == 0 {
                    assert(s_before == ctx0.sink && p_before == ctx0.pending);
                    assert((p_before + seq![CmdV::AddKey(veb[j as int].key)]) + seq![
                        CmdV::Value(veb[j as int].value),
                    ] =~= ctx0.pending + (ups + emitted_adds));
                } else {
                    assert(s_before == sink_after(ctx0.sink, ctx0.pending + (ups + prev_adds))
                        && p_before == Seq::<CmdV>::empty());
                    crate::counting_serializer::lemma_sink_after_concat(
                        ctx0.sink,
                        ctx0.pending + (ups + prev_adds),
                        (p_before + seq![CmdV::AddKey(veb[j as int].key)]) + seq![
                            CmdV::Value(veb[j as int].value),
                        ],
                    );
                    assert((ctx0.pending + (ups + prev_adds)) + ((p_before + seq![
                        CmdV::AddKey(veb[j as int].key),
                    ]) + seq![CmdV::Value(veb[j as int].value)]) =~= ctx0.pending + (ups
                        + emitted_adds));
                }
                assert(ctx@.sink == sink_after(ctx0.sink, ctx0.pending + (ups + emitted_adds)));
            }
        } else {
            proof {
                assert(dict_has(vea, veb[j as int].key));
                assert(piece.len() == 0);
                assert(emitted_adds + dict_adds(vea, veb, j + 1int) =~= adds);
            }
        }
        j = j + 1;
    }
    proof {
        assert(dict_adds(vea, veb, eb@.len() as int).len() == 0);
        assert(adds =~= emitted_adds);
    }
    if changed {
        proof {
            assert((ups + adds).len() > 0);
            assert(d =~= (ups + adds) + seq![CmdV::Exit]);
            crate::counting_serializer::lemma_sink_after_concat(
                ctx0.sink,
                ctx0.pending + (ups + adds),
                seq![CmdV::Exit],
            );
            assert((ctx0.pending + (ups + adds)) + seq![CmdV::Exit] =~= ctx0.pending + d);
        }
        ctx.save_exit();
    } else {
        proof {
            assert(ups.len() == 0 && adds.len() == 0);
            assert(d.len() == 0);
        }
    }
    changed
}

} // verus!
