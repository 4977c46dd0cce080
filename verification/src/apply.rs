//! The apply engine: a streaming consumer of diff commands that mutates
//! a target value in place.
//!
//! All state is positional: the apply context is a cursor over the
//! command sequence.  Appliers peek path elements and dispatch on them;
//! unknown paths — a field the target does not have, an index out of
//! range, a variant the target does not carry — cause the subtree to be
//! skipped by depth counting, and a whole value arriving where the
//! target has an aggregate ends that aggregate's loop benignly, so
//! schema drift in either direction is tolerated.  Only stream
//! malformation — an exit where a value was owed, an announced addition
//! without its value, a subtree that ends before its exits — is fatal.

use vstd::prelude::*;

use crate::difference::{cmds_view, CmdV, DiffCommandValue, DiffPathElementValue, PathElV};
use crate::value::{
    entries_view, fields_view, leaf_clone, node_clone, node_view, nodes_view, FieldEntry,
    FieldMode, FieldV, Leaf, LeafV, MapEntry, MapEntryV, Node, NodeV, RecordKind,
};

verus! {

/// Why an apply was aborted.
#[derive(Debug, PartialEq, Eq, Structural)]
pub enum ApplyError {
    /// The command sequence is malformed: an exit arrived where a value
    /// was owed, an announced addition came without its value, or the
    /// stream ended inside a subtree being skipped.  The producer and
    /// consumer disagree; recovery is not possible.
    MalformedStream,
}

/// Result of skipping one subtree.
#[verifier::ext_equal]
pub struct SkipOut {
    pub used: nat,
    pub err: bool,
}

/// Result of applying a stream to one subtree.
#[verifier::ext_equal]
pub struct ApplyOut {
    pub node: NodeV,
    pub used: nat,
    pub changed: bool,
    pub err: bool,
}

/// Result of the record-field apply loop.
#[verifier::ext_equal]
pub struct FieldsOut {
    pub fields: Seq<FieldV>,
    pub used: nat,
    pub changed: bool,
    pub err: bool,
}

/// Result of the sequence apply loop.
#[verifier::ext_equal]
pub struct ElemsOut {
    pub elems: Seq<NodeV>,
    pub used: nat,
    pub changed: bool,
    pub err: bool,
}

/// Result of the map apply loop.
#[verifier::ext_equal]
pub struct EntriesOut {
    pub entries: Seq<MapEntryV>,
    pub used: nat,
    pub changed: bool,
    pub err: bool,
}

/// Result of reading one path element.
#[verifier::ext_equal]
pub struct PathElOut {
    pub elem: Option<PathElV>,
    pub used: nat,
}

/// The stream after `k` commands were consumed.  The counts produced by
/// the functions below never exceed the stream's length, so the clamping
/// here only serves the termination argument.
pub open spec fn stream_tail(s: Seq<CmdV>, k: nat) -> Seq<CmdV> {
    if k <= s.len() {
        s.skip(k as int)
    } else {
        Seq::empty()
    }
}

/// Skipping a subtree consumes commands while counting depth: enters and
/// map-key descents deepen, exits shallow, and the self-closing commands
/// count as exits.  Running out of commands before the depth returns to
/// zero is a malformed stream.
pub open spec fn spec_skip(s: Seq<CmdV>, depth: int) -> SkipOut
    decreases s.len(),
{
    if depth <= 0 {
        SkipOut { used: 0, err: false }
    } else if s.len() == 0 {
        SkipOut { used: 0, err: true }
    } else {
        let next_depth = match s[0] {
            CmdV::Enter(_) => depth + 1,
            CmdV::AddKey(_) => depth + 1,
            CmdV::EnterKey(_) => depth + 1,
            CmdV::Exit => depth - 1,
            CmdV::Value(_) => depth - 1,
            CmdV::Remove(_) => depth - 1,
            CmdV::RemoveKey(_) => depth,
        };
        let rest = spec_skip(s.skip(1), next_depth);
        SkipOut { used: rest.used + 1, err: rest.err }
    }
}

/// Reading the next path element: an `Enter` yields its element; any
/// other command — a map-key command, an `Exit`, a bare `Value` or
/// `Remove` from a differently shaped producer — is consumed and ends
/// the caller's loop, as does the stream's end.
pub open spec fn spec_next_path_element(s: Seq<CmdV>) -> PathElOut {
    if s.len() == 0 {
        PathElOut { elem: Option::None, used: 0 }
    } else {
        match s[0] {
            CmdV::Enter(p) => PathElOut { elem: Option::Some(p), used: 1 },
            _ => PathElOut { elem: Option::None, used: 1 },
        }
    }
}

/// Reading a value in place: a `Value` replaces the target, and a
/// map-key command writes its key payload into the slot; an `Enter`
/// means the producer sent a sub-diff where a value was expected, so the
/// subtree is skipped and the target is left unchanged; an `Exit` here
/// is malformed.
pub open spec fn spec_read_value(s: Seq<CmdV>, t: NodeV) -> ApplyOut {
    if s.len() == 0 {
        ApplyOut { node: t, used: 0, changed: false, err: false }
    } else {
        match s[0] {
            CmdV::Value(v) => ApplyOut { node: v, used: 1, changed: true, err: false },
            CmdV::AddKey(k) => ApplyOut { node: NodeV::Leaf(k), used: 1, changed: true, err: false },
            CmdV::EnterKey(k) => ApplyOut {
                node: NodeV::Leaf(k),
                used: 1,
                changed: true,
                err: false,
            },
            CmdV::RemoveKey(k) => ApplyOut {
                node: NodeV::Leaf(k),
                used: 1,
                changed: true,
                err: false,
            },
            CmdV::Enter(_) => {
                let sk = spec_skip(s.skip(1), 1);
                ApplyOut { node: t, used: 1 + sk.used, changed: false, err: sk.err }
            },
            CmdV::Exit => ApplyOut { node: t, used: 0, changed: false, err: true },
            CmdV::Remove(_) => ApplyOut { node: t, used: 1, changed: false, err: false },
        }
    }
}

/// One `Exit` is absorbed after a tagged union consumed its subtree, so
/// that the enclosing record's loop continues with the union's siblings.
pub open spec fn spec_trailing_exit(s: Seq<CmdV>) -> nat {
    if s.len() > 0 && s[0] == CmdV::Exit {
        1
    } else {
        0
    }
}

/// First field whose name is `nm` and which takes part in diffing.
pub open spec fn fields_name_index(fs: Seq<FieldV>, nm: Seq<char>) -> int
    decreases fs.len(),
{
    if fs.len() == 0 {
        -1
    } else if fs[0].name == nm && fs[0].mode != FieldMode::Skip {
        0
    } else {
        let r = fields_name_index(fs.skip(1), nm);
        if r < 0 {
            -1
        } else {
            r + 1
        }
    }
}

/// The field a path element addresses, or `-1` when the element is
/// unknown to this record: named lookups for named records and tuples,
/// positional lookups for named and positional records, and never a
/// skipped field.
pub open spec fn field_target(kind: RecordKind, fs: Seq<FieldV>, el: PathElV) -> int {
    match el {
        PathElV::Field(nm) => {
            if kind == RecordKind::Positional {
                -1
            } else {
                fields_name_index(fs, nm)
            }
        },
        PathElV::FieldIndex(ix) => {
            if kind == RecordKind::Tuple {
                -1
            } else if ix < fs.len() && fs[ix as int].mode != FieldMode::Skip {
                ix as int
            } else {
                -1
            }
        },
        _ => -1,
    }
}

/// The record-field apply loop: read path elements, dispatch known
/// fields, skip unknown ones, stop at an exit or at the stream's end.
pub open spec fn apply_fields_loop(kind: RecordKind, fs: Seq<FieldV>, s: Seq<CmdV>) -> FieldsOut
    decreases s.len(), 0int,
{
    let pe = spec_next_path_element(s);
    {
        match pe.elem {
            Option::None => FieldsOut { fields: fs, used: pe.used, changed: false, err: false },
            Option::Some(el) => {
                let j = field_target(kind, fs, el);
                if j >= 0 {
                    let step = if fs[j].mode == FieldMode::Opaque {
                        spec_read_value(s.skip(pe.used as int), fs[j].value)
                    } else {
                        spec_apply_node(fs[j].value, s.skip(pe.used as int))
                    };
                    let fs2 = fs.update(j, FieldV { value: step.node, ..fs[j] });
                    if step.err {
                        FieldsOut {
                            fields: fs2,
                            used: pe.used + step.used,
                            changed: step.changed,
                            err: true,
                        }
                    } else {
                        let rest = apply_fields_loop(kind, fs2, stream_tail(s, pe.used + step.used));
                        FieldsOut {
                            fields: rest.fields,
                            used: pe.used + step.used + rest.used,
                            changed: step.changed || rest.changed,
                            err: rest.err,
                        }
                    }
                } else {
                    let sk = spec_skip(s.skip(pe.used as int), 1);
                    if sk.err {
                        FieldsOut { fields: fs, used: pe.used + sk.used, changed: false, err: true }
                    } else {
                        let rest = apply_fields_loop(kind, fs, stream_tail(s, pe.used + sk.used));
                        FieldsOut {
                            fields: rest.fields,
                            used: pe.used + sk.used + rest.used,
                            changed: rest.changed,
                            err: rest.err,
                        }
                    }
                }
            },
        }
    }
}

/// The sequence apply loop: in-range positions descend, out-of-range
/// positions are skipped, appends push (or, for an optional, fill the
/// slot), a tail removal truncates and ends the loop.
pub open spec fn apply_elems_loop(es: Seq<NodeV>, is_opt: bool, s: Seq<CmdV>) -> ElemsOut
    decreases s.len(), 0int,
{
    if s.len() == 0 {
        ElemsOut { elems: es, used: 0, changed: false, err: false }
    } else {
        match s[0] {
            CmdV::Enter(PathElV::Field(_)) => {
                let sk = spec_skip(s.skip(1), 1);
                ElemsOut { elems: es, used: 1 + sk.used, changed: false, err: sk.err }
            },
            CmdV::Enter(PathElV::CollectionIndex(i)) => {
                if i < es.len() {
                    let step = spec_apply_node(es[i as int], s.skip(1));
                    let es2 = es.update(i as int, step.node);
                    if step.err {
                        ElemsOut { elems: es2, used: 1 + step.used, changed: step.changed, err: true }
                    } else {
                        let rest = apply_elems_loop(es2, is_opt, stream_tail(s, 1 + step.used));
                        ElemsOut {
                            elems: rest.elems,
                            used: 1 + step.used + rest.used,
                            changed: step.changed || rest.changed,
                            err: rest.err,
                        }
                    }
                } else {
                    let sk = spec_skip(s.skip(1), 1);
                    if sk.err {
                        ElemsOut { elems: es, used: 1 + sk.used, changed: false, err: true }
                    } else {
                        let rest = apply_elems_loop(es, is_opt, stream_tail(s, 1 + sk.used));
                        ElemsOut {
                            elems: rest.elems,
                            used: 1 + sk.used + rest.used,
                            changed: rest.changed,
                            err: rest.err,
                        }
                    }
                }
            },
            CmdV::Enter(PathElV::AddToCollection) => {
                if s.len() >= 2 && s[1] is Value {
                    let v = s[1]->Value_0;
                    let es2 = if is_opt {
                        seq![v]
                    } else {
                        es.push(v)
                    };
                    let rest = apply_elems_loop(es2, is_opt, stream_tail(s, 2));
                    ElemsOut {
                        elems: rest.elems,
                        used: 2 + rest.used,
                        changed: true,
                        err: rest.err,
                    }
                } else {
                    ElemsOut {
                        elems: es,
                        used: if s.len() >= 2 {
                            2
                        } else {
                            1
                        },
                        changed: false,
                        err: true,
                    }
                }
            },
            CmdV::Remove(n) => {
                let keep = if es.len() >= n {
                    es.len() - n
                } else {
                    0
                };
                ElemsOut { elems: es.take(keep as int), used: 1, changed: true, err: false }
            },
            _ => ElemsOut { elems: es, used: 1, changed: false, err: false },
        }
    }
}

/// The fixed-length array apply loop: only in-place positions are
/// addressed; anything else ends the loop.
pub open spec fn apply_array_loop(es: Seq<NodeV>, s: Seq<CmdV>) -> ElemsOut
    decreases s.len(), 0int,
{
    if s.len() == 0 {
        ElemsOut { elems: es, used: 0, changed: false, err: false }
    } else {
        match s[0] {
            CmdV::Enter(PathElV::Field(_)) => {
                let sk = spec_skip(s.skip(1), 1);
                ElemsOut { elems: es, used: 1 + sk.used, changed: false, err: sk.err }
            },
            CmdV::Enter(PathElV::CollectionIndex(i)) => {
                if i < es.len() {
                    let step = spec_apply_node(es[i as int], s.skip(1));
                    let es2 = es.update(i as int, step.node);
                    if step.err {
                        ElemsOut { elems: es2, used: 1 + step.used, changed: step.changed, err: true }
                    } else {
                        let rest = apply_array_loop(es2, stream_tail(s, 1 + step.used));
                        ElemsOut {
                            elems: rest.elems,
                            used: 1 + step.used + rest.used,
                            changed: step.changed || rest.changed,
                            err: rest.err,
                        }
                    }
                } else {
                    let sk = spec_skip(s.skip(1), 1);
                    if sk.err {
                        ElemsOut { elems: es, used: 1 + sk.used, changed: false, err: true }
                    } else {
                        let rest = apply_array_loop(es, stream_tail(s, 1 + sk.used));
                        ElemsOut {
                            elems: rest.elems,
                            used: 1 + sk.used + rest.used,
                            changed: rest.changed,
                            err: rest.err,
                        }
                    }
                }
            },
            _ => ElemsOut { elems: es, used: 1, changed: false, err: false },
        }
    }
}

/// The map apply loop: adds insert or overwrite, keyed descents recurse
/// into present keys and skip absent ones, removals drop present keys.
pub open spec fn apply_entries_loop(en: Seq<MapEntryV>, s: Seq<CmdV>) -> EntriesOut
    decreases s.len(), 0int,
{
    if s.len() == 0 {
        EntriesOut { entries: en, used: 0, changed: false, err: false }
    } else {
        match s[0] {
            CmdV::Enter(PathElV::Field(_)) => {
                let sk = spec_skip(s.skip(1), 1);
                EntriesOut { entries: en, used: 1 + sk.used, changed: false, err: sk.err }
            },
            CmdV::AddKey(k) => {
                if s.len() >= 2 && s[1] is Value {
                    let v = s[1]->Value_0;
                    let j = crate::difference::dict_find_index(en, k);
                    let en2 = if j >= 0 {
                        en.update(j, MapEntryV { key: k, value: v })
                    } else {
                        en.push(MapEntryV { key: k, value: v })
                    };
                    let rest = apply_entries_loop(en2, stream_tail(s, 2));
                    EntriesOut {
                        entries: rest.entries,
                        used: 2 + rest.used,
                        changed: true,
                        err: rest.err,
                    }
                } else {
                    EntriesOut {
                        entries: en,
                        used: if s.len() >= 2 {
                            2
                        } else {
                            1
                        },
                        changed: false,
                        err: true,
                    }
                }
            },
            CmdV::EnterKey(k) => {
                let j = crate::difference::dict_find_index(en, k);
                if j >= 0 {
                    let step = spec_apply_node(en[j].value, s.skip(1));
                    let en2 = en.update(j, MapEntryV { value: step.node, ..en[j] });
                    if step.err {
                        EntriesOut {
                            entries: en2,
                            used: 1 + step.used,
                            changed: step.changed,
                            err: true,
                        }
                    } else {
                        let rest = apply_entries_loop(en2, stream_tail(s, 1 + step.used));
                        EntriesOut {
                            entries: rest.entries,
                            used: 1 + step.used + rest.used,
                            changed: step.changed || rest.changed,
                            err: rest.err,
                        }
                    }
                } else {
                    let sk = spec_skip(s.skip(1), 1);
                    if sk.err {
                        EntriesOut { entries: en, used: 1 + sk.used, changed: false, err: true }
                    } else {
                        let rest = apply_entries_loop(en, stream_tail(s, 1 + sk.used));
                        EntriesOut {
                            entries: rest.entries,
                            used: 1 + sk.used + rest.used,
                            changed: rest.changed,
                            err: rest.err,
                        }
                    }
                }
            },
            CmdV::RemoveKey(k) => {
                let j = crate::difference::dict_find_index(en, k);
                let en2 = if j >= 0 {
                    en.remove(j)
                } else {
                    en
                };
                let rest = apply_entries_loop(en2, stream_tail(s, 1));
                EntriesOut {
                    entries: rest.entries,
                    used: 1 + rest.used,
                    changed: (j >= 0) || rest.changed,
                    err: rest.err,
                }
            },
            _ => EntriesOut { entries: en, used: 1, changed: false, err: false },
        }
    }
}

/// What applying the stream `s` to the target `t` yields: the new value,
/// the number of commands consumed, whether anything changed, and
/// whether the stream was malformed.  The dispatch follows the target's
/// shape; this is the functional specification the executable appliers
/// are proved to match.
pub open spec fn spec_apply_node(t: NodeV, s: Seq<CmdV>) -> ApplyOut
    decreases s.len(), 1int,
{
    match t {
        NodeV::Leaf(_) => spec_read_value(s, t),
        NodeV::Opaque(_) => spec_read_value(s, t),
        NodeV::Record(kind, fs) => {
            let fl = apply_fields_loop(kind, fs, s);
            ApplyOut {
                node: NodeV::Record(kind, fl.fields),
                used: fl.used,
                changed: fl.changed,
                err: fl.err,
            }
        },
        NodeV::Variant(nm, kind, fs) => {
            let pe = spec_next_path_element(s);
            {
                match pe.elem {
                    Option::None => ApplyOut { node: t, used: pe.used, changed: false, err: false },
                    Option::Some(el) => {
                        if el == PathElV::FullEnumVariant {
                            let rv = spec_read_value(s.skip(pe.used as int), t);
                            if rv.err {
                                ApplyOut {
                                    node: rv.node,
                                    used: pe.used + rv.used,
                                    changed: false,
                                    err: true,
                                }
                            } else {
                                let tr = spec_trailing_exit(s.skip(pe.used + rv.used as int));
                                ApplyOut {
                                    node: rv.node,
                                    used: pe.used + rv.used + tr,
                                    changed: true,
                                    err: false,
                                }
                            }
                        } else if el == PathElV::EnumVariant(nm) {
                            let fl = apply_fields_loop(kind, fs, s.skip(pe.used as int));
                            let node = NodeV::Variant(nm, kind, fl.fields);
                            if fl.err {
                                ApplyOut {
                                    node,
                                    used: pe.used + fl.used,
                                    changed: fl.changed,
                                    err: true,
                                }
                            } else {
                                let tr = spec_trailing_exit(s.skip(pe.used + fl.used as int));
                                ApplyOut {
                                    node,
                                    used: pe.used + fl.used + tr,
                                    changed: fl.changed,
                                    err: false,
                                }
                            }
                        } else {
                            let sk = spec_skip(s.skip(pe.used as int), 1);
                            if sk.err {
                                ApplyOut { node: t, used: pe.used + sk.used, changed: false, err: true }
                            } else {
                                let tr = spec_trailing_exit(s.skip(pe.used + sk.used as int));
                                ApplyOut {
                                    node: t,
                                    used: pe.used + sk.used + tr,
                                    changed: false,
                                    err: false,
                                }
                            }
                        }
                    },
                }
            }
        },
        NodeV::List(es) => {
            let el = apply_elems_loop(es, false, s);
            ApplyOut {
                node: NodeV::List(el.elems),
                used: el.used,
                changed: el.changed,
                err: el.err,
            }
        },
        NodeV::Opt(es) => {
            let el = apply_elems_loop(es, true, s);
            ApplyOut { node: NodeV::Opt(el.elems), used: el.used, changed: el.changed, err: el.err }
        },
        NodeV::Array(es) => {
            let el = apply_array_loop(es, s);
            ApplyOut {
                node: NodeV::Array(el.elems),
                used: el.used,
                changed: el.changed,
                err: el.err,
            }
        },
        NodeV::Dict(en) => {
            let el = apply_entries_loop(en, s);
            ApplyOut {
                node: NodeV::Dict(el.entries),
                used: el.used,
                changed: el.changed,
                err: el.err,
            }
        },
    }
}

/// Copy of a path element.
pub fn path_clone(p: &DiffPathElementValue) -> (r: DiffPathElementValue)
    ensures
        r@ == p@,
{
    match p {
        DiffPathElementValue::Field(s) => DiffPathElementValue::Field(s.clone()),
        DiffPathElementValue::FieldIndex(i) => DiffPathElementValue::FieldIndex(*i),
        DiffPathElementValue::EnumVariant(s) => DiffPathElementValue::EnumVariant(s.clone()),
        DiffPathElementValue::FullEnumVariant => DiffPathElementValue::FullEnumVariant,
        DiffPathElementValue::CollectionIndex(i) => DiffPathElementValue::CollectionIndex(*i),
        DiffPathElementValue::AddToCollection => DiffPathElementValue::AddToCollection,
    }
}

/// Copy of a command.
pub fn cmd_clone(c: &DiffCommandValue) -> (r: DiffCommandValue)
    ensures
        r@ == c@,
{
    match c {
        DiffCommandValue::Enter(p) => DiffCommandValue::Enter(path_clone(p)),
        DiffCommandValue::Value(n) => DiffCommandValue::Value(node_clone(n)),
        DiffCommandValue::Remove(n) => DiffCommandValue::Remove(*n),
        DiffCommandValue::AddKey(k) => DiffCommandValue::AddKey(leaf_clone(k)),
        DiffCommandValue::EnterKey(k) => DiffCommandValue::EnterKey(leaf_clone(k)),
        DiffCommandValue::RemoveKey(k) => DiffCommandValue::RemoveKey(leaf_clone(k)),
        DiffCommandValue::Exit => DiffCommandValue::Exit,
    }
}

/// The stream cursor used during an apply: wraps the command sequence
/// and the position of the next unread command.
pub struct ApplyContext {
    cmds: Vec<DiffCommandValue>,
    pos: usize,
}

impl View for ApplyContext {
    type V = Seq<CmdV>;

    /// The commands not yet consumed.
    closed spec fn view(&self) -> Seq<CmdV> {
        cmds_view(self.cmds@).skip(self.pos as int)
    }
}

impl ApplyContext {
    pub closed spec fn wf(&self) -> bool {
        self.pos <= self.cmds@.len()
    }

    /// A cursor at the start of the given command sequence.
    pub fn new(cmds: Vec<DiffCommandValue>) -> (r: ApplyContext)
        ensures
            r.wf(),
            r@ == cmds_view(cmds@),
    {
        let r = ApplyContext { cmds, pos: 0 };
        proof {
            assert(cmds_view(r.cmds@).skip(0) =~= cmds_view(r.cmds@));
        }
        r
    }

    spec fn remaining_len(&self) -> int {
        self.cmds@.len() - self.pos
    }

    /// Returns the next command's path element if it is an enter; `None`
    /// when the next command is anything else (consumed: an exit, a
    /// map-key command, or a stray value from a differently shaped
    /// producer all end the caller's loop) or the stream's end.
    pub fn next_path_element(&mut self) -> (r: Option<DiffPathElementValue>)
        requires
            old(self).wf(),
        ensures
            final(self).wf(),
            ({
                let pe = spec_next_path_element(old(self)@);
                &&& final(self)@ == stream_tail(old(self)@, pe.used)
                &&& (match r {
                    Option::Some(el) => pe.elem == Option::Some(el@),
                    Option::None => pe.elem is None,
                })
            }),
    {
        proof {
            assert(old(self)@.len() == self.cmds@.len() - self.pos);
        }
        if self.pos >= self.cmds.len() {
            proof {
                assert(stream_tail(old(self)@, 0) =~= old(self)@);
            }
            return None;
        }
        proof {
            assert(old(self)@[0] == cmds_view(self.cmds@)[self.pos as int]);
        }
        let r = match &self.cmds[self.pos] {
            DiffCommandValue::Enter(p) => Some(path_clone(p)),
            _ => None,
        };
        self.pos = self.pos + 1;
        proof {
            assert(self@ =~= stream_tail(old(self)@, 1));
        }
        r
    }

    /// Skip one subtree by depth counting.  To be called after a path
    /// element was read but not recognized.
    pub fn skip_value(&mut self) -> (r: Result<(), ApplyError>)
        requires
            old(self).wf(),
        ensures
            final(self).wf(),
            ({
                let sk = spec_skip(old(self)@, 1);
                &&& final(self)@ == stream_tail(old(self)@, sk.used)
                &&& (sk.err ==> r is Err)
                &&& (!sk.err ==> r is Ok)
            }),
    {
        let mut depth: u128 = 1;
        let ghost rem0 = self@;
        let ghost mut used: nat = 0nat;
        let total: usize = self.cmds.len();
        proof {
            assert(rem0.len() <= total);
        }
        loop
            invariant
                rem0 == old(self)@,
                self.wf(),
                0 < depth,
                used + self.remaining_len() == rem0.len(),
                rem0.len() <= total,
                self@ == stream_tail(rem0, used),
                spec_skip(rem0, 1) == (SkipOut {
                    used: (used + spec_skip(self@, depth as int).used) as nat,
                    err: spec_skip(self@, depth as int).err,
                }),
                depth <= 1 + used,
            decreases self.remaining_len(),
        {
            proof {
                assert(self@.len() == self.cmds@.len() - self.pos);
            }
            if self.pos >= self.cmds.len() {
                proof {
                    assert(self@.len() == 0);
                    assert(spec_skip(self@, depth as int).err);
                    assert(rem0 == old(self)@);
                    assert(self@ == stream_tail(old(self)@, spec_skip(old(self)@, 1).used));
                    assert(spec_skip(old(self)@, 1).err);
                }
                return Err(ApplyError::MalformedStream);
            }
            proof {
                assert(self@[0] == cmds_view(self.cmds@)[self.pos as int]);
            }
            let delta_up = match &self.cmds[self.pos] {
                DiffCommandValue::Enter(_) => true,
                DiffCommandValue::AddKey(_) => true,
                DiffCommandValue::EnterKey(_) => true,
                _ => false,
            };
            let delta_down = match &self.cmds[self.pos] {
                DiffCommandValue::Exit => true,
                DiffCommandValue::Value(_) => true,
                DiffCommandValue::Remove(_) => true,
                _ => false,
            };
            let ghost pre = self@;
            let ghost pre_depth = depth as int;
            self.pos = self.pos + 1;
            proof {
                assert(self@ =~= pre.skip(1));
                used = used + 1;
                assert(self@ =~= stream_tail(rem0, used));
            }
            if delta_up {
                depth = depth + 1;
            } else if delta_down {
                depth = depth - 1;
            }
            proof {
                assert(spec_skip(pre, pre_depth) == (SkipOut {
                    used: (spec_skip(self@, depth as int).used + 1) as nat,
                    err: spec_skip(self@, depth as int).err,
                }));
                assert(spec_skip(rem0, 1) == (SkipOut {
                    used: (used + spec_skip(self@, depth as int).used) as nat,
                    err: spec_skip(self@, depth as int).err,
                }));
            }
            if depth == 0 {
                proof {
                    assert(spec_skip(self@, 0int) == (SkipOut { used: 0nat, err: false }));
                    assert(rem0 == old(self)@);
                    assert(self@ == stream_tail(old(self)@, spec_skip(old(self)@, 1).used));
                    assert(!spec_skip(old(self)@, 1).err);
                }
                return Ok(());
            }
        }
    }

    /// Read a value in place into `val`.  Returns whether `val` changed.
    pub fn read_value(&mut self, val: &mut Node) -> (r: Result<bool, ApplyError>)
        requires
            old(self).wf(),
        ensures
            final(self).wf(),
            ({
                let out = spec_read_value(old(self)@, old(val)@);
                &&& final(val)@ == out.node
                &&& final(self)@ == stream_tail(old(self)@, out.used)
                &&& (out.err ==> r is Err)
                &&& (!out.err ==> r == Ok::<bool, ApplyError>(out.changed))
            }),
    {
        proof {
            assert(old(self)@.len() == self.cmds@.len() - self.pos);
        }
        if self.pos >= self.cmds.len() {
            proof {
                assert(stream_tail(old(self)@, 0) =~= old(self)@);
            }
            return Ok(false);
        }
        proof {
            assert(old(self)@[0] == cmds_view(self.cmds@)[self.pos as int]);
        }
        match &self.cmds[self.pos] {
            DiffCommandValue::Value(n) => {
                let v = node_clone(n);
                *val = v;
                self.pos = self.pos + 1;
                proof {
                    assert(self@ =~= stream_tail(old(self)@, 1));
                }
                Ok(true)
            },
            DiffCommandValue::Enter(_) => {
                self.pos = self.pos + 1;
                proof {
                    assert(self@ =~= old(self)@.skip(1));
                }
                let ghost mid = self@;
                match self.skip_value() {
                    Ok(_) => {
                        proof {
                            let sk = spec_skip(mid, 1);
                            assert(self@ =~= stream_tail(old(self)@, (1 + sk.used) as nat));
                        }
                        Ok(false)
                    },
                    Err(e) => {
                        proof {
                            let sk = spec_skip(mid, 1);
                            assert(self@ =~= stream_tail(old(self)@, (1 + sk.used) as nat));
                        }
                        Err(e)
                    },
                }
            },
            DiffCommandValue::Exit => Err(ApplyError::MalformedStream),
            DiffCommandValue::AddKey(k) => {
                *val = Node::Leaf(leaf_clone(k));
                self.pos = self.pos + 1;
                proof {
                    assert(self@ =~= stream_tail(old(self)@, 1));
                }
                Ok(true)
            },
            DiffCommandValue::EnterKey(k) => {
                *val = Node::Leaf(leaf_clone(k));
                self.pos = self.pos + 1;
                proof {
                    assert(self@ =~= stream_tail(old(self)@, 1));
                }
                Ok(true)
            },
            DiffCommandValue::RemoveKey(k) => {
                *val = Node::Leaf(leaf_clone(k));
                self.pos = self.pos + 1;
                proof {
                    assert(self@ =~= stream_tail(old(self)@, 1));
                }
                Ok(true)
            },
            DiffCommandValue::Remove(_) => {
                self.pos = self.pos + 1;
                proof {
                    assert(self@ =~= stream_tail(old(self)@, 1));
                }
                Ok(false)
            },
        }
    }

    /// Return the next command in the stream, whatever it is.  Meant for
    /// collection-shaped targets that must see map-key, append and
    /// tail-removal commands.
    pub fn read_next_command(&mut self) -> (r: Option<DiffCommandValue>)
        requires
            old(self).wf(),
        ensures
            final(self).wf(),
            old(self)@.len() == 0 ==> r is None && final(self)@ == old(self)@,
            old(self)@.len() > 0 ==> final(self)@ == stream_tail(old(self)@, 1) && (match r {
                Option::Some(c) => c@ == old(self)@[0],
                Option::None => false,
            }),
    {
        proof {
            assert(old(self)@.len() == self.cmds@.len() - self.pos);
        }
        if self.pos >= self.cmds.len() {
            proof {
                assert(stream_tail(old(self)@, 0) =~= old(self)@);
            }
            return None;
        }
        proof {
            assert(old(self)@[0] == cmds_view(self.cmds@)[self.pos as int]);
        }
        let c = cmd_clone(&self.cmds[self.pos]);
        self.pos = self.pos + 1;
        proof {
            assert(self@ =~= stream_tail(old(self)@, 1));
        }
        Some(c)
    }

    /// Absorb one `Exit` if it is next: the close of the enclosing path
    /// step that a tagged union's subtree leaves behind.
    pub fn consume_trailing_exit(&mut self)
        requires
            old(self).wf(),
        ensures
            final(self).wf(),
            final(self)@ == stream_tail(old(self)@, spec_trailing_exit(old(self)@)),
    {
        proof {
            assert(old(self)@.len() == self.cmds@.len() - self.pos);
        }
        if self.pos < self.cmds.len() {
            proof {
                assert(old(self)@[0] == cmds_view(self.cmds@)[self.pos as int]);
            }
            let is_exit = match &self.cmds[self.pos] {
                DiffCommandValue::Exit => true,
                _ => false,
            };
            if is_exit {
                self.pos = self.pos + 1;
                proof {
                    assert(self@ =~= stream_tail(old(self)@, 1));
                }
                return ;
            }
        }
        proof {
            assert(stream_tail(old(self)@, 0) =~= old(self)@);
        }
    }
}

pub broadcast proof fn lemma_stream_tail_concat(s: Seq<CmdV>, a: nat, b: nat)
    ensures
        #[trigger] stream_tail(stream_tail(s, a), b) == stream_tail(s, a + b),
{
    assert(stream_tail(stream_tail(s, a), b) =~= stream_tail(s, a + b));
}

pub broadcast proof fn lemma_fields_name_index(fs: Seq<FieldV>, nm: Seq<char>)
    ensures
        #[trigger] fields_name_index(fs, nm) < fs.len(),
        fields_name_index(fs, nm) >= -1,
        fields_name_index(fs, nm) >= 0 ==> fs[fields_name_index(fs, nm)].name == nm
            && fs[fields_name_index(fs, nm)].mode != FieldMode::Skip,
        forall|j: int|
            0 <= j < fs.len() && (fields_name_index(fs, nm) < 0 || j < fields_name_index(fs, nm))
                ==> !(fs[j].name == nm && fs[j].mode != FieldMode::Skip),
    decreases fs.len(),
{
    if fs.len() > 0 && !(fs[0].name == nm && fs[0].mode != FieldMode::Skip) {
        lemma_fields_name_index(fs.skip(1), nm);
        assert forall|j: int|
            0 <= j < fs.len() && (fields_name_index(fs, nm) < 0 || j < fields_name_index(
                fs,
                nm,
            )) implies !(fs[j].name == nm && fs[j].mode != FieldMode::Skip) by {
            if j > 0 {
                assert(fs[j] == fs.skip(1)[j - 1]);
            }
        }
    }
}

/// Find the field a path element addresses, if this record knows it.
pub fn field_find(
    kind: RecordKind,
    fields: &Vec<FieldEntry>,
    el: &DiffPathElementValue,
) -> (r: Option<usize>)
    ensures
        ({
            let t = field_target(kind, fields_view(fields@), el@);
            match r {
                Option::Some(j) => t == j as int && (j as int) < fields@.len(),
                Option::None => t < 0,
            }
        }),
{
    let ghost fs = fields_view(fields@);
    proof {
        crate::value::lemma_fields_view(fields@);
    }
    match el {
        DiffPathElementValue::Field(nm) => {
            if let RecordKind::Positional = kind {
                return None;
            }
            proof {
                lemma_fields_name_index(fs, nm@);
            }
            let mut i: usize = 0;
            while i < fields.len()
                invariant
                    el@ == PathElV::Field(nm@),
                    !(kind == RecordKind::Positional),
                    i <= fields@.len(),
                    fs == fields_view(fields@),
                    fs.len() == fields@.len(),
                    forall|j: int| #![auto]
                        0 <= j < fs.len() ==> fs[j].name == fields@[j].name@ && fs[j].mode
                            == fields@[j].mode,
                    forall|j: int| #![auto]
                        0 <= j < i ==> !(fs[j].name == nm@ && fs[j].mode != FieldMode::Skip),
                    fields_name_index(fs, nm@) < fs.len(),
                    fields_name_index(fs, nm@) >= 0 ==> fs[fields_name_index(fs, nm@)].name == nm@
                        && fs[fields_name_index(fs, nm@)].mode != FieldMode::Skip,
                    forall|j: int|
                        0 <= j < fs.len() && (fields_name_index(fs, nm@) < 0 || j
                            < fields_name_index(fs, nm@)) ==> !(fs[j].name == nm@ && fs[j].mode
                            != FieldMode::Skip),
                decreases fields@.len() - i,
            {
                let name_hit: bool = fields[i].name == *nm;
                let mode_hit: bool = !(fields[i].mode == FieldMode::Skip);
                if name_hit && mode_hit {
                    proof {
                        let fi = fields_name_index(fs, nm@);
                        if fi < 0 {
                            assert(!(fs[i as int].name == nm@ && fs[i as int].mode
                                != FieldMode::Skip));
                        } else if fi < i as int {
                            assert(!(fs[fi].name == nm@ && fs[fi].mode != FieldMode::Skip));
                        } else if fi > i as int {
                            assert(!(fs[i as int].name == nm@ && fs[i as int].mode
                                != FieldMode::Skip));
                        }
                        assert(fi == i as int);
                    }
                    return Some(i);
                }
                i = i + 1;
            }
            proof {
                assert(fields_name_index(fs, nm@) < 0);
            }
            None
        },
        DiffPathElementValue::FieldIndex(ix) => {
            if let RecordKind::Tuple = kind {
                return None;
            }
            let j = *ix as usize;
            if j < fields.len() {
                let live: bool = !(fields[j].mode == FieldMode::Skip);
                if live {
                    return Some(j);
                }
            }
            None
        },
        _ => None,
    }
}

/// Apply the stream to a record's (or variant payload's) fields in
/// place: dispatch known fields, skip unknown ones, stop at an exit.
#[verifier::rlimit(100)]
pub fn apply_fields(
    kind: RecordKind,
    fields: &mut Vec<FieldEntry>,
    ctx: &mut ApplyContext,
) -> (r: Result<bool, ApplyError>)
    requires
        old(ctx).wf(),
    ensures
        final(ctx).wf(),
        ({
            let out = apply_fields_loop(kind, fields_view(old(fields)@), old(ctx)@);
            &&& fields_view(final(fields)@) == out.fields
            &&& final(ctx)@ == stream_tail(old(ctx)@, out.used)
            &&& (out.err ==> r is Err)
            &&& (!out.err ==> r == Ok::<bool, ApplyError>(out.changed))
        }),
    decreases old(ctx)@.len(), 0int,
{
    let ghost rem0 = ctx@;
    let ghost fs0 = fields_view(fields@);
    let ghost out = apply_fields_loop(kind, fs0, rem0);
    proof {
        crate::value::lemma_fields_view(fields@);
        broadcast use lemma_stream_tail_concat;

        assert(stream_tail(rem0, 0) =~= rem0);
    }
    match ctx.next_path_element() {
        Option::None => {
            proof {
                assert(ctx@ == stream_tail(rem0, out.used));
            }
            Result::Ok(false)
        },
        Option::Some(el) => {
            let ghost pe = spec_next_path_element(rem0);
            proof {
                assert(pe.used == 1nat);
                assert(ctx@ == stream_tail(rem0, 1));
                assert(stream_tail(rem0, 1) =~= rem0.skip(1));
            }
            match field_find(kind, fields, &el) {
                Option::Some(j) => {
                    let ghost spec_j = field_target(kind, fs0, el@);
                    proof {
                        assert(spec_j == j as int);
                        assert(0 <= spec_j < fields@.len());
                        assert(fs0[spec_j].mode == fields@[spec_j].mode);
                        assert(fs0[spec_j].value == node_view(fields@[spec_j].value));
                        assert(fs0[spec_j].name == fields@[spec_j].name@);
                    }
                    let mut entry = FieldEntry {
                        name: String::new(),
                        mode: FieldMode::Normal,
                        value: Node::Leaf(Leaf::Unit),
                    };
                    vstd::pervasive::VecAdditionalExecFns::set_and_swap(fields, j, &mut entry);
                    let ghost mid = ctx@;
                    let step_res = if entry.mode == FieldMode::Opaque {
                        ctx.read_value(&mut entry.value)
                    } else {
                        entry.value.apply(ctx)
                    };
                    let ghost step = (if fs0[spec_j].mode == FieldMode::Opaque {
                        spec_read_value(rem0.skip(1), fs0[spec_j].value)
                    } else {
                        spec_apply_node(fs0[spec_j].value, rem0.skip(1))
                    });
                    vstd::pervasive::VecAdditionalExecFns::set_and_swap(fields, j, &mut entry);
                    proof {
                        crate::value::lemma_fields_view(fields@);
                        assert(fields_view(fields@) =~= fs0.update(
                            spec_j,
                            FieldV { value: step.node, ..fs0[spec_j] },
                        ));
                        assert(ctx@ == stream_tail(rem0, 1 + step.used));
                    }
                    match step_res {
                        Result::Err(e) => Result::Err(e),
                        Result::Ok(step_changed) => {
                            let ghost fs2 = fs0.update(
                                spec_j,
                                FieldV { value: step.node, ..fs0[spec_j] },
                            );
                            let rest = apply_fields(kind, fields, ctx);
                            proof {
                                let tail = apply_fields_loop(kind, fs2, stream_tail(
                                    rem0,
                                    1 + step.used,
                                ));
                                assert(out.used == 1 + step.used + tail.used);
                                assert(ctx@ == stream_tail(rem0, out.used));
                                assert(out.fields == tail.fields);
                                assert(out.err == tail.err);
                                assert(out.changed == (step.changed || tail.changed));
                            }
                            match rest {
                                Result::Err(e) => Result::Err(e),
                                Result::Ok(rest_changed) => Result::Ok(
                                    step_changed || rest_changed,
                                ),
                            }
                        },
                    }
                },
                Option::None => {
                    let ghost mid = ctx@;
                    match ctx.skip_value() {
                        Result::Err(e) => Result::Err(e),
                        Result::Ok(_) => {
                            let ghost sk = spec_skip(rem0.skip(1), 1);
                            proof {
                                assert(ctx@ == stream_tail(rem0, 1 + sk.used));
                            }
                            let rest = apply_fields(kind, fields, ctx);
                            proof {
                                let tail = apply_fields_loop(kind, fs0, stream_tail(
                                    rem0,
                                    1 + sk.used,
                                ));
                                assert(out.used == 1 + sk.used + tail.used);
                                assert(ctx@ == stream_tail(rem0, out.used));
                                assert(out.fields == tail.fields);
                                assert(out.err == tail.err);
                                assert(out.changed == tail.changed);
                            }
                            rest
                        },
                    }
                },
            }
        },
    }
}

/// Apply the stream to an ordered sequence (or an optional, which
/// follows the same rules) in place.
#[verifier::rlimit(100)]
pub fn apply_elems(es: &mut Vec<Node>, is_opt: bool, ctx: &mut ApplyContext) -> (r: Result<
    bool,
    ApplyError,
>)
    requires
        old(ctx).wf(),
    ensures
        final(ctx).wf(),
        ({
            let out = apply_elems_loop(nodes_view(old(es)@), is_opt, old(ctx)@);
            &&& nodes_view(final(es)@) == out.elems
            &&& final(ctx)@ == stream_tail(old(ctx)@, out.used)
            &&& (out.err ==> r is Err)
            &&& (!out.err ==> r == Ok::<bool, ApplyError>(out.changed))
        }),
    decreases old(ctx)@.len(), 0int,
{
    let ghost rem0 = ctx@;
    let ghost es0 = nodes_view(es@);
    let ghost out = apply_elems_loop(es0, is_opt, rem0);
    proof {
        crate::value::lemma_nodes_view(es@);
        broadcast use lemma_stream_tail_concat;

    }
    match ctx.read_next_command() {
        Option::None => Result::Ok(false),
        Option::Some(cmd) => {
            proof {
                assert(ctx@ == stream_tail(rem0, 1));
                assert(stream_tail(rem0, 1) =~= rem0.skip(1));
            }
            match cmd {
                DiffCommandValue::Enter(DiffPathElementValue::Field(_)) => {
                    match ctx.skip_value() {
                        Result::Err(e) => Result::Err(e),
                        Result::Ok(_) => Result::Ok(false),
                    }
                },
                DiffCommandValue::Enter(DiffPathElementValue::CollectionIndex(i)) => {
                    if i < es.len() {
                        let mut elem = Node::Leaf(Leaf::Unit);
                        vstd::pervasive::VecAdditionalExecFns::set_and_swap(es, i, &mut elem);
                        let step_res = elem.apply(ctx);
                        let ghost step = spec_apply_node(es0[i as int], rem0.skip(1));
                        vstd::pervasive::VecAdditionalExecFns::set_and_swap(es, i, &mut elem);
                        proof {
                            crate::value::lemma_nodes_view(es@);
                            assert(nodes_view(es@) =~= es0.update(i as int, step.node));
                            assert(ctx@ == stream_tail(rem0, 1 + step.used));
                        }
                        match step_res {
                            Result::Err(e) => Result::Err(e),
                            Result::Ok(step_changed) => {
                                let rest = apply_elems(es, is_opt, ctx);
                                proof {
                                    let tail = apply_elems_loop(
                                        es0.update(i as int, step.node),
                                        is_opt,
                                        stream_tail(rem0, 1 + step.used),
                                    );
                                    assert(out.used == 1 + step.used + tail.used);
                                    assert(ctx@ == stream_tail(rem0, out.used));
                                }
                                match rest {
                                    Result::Err(e) => Result::Err(e),
                                    Result::Ok(rest_changed) => Result::Ok(
                                        step_changed || rest_changed,
                                    ),
                                }
                            },
                        }
                    } else {
                        match ctx.skip_value() {
                            Result::Err(e) => Result::Err(e),
                            Result::Ok(_) => {
                                let ghost sk = spec_skip(rem0.skip(1), 1);
                                proof {
                                    assert(ctx@ == stream_tail(rem0, 1 + sk.used));
                                }
                                let rest = apply_elems(es, is_opt, ctx);
                                proof {
                                    let tail = apply_elems_loop(es0, is_opt, stream_tail(
                                        rem0,
                                        1 + sk.used,
                                    ));
                                    assert(out.used == 1 + sk.used + tail.used);
                                    assert(ctx@ == stream_tail(rem0, out.used));
                                }
                                rest
                            },
                        }
                    }
                },
                DiffCommandValue::Enter(DiffPathElementValue::AddToCollection) => {
                    match ctx.read_next_command() {
                        Option::Some(DiffCommandValue::Value(v)) => {
                            proof {
                                assert(rem0.skip(1)[0] == rem0[1]);
                                assert(ctx@ == stream_tail(rem0, 2));
                            }
                            if is_opt {
                                es.clear();
                                es.push(v);
                            } else {
                                es.push(v);
                            }
                            let ghost es2 = (if is_opt {
                                seq![rem0[1]->Value_0]
                            } else {
                                es0.push(rem0[1]->Value_0)
                            });
                            proof {
                                crate::value::lemma_nodes_view(es@);
                                assert(nodes_view(es@) =~= es2);
                            }
                            let rest = apply_elems(es, is_opt, ctx);
                            proof {
                                let tail = apply_elems_loop(es2, is_opt, stream_tail(rem0, 2));
                                assert(out.used == 2 + tail.used);
                                assert(ctx@ == stream_tail(rem0, out.used));
                            }
                            match rest {
                                Result::Err(e) => Result::Err(e),
                                Result::Ok(_) => Result::Ok(true),
                            }
                        },
                        _ => {
                            proof {
                                if rem0.skip(1).len() > 0 {
                                    assert(rem0.skip(1)[0] == rem0[1]);
                                }
                                assert(ctx@ == stream_tail(rem0, out.used));
                            }
                            Result::Err(ApplyError::MalformedStream)
                        },
                    }
                },
                DiffCommandValue::Remove(n) => {
                    let keep: usize = if es.len() >= n {
                        es.len() - n
                    } else {
                        0
                    };
                    es.truncate(keep);
                    proof {
                        crate::value::lemma_nodes_view(es@);
                        crate::value::lemma_nodes_view(old(es)@);
                        assert(nodes_view(es@) =~= es0.take(keep as int));
                    }
                    Result::Ok(true)
                },
                _ => Result::Ok(false),
            }
        },
    }
}

/// Apply the stream to a fixed-length array in place.
#[verifier::rlimit(100)]
pub fn apply_array_elems(es: &mut Vec<Node>, ctx: &mut ApplyContext) -> (r: Result<
    bool,
    ApplyError,
>)
    requires
        old(ctx).wf(),
    ensures
        final(ctx).wf(),
        ({
            let out = apply_array_loop(nodes_view(old(es)@), old(ctx)@);
            &&& nodes_view(final(es)@) == out.elems
            &&& final(ctx)@ == stream_tail(old(ctx)@, out.used)
            &&& (out.err ==> r is Err)
            &&& (!out.err ==> r == Ok::<bool, ApplyError>(out.changed))
        }),
    decreases old(ctx)@.len(), 0int,
{
    let ghost rem0 = ctx@;
    let ghost es0 = nodes_view(es@);
    let ghost out = apply_array_loop(es0, rem0);
    proof {
        crate::value::lemma_nodes_view(es@);
        broadcast use lemma_stream_tail_concat;

    }
    match ctx.read_next_command() {
        Option::None => Result::Ok(false),
        Option::Some(cmd) => {
            proof {
                assert(ctx@ == stream_tail(rem0, 1));
                assert(stream_tail(rem0, 1) =~= rem0.skip(1));
            }
            match cmd {
                DiffCommandValue::Enter(DiffPathElementValue::Field(_)) => {
                    match ctx.skip_value() {
                        Result::Err(e) => Result::Err(e),
                        Result::Ok(_) => Result::Ok(false),
                    }
                },
                DiffCommandValue::Enter(DiffPathElementValue::CollectionIndex(i)) => {
                    if i < es.len() {
                        let mut elem = Node::Leaf(Leaf::Unit);
                        vstd::pervasive::VecAdditionalExecFns::set_and_swap(es, i, &mut elem);
                        let step_res = elem.apply(ctx);
                        let ghost step = spec_apply_node(es0[i as int], rem0.skip(1));
                        vstd::pervasive::VecAdditionalExecFns::set_and_swap(es, i, &mut elem);
                        proof {
                            crate::value::lemma_nodes_view(es@);
                            assert(nodes_view(es@) =~= es0.update(i as int, step.node));
                            assert(ctx@ == stream_tail(rem0, 1 + step.used));
                        }
                        match step_res {
                            Result::Err(e) => Result::Err(e),
                            Result::Ok(step_changed) => {
                                let rest = apply_array_elems(es, ctx);
                                proof {
                                    let tail = apply_array_loop(
                                        es0.update(i as int, step.node),
                                        stream_tail(rem0, 1 + step.used),
                                    );
                                    assert(out.used == 1 + step.used + tail.used);
                                    assert(ctx@ == stream_tail(rem0, out.used));
                                }
                                match rest {
                                    Result::Err(e) => Result::Err(e),
                                    Result::Ok(rest_changed) => Result::Ok(
                                        step_changed || rest_changed,
                                    ),
                                }
                            },
                        }
                    } else {
                        match ctx.skip_value() {
                            Result::Err(e) => Result::Err(e),
                            Result::Ok(_) => {
                                let ghost sk = spec_skip(rem0.skip(1), 1);
                                proof {
                                    assert(ctx@ == stream_tail(rem0, 1 + sk.used));
                                }
                                let rest = apply_array_elems(es, ctx);
                                proof {
                                    let tail = apply_array_loop(es0, stream_tail(
                                        rem0,
                                        1 + sk.used,
                                    ));
                                    assert(out.used == 1 + sk.used + tail.used);
                                    assert(ctx@ == stream_tail(rem0, out.used));
                                }
                                rest
                            },
                        }
                    }
                },
                _ => Result::Ok(false),
            }
        },
    }
}

/// Apply the stream to a keyed map in place.
#[verifier::rlimit(100)]
pub fn apply_entries(entries: &mut Vec<MapEntry>, ctx: &mut ApplyContext) -> (r: Result<
    bool,
    ApplyError,
>)
    requires
        old(ctx).wf(),
    ensures
        final(ctx).wf(),
        ({
            let out = apply_entries_loop(entries_view(old(entries)@), old(ctx)@);
            &&& entries_view(final(entries)@) == out.entries
            &&& final(ctx)@ == stream_tail(old(ctx)@, out.used)
            &&& (out.err ==> r is Err)
            &&& (!out.err ==> r == Ok::<bool, ApplyError>(out.changed))
        }),
    decreases old(ctx)@.len(), 0int,
{
    let ghost rem0 = ctx@;
    let ghost en0 = entries_view(entries@);
    let ghost out = apply_entries_loop(en0, rem0);
    proof {
        crate::value::lemma_entries_view(entries@);
        broadcast use lemma_stream_tail_concat;

        assert(stream_tail(rem0, 0) =~= rem0);
    }
    match ctx.read_next_command() {
        Option::None => Result::Ok(false),
        Option::Some(cmd) => {
            proof {
                assert(ctx@ == stream_tail(rem0, 1));
                assert(stream_tail(rem0, 1) =~= rem0.skip(1));
            }
            match cmd {
                DiffCommandValue::Enter(DiffPathElementValue::Field(_)) => {
                    match ctx.skip_value() {
                        Result::Err(e) => Result::Err(e),
                        Result::Ok(_) => Result::Ok(false),
                    }
                },
                DiffCommandValue::AddKey(k) => {
                    match ctx.read_next_command() {
                        Option::Some(DiffCommandValue::Value(v)) => {
                            proof {
                                assert(rem0.skip(1)[0] == rem0[1]);
                                assert(ctx@ == stream_tail(rem0, 2));
                                crate::difference::lemma_dict_find_index(en0, k@);
                            }
                            let ghost j = crate::difference::dict_find_index(en0, k@);
                            match crate::difference::dict_find(entries, &k) {
                                Option::Some(idx) => {
                                    vstd::pervasive::VecAdditionalExecFns::set(
                                        entries,
                                        idx,
                                        MapEntry { key: k, value: v },
                                    );
                                },
                                Option::None => {
                                    entries.push(MapEntry { key: k, value: v });
                                },
                            }
                            let ghost en2 = (if j >= 0 {
                                en0.update(j, MapEntryV { key: k@, value: rem0[1]->Value_0 })
                            } else {
                                en0.push(MapEntryV { key: k@, value: rem0[1]->Value_0 })
                            });
                            proof {
                                crate::value::lemma_entries_view(entries@);
                                assert(entries_view(entries@) =~= en2);
                            }
                            let rest = apply_entries(entries, ctx);
                            proof {
                                let tail = apply_entries_loop(en2, stream_tail(rem0, 2));
                                assert(out.used == 2 + tail.used);
                                assert(ctx@ == stream_tail(rem0, out.used));
                                assert(out.entries == tail.entries);
                                assert(out.err == tail.err);
                                assert(out.changed);
                            }
                            match rest {
                                Result::Err(e) => Result::Err(e),
                                Result::Ok(_) => Result::Ok(true),
                            }
                        },
                        _ => {
                            proof {
                                if rem0.skip(1).len() > 0 {
                                    assert(rem0.skip(1)[0] == rem0[1]);
                                }
                                assert(ctx@ == stream_tail(rem0, out.used));
                            }
                            Result::Err(ApplyError::MalformedStream)
                        },
                    }
                },
                DiffCommandValue::EnterKey(k) => {
                    proof {
                        crate::difference::lemma_dict_find_index(en0, k@);
                    }
                    let ghost j = crate::difference::dict_find_index(en0, k@);
                    match crate::difference::dict_find(entries, &k) {
                        Option::Some(idx) => {
                            let mut entry = MapEntry {
                                key: Leaf::Unit,
                                value: Node::Leaf(Leaf::Unit),
                            };
                            vstd::pervasive::VecAdditionalExecFns::set_and_swap(
                                entries,
                                idx,
                                &mut entry,
                            );
                            let step_res = entry.value.apply(ctx);
                            let ghost step = spec_apply_node(en0[j].value, rem0.skip(1));
                            vstd::pervasive::VecAdditionalExecFns::set_and_swap(
                                entries,
                                idx,
                                &mut entry,
                            );
                            let ghost en2 = en0.update(j, MapEntryV { value: step.node, ..en0[j] });
                            proof {
                                crate::value::lemma_entries_view(entries@);
                                assert(entries_view(entries@) =~= en2);
                                assert(ctx@ == stream_tail(rem0, 1 + step.used));
                            }
                            match step_res {
                                Result::Err(e) => Result::Err(e),
                                Result::Ok(step_changed) => {
                                    let rest = apply_entries(entries, ctx);
                                    proof {
                                        let tail = apply_entries_loop(en2, stream_tail(
                                            rem0,
                                            1 + step.used,
                                        ));
                                        assert(out.used == 1 + step.used + tail.used);
                                        assert(ctx@ == stream_tail(rem0, out.used));
                                        assert(out.entries == tail.entries);
                                        assert(out.err == tail.err);
                                        assert(out.changed == (step.changed || tail.changed));
                                    }
                                    match rest {
                                        Result::Err(e) => Result::Err(e),
                                        Result::Ok(rest_changed) => Result::Ok(
                                            step_changed || rest_changed,
                                        ),
                                    }
                                },
                            }
                        },
                        Option::None => {
                            match ctx.skip_value() {
                                Result::Err(e) => Result::Err(e),
                                Result::Ok(_) => {
                                    let ghost sk = spec_skip(rem0.skip(1), 1);
                                    proof {
                                        assert(ctx@ == stream_tail(rem0, 1 + sk.used));
                                    }
                                    let rest = apply_entries(entries, ctx);
                                    proof {
                                        let tail = apply_entries_loop(en0, stream_tail(
                                            rem0,
                                            1 + sk.used,
                                        ));
                                        assert(out.used == 1 + sk.used + tail.used);
                                        assert(ctx@ == stream_tail(rem0, out.used));
                                        assert(out.entries == tail.entries);
                                        assert(out.err == tail.err);
                                        assert(out.changed == tail.changed);
                                    }
                                    rest
                                },
                            }
                        },
                    }
                },
                DiffCommandValue::RemoveKey(k) => {
                    proof {
                        crate::difference::lemma_dict_find_index(en0, k@);
                    }
                    let ghost j = crate::difference::dict_find_index(en0, k@);
                    let removed: bool = match crate::difference::dict_find(entries, &k) {
                        Option::Some(idx) => {
                            let _gone = entries.remove(idx);
                            true
                        },
                        Option::None => false,
                    };
                    let ghost en2 = (if j >= 0 {
                        en0.remove(j)
                    } else {
                        en0
                    });
                    proof {
                        crate::value::lemma_entries_view(entries@);
                        if j >= 0 {
                            crate::value::lemma_entries_view(old(entries)@);
                        }
                        assert(entries_view(entries@) =~= en2);
                    }
                    let rest = apply_entries(entries, ctx);
                    proof {
                        let tail = apply_entries_loop(en2, stream_tail(rem0, 1));
                        assert(out.used == 1 + tail.used);
                        assert(ctx@ == stream_tail(rem0, out.used));
                        assert(out.entries == tail.entries);
                        assert(out.err == tail.err);
                        assert(removed == (j >= 0));
                        assert(out.changed == ((j >= 0) || tail.changed));
                    }
                    match rest {
                        Result::Err(e) => Result::Err(e),
                        Result::Ok(rest_changed) => Result::Ok(removed || rest_changed),
                    }
                },
                _ => Result::Ok(false),
            }
        },
    }
}

impl Node {
    /// Consume the commands addressed at this subtree, mutating it in
    /// place.  Returns whether the subtree changed, or the fatal error
    /// when the stream is malformed.  The result is exactly
    /// [`spec_apply_node`]`(self@, stream)`.
    pub fn apply(&mut self, ctx: &mut ApplyContext) -> (r: Result<bool, ApplyError>)
        requires
            old(ctx).wf(),
        ensures
            final(ctx).wf(),
            ({
                let out = spec_apply_node(old(self)@, old(ctx)@);
                &&& final(self)@ == out.node
                &&& final(ctx)@ == stream_tail(old(ctx)@, out.used)
                &&& (out.err ==> r is Err)
                &&& (!out.err ==> r == Ok::<bool, ApplyError>(out.changed))
            }),
        decreases old(ctx)@.len(), 1int,
    {
        let ghost rem0 = ctx@;
        let ghost out = spec_apply_node(self@, rem0);
        proof {
            broadcast use lemma_stream_tail_concat;

        }
        let leafish = match self {
            Node::Leaf(_) => true,
            Node::Opaque(_) => true,
            _ => false,
        };
        if leafish {
            return ctx.read_value(self);
        }
        let variant_name: Option<String> = match self {
            Node::Variant(n, _, _) => Some(n.clone()),
            _ => None,
        };
        if let Some(vname) = variant_name {
            let ghost pe = spec_next_path_element(rem0);
            match ctx.next_path_element() {
                Option::None => Result::Ok(false),
                Option::Some(el) => {
                    proof {
                        assert(pe.used == 1nat);
                        assert(ctx@ == stream_tail(rem0, 1));
                        assert(stream_tail(rem0, 1) =~= rem0.skip(1));
                    }
                    match el {
                        DiffPathElementValue::FullEnumVariant => {
                            let rv_res = ctx.read_value(self);
                            let ghost rv = spec_read_value(rem0.skip(1), old(self)@);
                            match rv_res {
                                Result::Err(e) => Result::Err(e),
                                Result::Ok(_) => {
                                    proof {
                                        assert(ctx@ == stream_tail(rem0, 1 + rv.used));
                                    }
                                    ctx.consume_trailing_exit();
                                    proof {
                                        assert(ctx@ == stream_tail(rem0, out.used));
                                    }
                                    Result::Ok(true)
                                },
                            }
                        },
                        DiffPathElementValue::EnumVariant(v) => {
                            if v == vname {
                                let fl_res = match self {
                                    Node::Variant(_, k, fields) => {
                                        let kk = *k;
                                        apply_fields(kk, fields, ctx)
                                    },
                                    _ => {
                                        proof {
                                            assert(false);
                                        }
                                        Result::Ok(false)
                                    },
                                };
                                let ghost fl = apply_fields_loop(
                                    old(self)@->Variant_1,
                                    old(self)@->Variant_2,
                                    rem0.skip(1),
                                );
                                match fl_res {
                                    Result::Err(e) => Result::Err(e),
                                    Result::Ok(fl_changed) => {
                                        proof {
                                            assert(ctx@ == stream_tail(rem0, 1 + fl.used));
                                        }
                                        ctx.consume_trailing_exit();
                                        proof {
                                            assert(ctx@ == stream_tail(rem0, out.used));
                                        }
                                        Result::Ok(fl_changed)
                                    },
                                }
                            } else {
                                match ctx.skip_value() {
                                    Result::Err(e) => Result::Err(e),
                                    Result::Ok(_) => {
                                        let ghost sk = spec_skip(rem0.skip(1), 1);
                                        proof {
                                            assert(ctx@ == stream_tail(rem0, 1 + sk.used));
                                        }
                                        ctx.consume_trailing_exit();
                                        proof {
                                            assert(ctx@ == stream_tail(rem0, out.used));
                                        }
                                        Result::Ok(false)
                                    },
                                }
                            }
                        },
                        _ => {
                            match ctx.skip_value() {
                                Result::Err(e) => Result::Err(e),
                                Result::Ok(_) => {
                                    let ghost sk = spec_skip(rem0.skip(1), 1);
                                    proof {
                                        assert(ctx@ == stream_tail(rem0, 1 + sk.used));
                                    }
                                    ctx.consume_trailing_exit();
                                    proof {
                                        assert(ctx@ == stream_tail(rem0, out.used));
                                    }
                                    Result::Ok(false)
                                },
                            }
                        },
                    }
                },
            }
        } else {
            match self {
                Node::Record(k, fields) => {
                    let kk = *k;
                    apply_fields(kk, fields, ctx)
                },
                Node::List(es) => apply_elems(es, false, ctx),
                Node::Opt(es) => apply_elems(es, true, ctx),
                Node::Array(es) => apply_array_elems(es, ctx),
                Node::Dict(en) => apply_entries(en, ctx),
                _ => {
                    proof {
                        assert(false);
                    }
                    Result::Ok(false)
                },
            }
        }
    }
}

} // verus!
