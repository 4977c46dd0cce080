//! Laws that hold of the library as a whole, stated over the functional
//! specifications that the engines' contracts pin down.
//!
//! Proved here: the diff of a value against itself emits nothing, and an
//! empty command sequence changes no target (the no-op law); every
//! emitted stream is depth-balanced, so skipping an emitted subtree
//! consumes exactly that subtree and never fails (the mechanism behind
//! schema-drift tolerance), at every site that skips — unknown fields,
//! out-of-range positions, unknown map keys, foreign variants; a tag
//! change replaces any tagged-union target wholesale; and on records of
//! scalars, three-way application and the round trip hold in full.
//! The no-op law assumes [`node_wf`]: a map with duplicate keys has no
//! coherent diff.

use vstd::prelude::*;

use crate::apply::{
    apply_array_loop, apply_elems_loop, apply_entries_loop, apply_fields_loop, spec_apply_node,
    spec_next_path_element, spec_read_value, spec_skip, spec_trailing_exit, ApplyOut,
};
use crate::difference::{
    adds_stream, cstream, dict_adds, dict_find_index, dict_lookup, dict_update_contrib,
    dict_updates, dstream, field_contrib, fields_stream, lemma_dict_find_index, list_stream,
    lock_contrib, lock_stream, self_closing, CmdV,
};
use crate::value::{
    elems_wf, entries_wf, fields_wf, keys_distinct, lemma_elems_wf, lemma_entries_wf,
    lemma_fields_wf, node_wf, FieldMode, FieldV, MapEntryV, NodeV, RecordKind,
};
use crate::FieldPathMode;

verus! {

/// A value diffed against itself emits no commands at all: pending path
/// steps are buffered and never flushed.
pub proof fn lemma_noop_diff(x: NodeV, mode: FieldPathMode)
    requires
        node_wf(x),
    ensures
        dstream(x, x, mode) == Seq::<CmdV>::empty(),
    decreases x, 4int, 0int,
{
    broadcast use lemma_fields_wf, lemma_elems_wf, lemma_entries_wf;

    match x {
        NodeV::Leaf(_) => {
        }
        NodeV::Opaque(_) => {
        }
        NodeV::Record(kind, fs) => {
            lemma_noop_fields(kind, fs, mode, 0);
        }
        NodeV::Variant(_, kind, fs) => {
            lemma_noop_fields(kind, fs, mode, 0);
        }
        NodeV::List(es) => {
            lemma_noop_lock(es, mode, 0);
        }
        NodeV::Opt(es) => {
            lemma_noop_lock(es, mode, 0);
        }
        NodeV::Array(es) => {
            lemma_noop_lock(es, mode, 0);
        }
        NodeV::Dict(en) => {
            lemma_noop_updates(en, mode, 0);
            lemma_noop_adds(en, 0);
            assert((dict_updates(en, en, mode, 0) + dict_adds(en, en, 0)).len() == 0);
        }
    }
}

proof fn lemma_noop_fields(kind: RecordKind, fs: Seq<FieldV>, mode: FieldPathMode, i: int)
    requires
        fields_wf(fs),
    ensures
        fields_stream(kind, fs, fs, mode, i) == Seq::<CmdV>::empty(),
    decreases fs, 2int, fs.len() - i,
{
    broadcast use lemma_fields_wf;

    if 0 <= i < fs.len() {
        match fs[i].mode {
            FieldMode::Skip => {
            }
            FieldMode::Opaque => {
            }
            FieldMode::Normal => {
                lemma_noop_diff(fs[i].value, mode);
            }
        }
        assert(field_contrib(kind, fs, fs, mode, i) == Seq::<CmdV>::empty());
        lemma_noop_fields(kind, fs, mode, i + 1);
        assert(Seq::<CmdV>::empty() + Seq::<CmdV>::empty() =~= Seq::<CmdV>::empty());
    }
}

proof fn lemma_noop_lock(es: Seq<NodeV>, mode: FieldPathMode, i: int)
    requires
        elems_wf(es),
    ensures
        lock_stream(es, es, mode, i) == Seq::<CmdV>::empty(),
    decreases es, 2int, es.len() - i,
{
    broadcast use lemma_elems_wf;

    if 0 <= i < es.len() {
        lemma_noop_diff(es[i], mode);
        assert(lock_contrib(es, es, mode, i) == Seq::<CmdV>::empty());
        lemma_noop_lock(es, mode, i + 1);
        assert(Seq::<CmdV>::empty() + Seq::<CmdV>::empty() =~= Seq::<CmdV>::empty());
    }
}

proof fn lemma_noop_updates(en: Seq<MapEntryV>, mode: FieldPathMode, i: int)
    requires
        keys_distinct(en),
        entries_wf(en),
    ensures
        dict_updates(en, en, mode, i) == Seq::<CmdV>::empty(),
    decreases en, 2int, en.len() - i,
{
    broadcast use lemma_entries_wf;

    if 0 <= i < en.len() {
        lemma_dict_find_index(en, en[i].key);
        let fi = dict_find_index(en, en[i].key);
        if fi < 0 {
            assert(en[i].key != en[i].key);
        } else if fi < i {
            assert(en[fi].key != en[i].key);
        } else if fi > i {
            assert(en[i].key != en[i].key);
        }
        assert(fi == i);
        assert(dict_lookup(en, en[i].key) == Option::Some(en[i].value));
        lemma_noop_diff(en[i].value, mode);
        assert(dict_update_contrib(en, en, mode, i) == Seq::<CmdV>::empty());
        lemma_noop_updates(en, mode, i + 1);
        assert(Seq::<CmdV>::empty() + Seq::<CmdV>::empty() =~= Seq::<CmdV>::empty());
    }
}

proof fn lemma_noop_adds(en: Seq<MapEntryV>, j: int)
    ensures
        dict_adds(en, en, j) == Seq::<CmdV>::empty(),
    decreases en.len() - j,
{
    if 0 <= j < en.len() {
        lemma_dict_find_index(en, en[j].key);
        let fi = dict_find_index(en, en[j].key);
        if fi < 0 {
            assert(en[j].key != en[j].key);
        }
        assert(fi >= 0);
        lemma_noop_adds(en, j + 1);
        assert(Seq::<CmdV>::empty() + Seq::<CmdV>::empty() =~= Seq::<CmdV>::empty());
    }
}

/// Applying an empty command sequence consumes nothing, changes nothing,
/// and leaves any target — of any shape — exactly as it was.
pub proof fn lemma_apply_empty(t: NodeV)
    ensures
        spec_apply_node(t, Seq::<CmdV>::empty()) == (ApplyOut {
            node: t,
            used: 0,
            changed: false,
            err: false,
        }),
{
    let s = Seq::<CmdV>::empty();
    match t {
        NodeV::Leaf(_) => {
            assert(spec_read_value(s, t).node == t);
        }
        NodeV::Opaque(_) => {
            assert(spec_read_value(s, t).node == t);
        }
        NodeV::Record(kind, fs) => {
            assert(apply_fields_loop(kind, fs, s).fields == fs);
            assert(spec_apply_node(t, s).node == NodeV::Record(kind, fs));
        }
        NodeV::Variant(nm, kind, fs) => {
            assert(spec_next_path_element(s).elem is None);
        }
        NodeV::List(es) => {
            assert(apply_elems_loop(es, false, s).elems == es);
            assert(spec_apply_node(t, s).node == NodeV::List(es));
        }
        NodeV::Opt(es) => {
            assert(apply_elems_loop(es, true, s).elems == es);
            assert(spec_apply_node(t, s).node == NodeV::Opt(es));
        }
        NodeV::Array(es) => {
            assert(apply_array_loop(es, s).elems == es);
            assert(spec_apply_node(t, s).node == NodeV::Array(es));
        }
        NodeV::Dict(en) => {
            assert(apply_entries_loop(en, s).entries == en);
            assert(spec_apply_node(t, s).node == NodeV::Dict(en));
        }
    }
}

/// The no-op law: the diff of any value against itself reports no
/// change, and applying it to any target — equal to the diffed value or
/// not — consumes nothing and leaves the target untouched.
pub proof fn lemma_noop_diff_applies_as_noop(t: NodeV, x: NodeV, mode: FieldPathMode)
    requires
        node_wf(x),
    ensures
        dstream(x, x, mode).len() == 0,
        spec_apply_node(t, dstream(x, x, mode)) == (ApplyOut {
            node: t,
            used: 0,
            changed: false,
            err: false,
        }),
{
    lemma_noop_diff(x, mode);
    lemma_apply_empty(t);
}

/// The depth effect of one command during a skip: enters and map-key
/// descents deepen, removals of map keys are self-closing and neutral,
/// everything else closes one level.
pub open spec fn cmd_eff(c: CmdV) -> int {
    match c {
        CmdV::Enter(_) => 1,
        CmdV::AddKey(_) => 1,
        CmdV::EnterKey(_) => 1,
        CmdV::RemoveKey(_) => 0,
        CmdV::Value(_) => -1,
        CmdV::Remove(_) => -1,
        CmdV::Exit => -1,
    }
}

/// The total depth effect of a command segment.
pub open spec fn seg_eff(s: Seq<CmdV>) -> int
    decreases s.len(),
{
    if s.len() == 0 {
        0
    } else {
        cmd_eff(s[0]) + seg_eff(s.skip(1))
    }
}

/// A segment that stays within its own subtree: no prefix descends
/// below the level it started on, and the whole has no net effect.
pub open spec fn neutral_seg(s: Seq<CmdV>) -> bool {
    seg_eff(s) == 0 && forall|i: int| 0 <= i <= s.len() ==> seg_eff(#[trigger] s.take(i)) >= 0
}

/// A segment that closes exactly one enclosing level, and only with its
/// last command.
pub open spec fn closed_seg(s: Seq<CmdV>) -> bool {
    s.len() > 0 && seg_eff(s) == -1 && forall|i: int|
        0 <= i < s.len() ==> seg_eff(#[trigger] s.take(i)) >= 0
}

proof fn lemma_seg_eff_concat(a: Seq<CmdV>, b: Seq<CmdV>)
    ensures
        seg_eff(a + b) == seg_eff(a) + seg_eff(b),
    decreases a.len(),
{
    if a.len() == 0 {
        assert(a + b =~= b);
    } else {
        assert((a + b).skip(1) =~= a.skip(1) + b);
        lemma_seg_eff_concat(a.skip(1), b);
    }
}

proof fn lemma_take_of_concat(a: Seq<CmdV>, b: Seq<CmdV>, i: int)
    requires
        0 <= i <= a.len() + b.len(),
    ensures
        i <= a.len() ==> (a + b).take(i) == a.take(i),
        i > a.len() ==> (a + b).take(i) == a + b.take(i - a.len()),
{
    if i <= a.len() {
        assert((a + b).take(i) =~= a.take(i));
    } else {
        assert((a + b).take(i) =~= a + b.take(i - a.len()));
    }
}

proof fn lemma_neutral_concat(a: Seq<CmdV>, b: Seq<CmdV>)
    requires
        neutral_seg(a),
        neutral_seg(b),
    ensures
        neutral_seg(a + b),
{
    lemma_seg_eff_concat(a, b);
    assert forall|i: int| 0 <= i <= (a + b).len() implies seg_eff(#[trigger] (a + b).take(i))
        >= 0 by {
        lemma_take_of_concat(a, b, i);
        if i > a.len() {
            lemma_seg_eff_concat(a, b.take(i - a.len()));
        }
    }
}

proof fn lemma_neutral_then_exit(a: Seq<CmdV>)
    requires
        neutral_seg(a),
    ensures
        closed_seg(a + seq![CmdV::Exit]),
{
    let b = seq![CmdV::Exit];
    lemma_seg_eff_concat(a, b);
    assert(seg_eff(b) == -1 + seg_eff(b.skip(1)));
    assert(b.skip(1) =~= Seq::<CmdV>::empty());
    assert forall|i: int| 0 <= i < (a + b).len() implies seg_eff(#[trigger] (a + b).take(i))
        >= 0 by {
        lemma_take_of_concat(a, b, i);
    }
}

/// A descent followed by a closed subtree is neutral: the enter opens
/// one level and the subtree's last command closes it.
proof fn lemma_enter_then_closed(c: CmdV, s: Seq<CmdV>)
    requires
        cmd_eff(c) == 1,
        closed_seg(s),
    ensures
        neutral_seg(seq![c] + s),
{
    let a = seq![c];
    lemma_seg_eff_concat(a, s);
    assert(seg_eff(a) == 1 + seg_eff(a.skip(1)));
    assert(a.skip(1) =~= Seq::<CmdV>::empty());
    assert forall|i: int| 0 <= i <= (a + s).len() implies seg_eff(#[trigger] (a + s).take(i))
        >= 0 by {
        lemma_take_of_concat(a, s, i);
        if i > 1 {
            lemma_seg_eff_concat(a, s.take(i - 1));
            if i - 1 == s.len() {
                assert(s.take(i - 1) =~= s);
            }
        } else if i == 1 {
            assert((a + s).take(1) =~= a);
        }
    }
}

/// A self-closing pair — an announcement opening one level and the value
/// that closes it — is neutral.
proof fn lemma_pair_neutral(c1: CmdV, c2: CmdV)
    requires
        cmd_eff(c1) == 1,
        cmd_eff(c2) == -1,
    ensures
        neutral_seg(seq![c1, c2]),
{
    let s = seq![c1, c2];
    assert(seg_eff(s.skip(1)) == cmd_eff(c2) + seg_eff(s.skip(1).skip(1)));
    assert(s.skip(1).skip(1) =~= Seq::<CmdV>::empty());
    assert(seg_eff(s) == 0);
    assert forall|i: int| 0 <= i <= 2 implies seg_eff(#[trigger] s.take(i)) >= 0 by {
        if i == 0 {
            assert(s.take(0) =~= Seq::<CmdV>::empty());
        } else if i == 1 {
            assert(s.take(1) =~= seq![c1]);
            assert(seg_eff(seq![c1]) == cmd_eff(c1) + seg_eff(seq![c1].skip(1)));
            assert(seq![c1].skip(1) =~= Seq::<CmdV>::empty());
        } else {
            assert(s.take(2) =~= s);
        }
    }
}

proof fn lemma_empty_neutral()
    ensures
        neutral_seg(Seq::<CmdV>::empty()),
{
    assert forall|i: int| 0 <= i <= 0 implies seg_eff(
        #[trigger] Seq::<CmdV>::empty().take(i),
    ) >= 0 by {
        assert(Seq::<CmdV>::empty().take(i) =~= Seq::<CmdV>::empty());
    }
}

proof fn lemma_single_closer(c: CmdV)
    requires
        cmd_eff(c) == -1,
    ensures
        closed_seg(seq![c]),
{
    assert(seg_eff(seq![c]) == cmd_eff(c) + seg_eff(seq![c].skip(1)));
    assert(seq![c].skip(1) =~= Seq::<CmdV>::empty());
    assert forall|i: int| 0 <= i < 1 implies seg_eff(#[trigger] seq![c].take(i)) >= 0 by {
        assert(seq![c].take(0) =~= Seq::<CmdV>::empty());
    }
}

proof fn lemma_single_neutral(c: CmdV)
    requires
        cmd_eff(c) == 0,
    ensures
        neutral_seg(seq![c]),
{
    assert(seg_eff(seq![c]) == cmd_eff(c) + seg_eff(seq![c].skip(1)));
    assert(seq![c].skip(1) =~= Seq::<CmdV>::empty());
    assert forall|i: int| 0 <= i <= 1 implies seg_eff(#[trigger] seq![c].take(i)) >= 0 by {
        if i == 0 {
            assert(seq![c].take(0) =~= Seq::<CmdV>::empty());
        } else {
            assert(seq![c].take(1) =~= seq![c]);
        }
    }
}

/// Every stream the differ emits is depth-balanced: self-closing shapes
/// emit a segment that closes its enclosing path step exactly once, and
/// the others emit a neutral segment whose closing the engine's pop
/// appends.
pub proof fn lemma_stream_balanced(x: NodeV, y: NodeV, mode: FieldPathMode)
    ensures
        dstream(x, y, mode).len() > 0 && self_closing(x) ==> closed_seg(dstream(x, y, mode)),
        dstream(x, y, mode).len() > 0 && !self_closing(x) ==> neutral_seg(dstream(x, y, mode)),
        cstream(x, y, mode).len() > 0 ==> closed_seg(cstream(x, y, mode)),
    decreases x, 5int, 0int,
{
    let d = dstream(x, y, mode);
    match (x, y) {
        (NodeV::Leaf(_), NodeV::Leaf(_)) => {
            if d.len() > 0 {
                lemma_single_closer(d[0]);
                assert(seq![d[0]] =~= d);
            }
        }
        (NodeV::Opaque(_), NodeV::Opaque(_)) => {
            if d.len() > 0 {
                lemma_single_closer(d[0]);
                assert(seq![d[0]] =~= d);
            }
        }
        (NodeV::Record(k1, f1), NodeV::Record(k2, f2)) => {
            lemma_fields_balanced(k1, f1, f2, mode, 0);
            if d.len() > 0 {
                lemma_neutral_then_exit(d);
            }
        }
        (NodeV::Variant(n1, k1, f1), NodeV::Variant(n2, k2, f2)) => {
            if n1 == n2 {
                let fs = fields_stream(k1, f1, f2, mode, 0);
                if fs.len() > 0 {
                    lemma_fields_balanced(k1, f1, f2, mode, 0);
                    lemma_neutral_then_exit(fs);
                    lemma_enter_then_closed(
                        CmdV::Enter(crate::difference::PathElV::EnumVariant(n1)),
                        fs + seq![CmdV::Exit],
                    );
                    assert(seq![CmdV::Enter(crate::difference::PathElV::EnumVariant(n1))] + (fs
                        + seq![CmdV::Exit]) =~= d);
                    lemma_neutral_then_exit(d);
                }
            } else {
                lemma_pair_neutral(
                    CmdV::Enter(crate::difference::PathElV::FullEnumVariant),
                    CmdV::Value(y),
                );
                assert(seq![CmdV::Enter(crate::difference::PathElV::FullEnumVariant), CmdV::Value(
                    y,
                )] =~= d);
                lemma_neutral_then_exit(d);
            }
        }
        (NodeV::List(xs), NodeV::List(ys)) => {
            lemma_list_balanced(xs, ys, mode);
        }
        (NodeV::Opt(xs), NodeV::Opt(ys)) => {
            lemma_list_balanced(xs, ys, mode);
        }
        (NodeV::Array(xs), NodeV::Array(ys)) => {
            lemma_lock_balanced(xs, ys, mode, 0);
            let locks = lock_stream(xs, ys, mode, 0);
            if locks.len() > 0 {
                lemma_neutral_then_exit(locks);
            }
        }
        (NodeV::Dict(ea), NodeV::Dict(eb)) => {
            lemma_updates_balanced(ea, eb, mode, 0);
            lemma_dict_adds_balanced(ea, eb, 0);
            let body = dict_updates(ea, eb, mode, 0) + dict_adds(ea, eb, 0);
            lemma_neutral_concat(dict_updates(ea, eb, mode, 0), dict_adds(ea, eb, 0));
            if body.len() > 0 {
                lemma_neutral_then_exit(body);
            }
        }
        _ => {
        }
    }
}

proof fn lemma_fields_balanced(
    kind: RecordKind,
    f1: Seq<FieldV>,
    f2: Seq<FieldV>,
    mode: FieldPathMode,
    i: int,
)
    ensures
        neutral_seg(fields_stream(kind, f1, f2, mode, i)),
    decreases f1, 3int, f1.len() - i,
{
    lemma_empty_neutral();
    let n = if f1.len() <= f2.len() {
        f1.len() as int
    } else {
        f2.len() as int
    };
    if 0 <= i < n {
        let piece = field_contrib(kind, f1, f2, mode, i);
        lemma_field_contrib_balanced(kind, f1, f2, mode, i);
        lemma_fields_balanced(kind, f1, f2, mode, i + 1);
        lemma_neutral_concat(piece, fields_stream(kind, f1, f2, mode, i + 1));
    }
}

proof fn lemma_field_contrib_balanced(
    kind: RecordKind,
    f1: Seq<FieldV>,
    f2: Seq<FieldV>,
    mode: FieldPathMode,
    i: int,
)
    ensures
        neutral_seg(field_contrib(kind, f1, f2, mode, i)),
    decreases f1, 2int, i,
{
    lemma_empty_neutral();
    let piece = field_contrib(kind, f1, f2, mode, i);
    if 0 <= i < f1.len() && i < f2.len() {
        match f1[i].mode {
            FieldMode::Skip => {
            }
            FieldMode::Opaque => {
                if f1[i].value != f2[i].value {
                    let p = crate::difference::field_path(kind, f1[i], i, mode);
                    lemma_pair_neutral(CmdV::Enter(p), CmdV::Value(f2[i].value));
                    assert(seq![CmdV::Enter(p), CmdV::Value(f2[i].value)] =~= piece);
                }
            }
            FieldMode::Normal => {
                let cs = cstream(f1[i].value, f2[i].value, mode);
                if cs.len() > 0 {
                    lemma_stream_balanced(f1[i].value, f2[i].value, mode);
                    let p = crate::difference::field_path(kind, f1[i], i, mode);
                    lemma_enter_then_closed(CmdV::Enter(p), cs);
                }
            }
        }
    }
}

proof fn lemma_lock_balanced(xs: Seq<NodeV>, ys: Seq<NodeV>, mode: FieldPathMode, i: int)
    ensures
        neutral_seg(lock_stream(xs, ys, mode, i)),
    decreases xs, 3int, xs.len() - i,
{
    lemma_empty_neutral();
    let n = if xs.len() <= ys.len() {
        xs.len() as int
    } else {
        ys.len() as int
    };
    if 0 <= i < n {
        let piece = lock_contrib(xs, ys, mode, i);
        lemma_lock_contrib_balanced(xs, ys, mode, i);
        lemma_lock_balanced(xs, ys, mode, i + 1);
        lemma_neutral_concat(piece, lock_stream(xs, ys, mode, i + 1));
    }
}

proof fn lemma_lock_contrib_balanced(xs: Seq<NodeV>, ys: Seq<NodeV>, mode: FieldPathMode, i: int)
    ensures
        neutral_seg(lock_contrib(xs, ys, mode, i)),
    decreases xs, 2int, i,
{
    lemma_empty_neutral();
    if 0 <= i < xs.len() && i < ys.len() {
        let cs = cstream(xs[i], ys[i], mode);
        if cs.len() > 0 {
            lemma_stream_balanced(xs[i], ys[i], mode);
            lemma_enter_then_closed(
                CmdV::Enter(crate::difference::PathElV::CollectionIndex(i as usize)),
                cs,
            );
        }
    }
}

proof fn lemma_adds_balanced(ys: Seq<NodeV>, j: int)
    ensures
        neutral_seg(adds_stream(ys, j)),
    decreases ys.len() - j,
{
    lemma_empty_neutral();
    if 0 <= j < ys.len() {
        lemma_pair_neutral(
            CmdV::Enter(crate::difference::PathElV::AddToCollection),
            CmdV::Value(ys[j]),
        );
        lemma_adds_balanced(ys, j + 1);
        lemma_neutral_concat(
            seq![CmdV::Enter(crate::difference::PathElV::AddToCollection), CmdV::Value(ys[j])],
            adds_stream(ys, j + 1),
        );
    }
}

proof fn lemma_list_balanced(xs: Seq<NodeV>, ys: Seq<NodeV>, mode: FieldPathMode)
    ensures
        list_stream(xs, ys, mode).len() > 0 ==> closed_seg(list_stream(xs, ys, mode)),
    decreases xs, 4int, 0int,
{
    lemma_lock_balanced(xs, ys, mode, 0);
    let locks = lock_stream(xs, ys, mode, 0);
    if xs.len() > ys.len() {
        lemma_single_closer(CmdV::Remove((xs.len() - ys.len()) as usize));
        lemma_neutral_then_closer(locks, seq![CmdV::Remove((xs.len() - ys.len()) as usize)]);
    } else if ys.len() > xs.len() {
        lemma_adds_balanced(ys, xs.len() as int);
        lemma_neutral_concat(locks, adds_stream(ys, xs.len() as int));
        lemma_neutral_then_exit(locks + adds_stream(ys, xs.len() as int));
    } else if locks.len() > 0 {
        lemma_neutral_then_exit(locks);
    }
}

/// A neutral segment followed by a closed one closes the level.
proof fn lemma_neutral_then_closer(a: Seq<CmdV>, b: Seq<CmdV>)
    requires
        neutral_seg(a),
        closed_seg(b),
    ensures
        closed_seg(a + b),
{
    lemma_seg_eff_concat(a, b);
    assert forall|i: int| 0 <= i < (a + b).len() implies seg_eff(#[trigger] (a + b).take(i))
        >= 0 by {
        lemma_take_of_concat(a, b, i);
        if i > a.len() {
            lemma_seg_eff_concat(a, b.take(i - a.len()));
        }
    }
}

proof fn lemma_updates_balanced(ea: Seq<MapEntryV>, eb: Seq<MapEntryV>, mode: FieldPathMode, i: int)
    ensures
        neutral_seg(dict_updates(ea, eb, mode, i)),
    decreases ea, 3int, ea.len() - i,
{
    lemma_empty_neutral();
    if 0 <= i < ea.len() {
        let piece = dict_update_contrib(ea, eb, mode, i);
        lemma_update_contrib_balanced(ea, eb, mode, i);
        lemma_updates_balanced(ea, eb, mode, i + 1);
        lemma_neutral_concat(piece, dict_updates(ea, eb, mode, i + 1));
    }
}

proof fn lemma_update_contrib_balanced(
    ea: Seq<MapEntryV>,
    eb: Seq<MapEntryV>,
    mode: FieldPathMode,
    i: int,
)
    ensures
        neutral_seg(dict_update_contrib(ea, eb, mode, i)),
    decreases ea, 2int, i,
{
    lemma_empty_neutral();
    if 0 <= i < ea.len() {
        match dict_lookup(eb, ea[i].key) {
            Option::Some(vb) => {
                let cs = cstream(ea[i].value, vb, mode);
                if cs.len() > 0 {
                    lemma_stream_balanced(ea[i].value, vb, mode);
                    lemma_enter_then_closed(CmdV::EnterKey(ea[i].key), cs);
                }
            }
            Option::None => {
                lemma_single_neutral(CmdV::RemoveKey(ea[i].key));
            }
        }
    }
}

proof fn lemma_dict_adds_balanced(ea: Seq<MapEntryV>, eb: Seq<MapEntryV>, j: int)
    ensures
        neutral_seg(dict_adds(ea, eb, j)),
    decreases eb.len() - j,
{
    lemma_empty_neutral();
    if 0 <= j < eb.len() {
        let piece = (if crate::difference::dict_has(ea, eb[j].key) {
            Seq::<CmdV>::empty()
        } else {
            seq![CmdV::AddKey(eb[j].key), CmdV::Value(eb[j].value)]
        });
        if !crate::difference::dict_has(ea, eb[j].key) {
            lemma_pair_neutral(CmdV::AddKey(eb[j].key), CmdV::Value(eb[j].value));
        }
        lemma_dict_adds_balanced(ea, eb, j + 1);
        lemma_neutral_concat(piece, dict_adds(ea, eb, j + 1));
    }
}

/// Skipping a segment that closes exactly `d` levels consumes exactly
/// that segment, whatever follows it, and never fails.
proof fn lemma_skip_closes(s: Seq<CmdV>, rest: Seq<CmdV>, d: int)
    requires
        d >= 1,
        s.len() > 0,
        seg_eff(s) == -d,
        forall|i: int| 0 < i < s.len() ==> seg_eff(#[trigger] s.take(i)) > -d,
    ensures
        spec_skip(s + rest, d) == (crate::apply::SkipOut { used: s.len() as nat, err: false }),
    decreases s.len(),
{
    let w = s + rest;
    assert(w[0] == s[0]);
    let d2 = d + cmd_eff(s[0]);
    assert(w.skip(1) =~= s.skip(1) + rest);
    assert(seg_eff(s) == cmd_eff(s[0]) + seg_eff(s.skip(1)));
    assert(spec_skip(w, d) == (crate::apply::SkipOut {
        used: (spec_skip(w.skip(1), d2).used + 1) as nat,
        err: spec_skip(w.skip(1), d2).err,
    }));
    if s.len() == 1 {
        assert(s.skip(1) =~= Seq::<CmdV>::empty());
        assert(seg_eff(s.skip(1)) == 0);
        assert(cmd_eff(s[0]) == -d);
        assert(d2 == 0);
        assert(spec_skip(w.skip(1), 0int) == (crate::apply::SkipOut { used: 0nat, err: false }));
    } else {
        assert(s.take(1) =~= seq![s[0]]);
        assert(seg_eff(seq![s[0]]) == cmd_eff(s[0]) + seg_eff(seq![s[0]].skip(1)));
        assert(seq![s[0]].skip(1) =~= Seq::<CmdV>::empty());
        assert(d2 >= 1);
        let s2 = s.skip(1);
        assert(seg_eff(s) == cmd_eff(s[0]) + seg_eff(s2));
        assert(seg_eff(s2) == -d2);
        assert forall|i: int| 0 < i < s2.len() implies seg_eff(#[trigger] s2.take(i)) > -d2 by {
            assert(s.take(i + 1) =~= seq![s[0]] + s2.take(i));
            lemma_seg_eff_concat(seq![s[0]], s2.take(i));
            assert(seg_eff(seq![s[0]]) == cmd_eff(s[0]) + seg_eff(seq![s[0]].skip(1)));
            assert(seq![s[0]].skip(1) =~= Seq::<CmdV>::empty());
        }
        lemma_skip_closes(s2, rest, d2);
    }
}

/// Skip robustness, as far as the differ's own streams go: the subtree
/// stream the differ emits for any changed pair, wherever it stands in a
/// larger sequence, is consumed exactly and silently by the applier's
/// skip — an applier that does not recognize the path ignores the
/// subtree and loses nothing else.
pub proof fn lemma_skip_emitted_subtree(x: NodeV, y: NodeV, mode: FieldPathMode, rest: Seq<CmdV>)
    ensures
        cstream(x, y, mode).len() > 0 ==> spec_skip(cstream(x, y, mode) + rest, 1)
            == (crate::apply::SkipOut { used: cstream(x, y, mode).len() as nat, err: false }),
{
    let cs = cstream(x, y, mode);
    if cs.len() > 0 {
        lemma_stream_balanced(x, y, mode);
        lemma_skip_closes(cs, rest, 1);
    }
}

/// Cross-variant partial application has no well-defined semantics, so
/// it deliberately does nothing: when both diffed sides carry one
/// variant and the target carries another, applying the emitted subtree
/// consumes it exactly and leaves the target untouched, with no error
/// and no change reported.
pub proof fn lemma_cross_variant_apply(
    t: NodeV,
    x: NodeV,
    y: NodeV,
    mode: FieldPathMode,
    rest: Seq<CmdV>,
)
    requires
        t is Variant,
        x is Variant,
        y is Variant,
        x->Variant_0 == y->Variant_0,
        t->Variant_0 != x->Variant_0,
    ensures
        cstream(x, y, mode).len() > 0 ==> spec_apply_node(t, cstream(x, y, mode) + rest)
            == (ApplyOut {
            node: t,
            used: cstream(x, y, mode).len() as nat,
            changed: false,
            err: false,
        }),
{
    let n = x->Variant_0;
    let k = x->Variant_1;
    let f1 = x->Variant_2;
    let f2 = y->Variant_2;
    let fs = fields_stream(k, f1, f2, mode, 0);
    let d = dstream(x, y, mode);
    let cs = cstream(x, y, mode);
    if cs.len() > 0 {
        assert(fs.len() > 0);
        assert(d == seq![CmdV::Enter(crate::difference::PathElV::EnumVariant(n))] + fs + seq![
            CmdV::Exit,
        ]);
        assert(cs == d + seq![CmdV::Exit]);
        let s = cs + rest;
        let inner = fs + seq![CmdV::Exit];
        assert(s[0] == CmdV::Enter(crate::difference::PathElV::EnumVariant(n)));
        let pe = spec_next_path_element(s);
        assert(pe.elem == Option::Some(crate::difference::PathElV::EnumVariant(n)));
        assert(pe.used == 1nat);
        lemma_fields_balanced(k, f1, f2, mode, 0);
        lemma_neutral_then_exit(fs);
        assert(s.skip(1) =~= inner + (seq![CmdV::Exit] + rest));
        lemma_skip_closes(inner, seq![CmdV::Exit] + rest, 1);
        let sk = spec_skip(s.skip(1), 1);
        assert(sk.used == inner.len());
        assert(!sk.err);
        assert(s.skip(1 + sk.used as int) =~= seq![CmdV::Exit] + rest);
        assert(spec_trailing_exit(s.skip(1 + sk.used as int)) == 1nat);
        assert(crate::difference::PathElV::EnumVariant(n) != crate::difference::PathElV::FullEnumVariant);
        assert(crate::difference::PathElV::EnumVariant(n) != crate::difference::PathElV::EnumVariant(
            t->Variant_0,
        ));
        assert(spec_apply_node(t, s) == (ApplyOut {
            node: t,
            used: (1 + sk.used + 1) as nat,
            changed: false,
            err: false,
        }));
        assert(1 + inner.len() + 1 == cs.len());
    }
}

/// A tag change replaces the target wholesale: when the two diffed
/// sides carry different variants, applying the emitted subtree to any
/// tagged-union target yields the new value entire, whatever the target
/// carried before.
pub proof fn lemma_variant_replacement_apply(
    t: NodeV,
    x: NodeV,
    y: NodeV,
    mode: FieldPathMode,
    rest: Seq<CmdV>,
)
    requires
        t is Variant,
        x is Variant,
        y is Variant,
        x->Variant_0 != y->Variant_0,
    ensures
        spec_apply_node(t, cstream(x, y, mode) + rest) == (ApplyOut {
            node: y,
            used: cstream(x, y, mode).len() as nat,
            changed: true,
            err: false,
        }),
{
    let d = dstream(x, y, mode);
    let cs = cstream(x, y, mode);
    assert(d == seq![CmdV::Enter(crate::difference::PathElV::FullEnumVariant), CmdV::Value(y)]);
    assert(cs == d + seq![CmdV::Exit]);
    let s = cs + rest;
    assert(s[0] == CmdV::Enter(crate::difference::PathElV::FullEnumVariant));
    let pe = spec_next_path_element(s);
    assert(pe.elem == Option::Some(crate::difference::PathElV::FullEnumVariant));
    assert(pe.used == 1nat);
    assert(s.skip(1)[0] == s[1]);
    assert(s[1] == CmdV::Value(y));
    let rv = spec_read_value(s.skip(1), t);
    assert(rv == (ApplyOut { node: y, used: 1nat, changed: true, err: false }));
    assert(s.skip(2)[0] == s[2]);
    assert(s[2] == CmdV::Exit);
    assert(spec_trailing_exit(s.skip(2)) == 1nat);
    assert(cs.len() == 3);
}

/// Schema drift on the target side, field case: a record applier that
/// receives the emitted contribution for a field it does not have — a
/// name it does not know, an index out of range, or a field it skips —
/// consumes that contribution exactly and silently, and goes on with
/// the rest of the stream as if the contribution were not there.
pub proof fn lemma_unknown_field_skipped(
    kind: RecordKind,
    fs: Seq<FieldV>,
    p: crate::difference::PathElV,
    x: NodeV,
    y: NodeV,
    mode: FieldPathMode,
    rest: Seq<CmdV>,
)
    requires
        crate::apply::field_target(kind, fs, p) < 0,
        cstream(x, y, mode).len() > 0,
    ensures
        apply_fields_loop(kind, fs, (seq![CmdV::Enter(p)] + cstream(x, y, mode)) + rest)
            == (crate::apply::FieldsOut {
            fields: apply_fields_loop(kind, fs, rest).fields,
            used: (1 + cstream(x, y, mode).len() + apply_fields_loop(kind, fs, rest).used) as nat,
            changed: apply_fields_loop(kind, fs, rest).changed,
            err: apply_fields_loop(kind, fs, rest).err,
        }),
{
    let cs = cstream(x, y, mode);
    let s = (seq![CmdV::Enter(p)] + cs) + rest;
    assert(s[0] == CmdV::Enter(p));
    let pe = spec_next_path_element(s);
    assert(pe.elem == Option::Some(p));
    assert(pe.used == 1nat);
    assert(s.skip(1) =~= cs + rest);
    lemma_stream_balanced(x, y, mode);
    lemma_skip_closes(cs, rest, 1);
    let sk = spec_skip(s.skip(1), 1);
    assert(sk.used == cs.len());
    assert(!sk.err);
    assert(1 + sk.used <= s.len());
    assert(crate::apply::stream_tail(s, 1 + sk.used) =~= rest);
}

/// Schema drift on the target side, sequence case: a sequence applier
/// that receives the emitted contribution for a position it does not
/// have consumes that contribution exactly and silently, and goes on
/// with the rest of the stream.
pub proof fn lemma_out_of_range_index_skipped(
    es: Seq<NodeV>,
    is_opt: bool,
    i: usize,
    x: NodeV,
    y: NodeV,
    mode: FieldPathMode,
    rest: Seq<CmdV>,
)
    requires
        i >= es.len(),
        cstream(x, y, mode).len() > 0,
    ensures
        apply_elems_loop(
            es,
            is_opt,
            (seq![CmdV::Enter(crate::difference::PathElV::CollectionIndex(i))] + cstream(
                x,
                y,
                mode,
            )) + rest,
        ) == (crate::apply::ElemsOut {
            elems: apply_elems_loop(es, is_opt, rest).elems,
            used: (1 + cstream(x, y, mode).len() + apply_elems_loop(es, is_opt, rest).used) as nat,
            changed: apply_elems_loop(es, is_opt, rest).changed,
            err: apply_elems_loop(es, is_opt, rest).err,
        }),
{
    let cs = cstream(x, y, mode);
    let s = (seq![CmdV::Enter(crate::difference::PathElV::CollectionIndex(i))] + cs) + rest;
    assert(s[0] == CmdV::Enter(crate::difference::PathElV::CollectionIndex(i)));
    assert(s.skip(1) =~= cs + rest);
    lemma_stream_balanced(x, y, mode);
    lemma_skip_closes(cs, rest, 1);
    let sk = spec_skip(s.skip(1), 1);
    assert(sk.used == cs.len());
    assert(!sk.err);
    assert(1 + sk.used <= s.len());
    assert(crate::apply::stream_tail(s, 1 + sk.used) =~= rest);
}

/// Schema drift on the target side, map case: a map applier that
/// receives the emitted keyed descent for a key it does not hold
/// consumes that contribution exactly and silently, and goes on with
/// the rest of the stream.
pub proof fn lemma_unknown_key_skipped(
    en: Seq<MapEntryV>,
    k: crate::value::LeafV,
    x: NodeV,
    y: NodeV,
    mode: FieldPathMode,
    rest: Seq<CmdV>,
)
    requires
        dict_find_index(en, k) < 0,
        cstream(x, y, mode).len() > 0,
    ensures
        apply_entries_loop(en, (seq![CmdV::EnterKey(k)] + cstream(x, y, mode)) + rest)
            == (crate::apply::EntriesOut {
            entries: apply_entries_loop(en, rest).entries,
            used: (1 + cstream(x, y, mode).len() + apply_entries_loop(en, rest).used) as nat,
            changed: apply_entries_loop(en, rest).changed,
            err: apply_entries_loop(en, rest).err,
        }),
{
    let cs = cstream(x, y, mode);
    let s = (seq![CmdV::EnterKey(k)] + cs) + rest;
    assert(s[0] == CmdV::EnterKey(k));
    assert(s.skip(1) =~= cs + rest);
    lemma_stream_balanced(x, y, mode);
    lemma_skip_closes(cs, rest, 1);
    let sk = spec_skip(s.skip(1), 1);
    assert(sk.used == cs.len());
    assert(!sk.err);
    assert(1 + sk.used <= s.len());
    assert(crate::apply::stream_tail(s, 1 + sk.used) =~= rest);
}

/// The opaque diff rule, end to end at a leaf: a changed scalar travels
/// as one value command, and applying it to any scalar target replaces
/// the target with the new value; an unchanged scalar emits nothing.
pub proof fn lemma_leaf_apply(t: NodeV, x: NodeV, y: NodeV, mode: FieldPathMode, rest: Seq<CmdV>)
    requires
        t is Leaf,
        x is Leaf,
        y is Leaf,
    ensures
        (cstream(x, y, mode).len() == 0) == (x == y),
        x != y ==> spec_apply_node(t, cstream(x, y, mode) + rest) == (ApplyOut {
            node: y,
            used: 1,
            changed: true,
            err: false,
        }),
{
    if x != y {
        let cs = cstream(x, y, mode);
        assert(cs == seq![CmdV::Value(y)]);
        let s = cs + rest;
        assert(s[0] == CmdV::Value(y));
    }
}

/// A record field list whose values are all scalars.
pub open spec fn flat_fields(fs: Seq<FieldV>) -> bool {
    forall|j: int| 0 <= j < fs.len() ==> (#[trigger] fs[j].value) is Leaf
}

/// Two field lists of one record type: same names and modes positionwise.
pub open spec fn same_field_shape(a: Seq<FieldV>, b: Seq<FieldV>) -> bool {
    a.len() == b.len() && forall|j: int|
        0 <= j < a.len() ==> (#[trigger] a[j]).name == b[j].name && a[j].mode == b[j].mode
}

/// Field names are pairwise distinct, as a record type's are.
pub open spec fn names_distinct(fs: Seq<FieldV>) -> bool {
    forall|i: int, j: int| 0 <= i < j < fs.len() ==> fs[i].name != fs[j].name
}

/// The three-way result on a flat record's fields, from position `i`
/// on: wherever the diffed sides disagree on a non-skipped field, the
/// target's field takes the new side's value; everywhere else it keeps
/// its own.
pub open spec fn flat_patched(
    g: Seq<FieldV>,
    fx: Seq<FieldV>,
    fy: Seq<FieldV>,
    i: int,
) -> Seq<FieldV> {
    Seq::new(
        g.len(),
        |j: int|
            if j >= i && 0 <= j < fx.len() && j < fy.len() && fx[j].mode != FieldMode::Skip
                && fx[j].value != fy[j].value {
                FieldV { value: fy[j].value, ..g[j] }
            } else {
                g[j]
            },
    )
}

/// The stream's field path resolves to the same position in the target
/// that it was emitted for, whatever the path mode: names are distinct
/// and indices are within the sixteen-bit range.
proof fn lemma_field_path_resolves(
    kind: RecordKind,
    g: Seq<FieldV>,
    fx: Seq<FieldV>,
    mode: FieldPathMode,
    i: int,
)
    requires
        same_field_shape(g, fx),
        names_distinct(g),
        fx.len() <= 65536,
        0 <= i < fx.len(),
        fx[i].mode != FieldMode::Skip,
    ensures
        crate::apply::field_target(kind, g, crate::difference::field_path(kind, fx[i], i, mode))
            == i,
{
    let p = crate::difference::field_path(kind, fx[i], i, mode);
    match p {
        crate::difference::PathElV::Field(nm) => {
            assert(nm == g[i].name);
            assert(g[i].mode != FieldMode::Skip);
            crate::apply::lemma_fields_name_index(g, nm);
            let fi = crate::apply::fields_name_index(g, nm);
            if fi < 0 {
                assert(!(g[i].name == nm && g[i].mode != FieldMode::Skip));
            } else if fi < i {
                assert(g[fi].name != g[i].name);
            } else if fi > i {
                assert(!(g[i].name == nm && g[i].mode != FieldMode::Skip));
            }
            assert(fi == i);
        }
        crate::difference::PathElV::FieldIndex(ix) => {
            assert(ix as int == i);
            assert(g[i].mode != FieldMode::Skip);
        }
        _ => {
            assert(false);
        }
    }
}

/// What one flat field contributes to the stream: nothing when skipped
/// or unchanged, else its path and the new scalar.
proof fn lemma_flat_contrib(
    kind: RecordKind,
    fx: Seq<FieldV>,
    fy: Seq<FieldV>,
    mode: FieldPathMode,
    i: int,
)
    requires
        flat_fields(fx),
        flat_fields(fy),
        same_field_shape(fx, fy),
        0 <= i < fx.len(),
    ensures
        (fx[i].mode == FieldMode::Skip || fx[i].value == fy[i].value) ==> field_contrib(
            kind,
            fx,
            fy,
            mode,
            i,
        ) == Seq::<CmdV>::empty(),
        !(fx[i].mode == FieldMode::Skip || fx[i].value == fy[i].value) ==> field_contrib(
            kind,
            fx,
            fy,
            mode,
            i,
        ) == seq![
            CmdV::Enter(crate::difference::field_path(kind, fx[i], i, mode)),
            CmdV::Value(fy[i].value),
        ],
{
    let piece = field_contrib(kind, fx, fy, mode, i);
    if !(fx[i].mode == FieldMode::Skip || fx[i].value == fy[i].value) {
        let p = crate::difference::field_path(kind, fx[i], i, mode);
        if fx[i].mode == FieldMode::Opaque {
            assert(piece == seq![CmdV::Enter(p), CmdV::Value(fy[i].value)]);
        } else {
            assert(cstream(fx[i].value, fy[i].value, mode) == seq![CmdV::Value(fy[i].value)]);
            assert(piece == seq![CmdV::Enter(p)] + seq![CmdV::Value(fy[i].value)]);
            assert(piece =~= seq![CmdV::Enter(p), CmdV::Value(fy[i].value)]);
        }
    } else {
        assert(piece =~= Seq::<CmdV>::empty());
    }
}

/// The record-field apply loop on a flat record's own stream, from
/// field `i` on: every emitted contribution lands on its own field, and
/// the loop ends on the stream's end or on the one exit allowed to
/// follow it (the close a variant payload's stream carries).
#[verifier::rlimit(100)]
#[verifier::spinoff_prover]
proof fn lemma_flat_fields_apply(
    kind: RecordKind,
    g: Seq<FieldV>,
    fx: Seq<FieldV>,
    fy: Seq<FieldV>,
    mode: FieldPathMode,
    i: int,
    rest: Seq<CmdV>,
)
    requires
        flat_fields(g),
        flat_fields(fx),
        flat_fields(fy),
        same_field_shape(g, fx),
        same_field_shape(fx, fy),
        names_distinct(g),
        fx.len() <= 65536,
        0 <= i,
        rest.len() == 0 || rest[0] == CmdV::Exit,
    ensures
        apply_fields_loop(kind, g, fields_stream(kind, fx, fy, mode, i) + rest)
            == (crate::apply::FieldsOut {
            fields: flat_patched(g, fx, fy, i),
            used: (fields_stream(kind, fx, fy, mode, i).len() + spec_trailing_exit(rest)) as nat,
            changed: fields_stream(kind, fx, fy, mode, i).len() > 0,
            err: false,
        }),
    decreases fx.len() - i,
{
    let st = fields_stream(kind, fx, fy, mode, i);
    let s = st + rest;
    if i >= fx.len() {
        assert(st.len() == 0);
        assert(s =~= rest);
        if rest.len() > 0 {
            assert(s[0] == CmdV::Exit);
        }
        assert(spec_next_path_element(s).elem is None);
        assert(flat_patched(g, fx, fy, i) =~= g);
    } else {
        let piece = field_contrib(kind, fx, fy, mode, i);
        let tail_st = fields_stream(kind, fx, fy, mode, i + 1);
        assert(st == piece + tail_st);
        if fx[i].mode == FieldMode::Skip || fx[i].value == fy[i].value {
            lemma_flat_contrib(kind, fx, fy, mode, i);
            assert(st =~= tail_st);
            assert(s =~= tail_st + rest);
            lemma_flat_fields_apply(kind, g, fx, fy, mode, i + 1, rest);
            assert(flat_patched(g, fx, fy, i) =~= flat_patched(g, fx, fy, i + 1));
        } else {
            let p = crate::difference::field_path(kind, fx[i], i, mode);
            lemma_flat_contrib(kind, fx, fy, mode, i);
            assert(s[0] == CmdV::Enter(p));
            let pe = spec_next_path_element(s);
            assert(pe.elem == Option::Some(p));
            assert(pe.used == 1nat);
            lemma_field_path_resolves(kind, g, fx, mode, i);
            assert(s.skip(1)[0] == s[1]);
            assert(s[1] == CmdV::Value(fy[i].value));
            let step = (if g[i].mode == FieldMode::Opaque {
                spec_read_value(s.skip(1), g[i].value)
            } else {
                spec_apply_node(g[i].value, s.skip(1))
            });
            assert(step == (ApplyOut {
                node: fy[i].value,
                used: 1nat,
                changed: true,
                err: false,
            }));
            let g2 = g.update(i, FieldV { value: fy[i].value, ..g[i] });
            assert(2 <= s.len());
            assert(crate::apply::stream_tail(s, 2) =~= tail_st + rest);
            lemma_flat_fields_apply(kind, g2, fx, fy, mode, i + 1, rest);
            assert(flat_patched(g2, fx, fy, i + 1) =~= flat_patched(g, fx, fy, i));
            assert(st.len() == 2 + tail_st.len());
        }
    }
}

/// Three-way application on a flat record, in general: for any records
/// of one type whose fields are all scalars, applying the diff of
/// `(x, y)` to the target yields the target with exactly the fields on
/// which `x` and `y` disagree replaced by `y`'s values, every other
/// field untouched, no error, and a change reported exactly when the
/// diff was not a no-op.
pub proof fn lemma_flat_record_three_way(t: NodeV, x: NodeV, y: NodeV, mode: FieldPathMode)
    requires
        t is Record,
        x is Record,
        y is Record,
        t->Record_0 == x->Record_0 && x->Record_0 == y->Record_0,
        flat_fields(t->Record_1),
        flat_fields(x->Record_1),
        flat_fields(y->Record_1),
        same_field_shape(t->Record_1, x->Record_1),
        same_field_shape(x->Record_1, y->Record_1),
        names_distinct(t->Record_1),
        x->Record_1.len() <= 65536,
    ensures
        spec_apply_node(t, dstream(x, y, mode)) == (ApplyOut {
            node: NodeV::Record(
                t->Record_0,
                flat_patched(t->Record_1, x->Record_1, y->Record_1, 0),
            ),
            used: dstream(x, y, mode).len() as nat,
            changed: dstream(x, y, mode).len() > 0,
            err: false,
        }),
{
    lemma_flat_fields_apply(
        t->Record_0,
        t->Record_1,
        x->Record_1,
        y->Record_1,
        mode,
        0,
        Seq::empty(),
    );
    assert(fields_stream(t->Record_0, x->Record_1, y->Record_1, mode, 0) + Seq::<CmdV>::empty()
        =~= fields_stream(t->Record_0, x->Record_1, y->Record_1, mode, 0));
}

/// Round trip on a flat record, in general: applying the diff of
/// `(x, y)` to a copy of `x` yields exactly `y`.  Skipped fields are
/// excluded from the wire by design, so the law asks that they already
/// agree.
pub proof fn lemma_flat_record_round_trip(x: NodeV, y: NodeV, mode: FieldPathMode)
    requires
        x is Record,
        y is Record,
        x->Record_0 == y->Record_0,
        flat_fields(x->Record_1),
        flat_fields(y->Record_1),
        same_field_shape(x->Record_1, y->Record_1),
        names_distinct(x->Record_1),
        x->Record_1.len() <= 65536,
        forall|j: int|
            0 <= j < x->Record_1.len() && (#[trigger] x->Record_1[j]).mode == FieldMode::Skip
                ==> x->Record_1[j].value == y->Record_1[j].value,
    ensures
        spec_apply_node(x, dstream(x, y, mode)).node == y,
        !spec_apply_node(x, dstream(x, y, mode)).err,
{
    lemma_flat_record_three_way(x, x, y, mode);
    let fx = x->Record_1;
    let fy = y->Record_1;
    assert forall|j: int| 0 <= j < fy.len() implies flat_patched(fx, fx, fy, 0)[j] == fy[j] by {
        if fx[j].mode != FieldMode::Skip && fx[j].value != fy[j].value {
            assert((FieldV { value: fy[j].value, ..fx[j] }) == fy[j]);
        } else {
            assert(fx[j] == fy[j]);
        }
    }
    assert(flat_patched(fx, fx, fy, 0) =~= fy);
}

/// A flat field list whose stream is empty is one with nothing to say:
/// every field is skipped or unchanged, so the three-way result is the
/// target itself.
proof fn lemma_flat_empty_stream(
    kind: RecordKind,
    g: Seq<FieldV>,
    fx: Seq<FieldV>,
    fy: Seq<FieldV>,
    mode: FieldPathMode,
    i: int,
)
    requires
        flat_fields(fx),
        flat_fields(fy),
        same_field_shape(fx, fy),
        g.len() == fx.len(),
        0 <= i,
        fields_stream(kind, fx, fy, mode, i).len() == 0,
    ensures
        flat_patched(g, fx, fy, i) == g,
    decreases fx.len() - i,
{
    if i < fx.len() {
        lemma_flat_contrib(kind, fx, fy, mode, i);
        assert(fields_stream(kind, fx, fy, mode, i) == field_contrib(kind, fx, fy, mode, i)
            + fields_stream(kind, fx, fy, mode, i + 1));
        assert(field_contrib(kind, fx, fy, mode, i).len() == 0);
        assert(fx[i].mode == FieldMode::Skip || fx[i].value == fy[i].value);
        lemma_flat_empty_stream(kind, g, fx, fy, mode, i + 1);
        assert(flat_patched(g, fx, fy, i) =~= flat_patched(g, fx, fy, i + 1));
    } else {
        assert(flat_patched(g, fx, fy, i) =~= g);
    }
}

/// Three-way application on a tagged union carrying one flat variant on
/// all three sides: the payload's fields are updated exactly where the
/// diffed sides disagree, and the rest of the target's payload is
/// untouched.
pub proof fn lemma_flat_variant_three_way(t: NodeV, x: NodeV, y: NodeV, mode: FieldPathMode)
    requires
        t is Variant,
        x is Variant,
        y is Variant,
        t->Variant_0 == x->Variant_0 && x->Variant_0 == y->Variant_0,
        t->Variant_1 == x->Variant_1 && x->Variant_1 == y->Variant_1,
        flat_fields(t->Variant_2),
        flat_fields(x->Variant_2),
        flat_fields(y->Variant_2),
        same_field_shape(t->Variant_2, x->Variant_2),
        same_field_shape(x->Variant_2, y->Variant_2),
        names_distinct(t->Variant_2),
        x->Variant_2.len() <= 65536,
    ensures
        spec_apply_node(t, dstream(x, y, mode)) == (ApplyOut {
            node: NodeV::Variant(
                t->Variant_0,
                t->Variant_1,
                flat_patched(t->Variant_2, x->Variant_2, y->Variant_2, 0),
            ),
            used: dstream(x, y, mode).len() as nat,
            changed: dstream(x, y, mode).len() > 0,
            err: false,
        }),
{
    let n = t->Variant_0;
    let k = t->Variant_1;
    let gt = t->Variant_2;
    let fx = x->Variant_2;
    let fy = y->Variant_2;
    let fs = fields_stream(k, fx, fy, mode, 0);
    let d = dstream(x, y, mode);
    if fs.len() == 0 {
        assert(d.len() == 0);
        assert(d =~= Seq::<CmdV>::empty());
        lemma_apply_empty(t);
        lemma_flat_empty_stream(k, gt, fx, fy, mode, 0);
        assert(NodeV::Variant(n, k, flat_patched(gt, fx, fy, 0)) == t);
    } else {
        assert(d == seq![CmdV::Enter(crate::difference::PathElV::EnumVariant(n))] + fs + seq![
            CmdV::Exit,
        ]);
        assert(d[0] == CmdV::Enter(crate::difference::PathElV::EnumVariant(n)));
        let pe = spec_next_path_element(d);
        assert(pe.elem == Option::Some(crate::difference::PathElV::EnumVariant(n)));
        assert(pe.used == 1nat);
        assert(crate::difference::PathElV::EnumVariant(n)
            != crate::difference::PathElV::FullEnumVariant);
        assert(d.skip(1) =~= fs + seq![CmdV::Exit]);
        lemma_flat_fields_apply(k, gt, fx, fy, mode, 0, seq![CmdV::Exit]);
        let fl = apply_fields_loop(k, gt, d.skip(1));
        assert(fl.fields == flat_patched(gt, fx, fy, 0));
        assert(fl.used == fs.len() + 1);
        assert(!fl.err);
        assert(fl.changed);
        assert(1 + fl.used == d.len());
        assert(d.skip(d.len() as int) =~= Seq::<CmdV>::empty());
        assert(spec_trailing_exit(d.skip(1 + fl.used as int)) == 0nat);
    }
}

/// An element list whose values are all scalars.
pub open spec fn flat_elems(es: Seq<NodeV>) -> bool {
    forall|j: int| 0 <= j < es.len() ==> (#[trigger] es[j]) is Leaf
}

/// The three-way result of the lockstep phase on a flat sequence, from
/// position `i` on: paired positions where the diffed sides disagree
/// take the new side's value, if the target has that position at all.
pub open spec fn flat_elems_patched(
    g: Seq<NodeV>,
    xs: Seq<NodeV>,
    ys: Seq<NodeV>,
    i: int,
) -> Seq<NodeV> {
    Seq::new(
        g.len(),
        |j: int|
            if j >= i && 0 <= j < xs.len() && j < ys.len() && xs[j] != ys[j] {
                ys[j]
            } else {
                g[j]
            },
    )
}

/// What one paired position contributes: nothing when unchanged, else
/// its index and the new scalar.
proof fn lemma_flat_lock_contrib(xs: Seq<NodeV>, ys: Seq<NodeV>, mode: FieldPathMode, i: int)
    requires
        flat_elems(xs),
        flat_elems(ys),
        0 <= i < xs.len(),
        i < ys.len(),
    ensures
        xs[i] == ys[i] ==> lock_contrib(xs, ys, mode, i) == Seq::<CmdV>::empty(),
        xs[i] != ys[i] ==> lock_contrib(xs, ys, mode, i) == seq![
            CmdV::Enter(crate::difference::PathElV::CollectionIndex(i as usize)),
            CmdV::Value(ys[i]),
        ],
{
    let piece = lock_contrib(xs, ys, mode, i);
    if xs[i] != ys[i] {
        assert(cstream(xs[i], ys[i], mode) == seq![CmdV::Value(ys[i])]);
        assert(piece == seq![CmdV::Enter(crate::difference::PathElV::CollectionIndex(i as usize))]
            + seq![CmdV::Value(ys[i])]);
        assert(piece =~= seq![
            CmdV::Enter(crate::difference::PathElV::CollectionIndex(i as usize)),
            CmdV::Value(ys[i]),
        ]);
    } else {
        assert(piece =~= Seq::<CmdV>::empty());
    }
}

/// Whether the lockstep phase from position `i` on touches the target:
/// some paired position where the sides disagree is one the target has.
pub open spec fn flat_lock_hits(g_len: int, xs: Seq<NodeV>, ys: Seq<NodeV>, i: int) -> bool {
    exists|j: int| #![auto] i <= j < xs.len() && j < ys.len() && j < g_len && xs[j] != ys[j]
}

/// The sequence apply loop across the lockstep phase: each in-range
/// contribution lands on its position, out-of-range ones are skipped,
/// and the loop then continues with whatever follows the phase.
#[verifier::rlimit(100)]
#[verifier::spinoff_prover]
proof fn lemma_flat_lock_apply(
    g: Seq<NodeV>,
    is_opt: bool,
    xs: Seq<NodeV>,
    ys: Seq<NodeV>,
    mode: FieldPathMode,
    i: int,
    tail: Seq<CmdV>,
)
    requires
        flat_elems(g),
        flat_elems(xs),
        flat_elems(ys),
        xs.len() <= 65536,
        g.len() <= 65536,
        0 <= i,
    ensures
        apply_elems_loop(g, is_opt, lock_stream(xs, ys, mode, i) + tail)
            == (crate::apply::ElemsOut {
            elems: apply_elems_loop(flat_elems_patched(g, xs, ys, i), is_opt, tail).elems,
            used: (lock_stream(xs, ys, mode, i).len() + apply_elems_loop(
                flat_elems_patched(g, xs, ys, i),
                is_opt,
                tail,
            ).used) as nat,
            changed: flat_lock_hits(g.len() as int, xs, ys, i) || apply_elems_loop(
                flat_elems_patched(g, xs, ys, i),
                is_opt,
                tail,
            ).changed,
            err: apply_elems_loop(flat_elems_patched(g, xs, ys, i), is_opt, tail).err,
        }),
    decreases xs.len() - i,
{
    let n = if xs.len() <= ys.len() {
        xs.len() as int
    } else {
        ys.len() as int
    };
    let locks = lock_stream(xs, ys, mode, i);
    let s = locks + tail;
    if i >= n {
        assert(locks.len() == 0);
        assert(s =~= tail);
        assert(flat_elems_patched(g, xs, ys, i) =~= g);
    } else {
        let piece = lock_contrib(xs, ys, mode, i);
        let tail_locks = lock_stream(xs, ys, mode, i + 1);
        assert(locks == piece + tail_locks);
        lemma_flat_lock_contrib(xs, ys, mode, i);
        if xs[i] == ys[i] {
            assert(locks =~= tail_locks);
            lemma_flat_lock_apply(g, is_opt, xs, ys, mode, i + 1, tail);
            assert(flat_elems_patched(g, xs, ys, i) =~= flat_elems_patched(g, xs, ys, i + 1));
            assert(flat_lock_hits(g.len() as int, xs, ys, i) == flat_lock_hits(
                g.len() as int,
                xs,
                ys,
                i + 1,
            ));
        } else {
            assert(s[0] == CmdV::Enter(crate::difference::PathElV::CollectionIndex(i as usize)));
            assert(s.skip(1)[0] == s[1]);
            assert(s[1] == CmdV::Value(ys[i]));
            if i < g.len() {
                let step = spec_apply_node(g[i], s.skip(1));
                assert(step == (ApplyOut { node: ys[i], used: 1nat, changed: true, err: false }));
                let g2 = g.update(i, ys[i]);
                assert(2 <= s.len());
                assert(crate::apply::stream_tail(s, 2) =~= tail_locks + tail);
                lemma_flat_lock_apply(g2, is_opt, xs, ys, mode, i + 1, tail);
                assert(flat_elems_patched(g2, xs, ys, i + 1) =~= flat_elems_patched(g, xs, ys, i));
                assert(flat_lock_hits(g.len() as int, xs, ys, i));
            } else {
                let cs = cstream(xs[i], ys[i], mode);
                assert(cs == seq![CmdV::Value(ys[i])]);
                lemma_stream_balanced(xs[i], ys[i], mode);
                assert(s.skip(1) =~= cs + (tail_locks + tail));
                lemma_skip_closes(cs, tail_locks + tail, 1);
                let sk = spec_skip(s.skip(1), 1);
                assert(sk.used == 1nat);
                assert(!sk.err);
                assert(2 <= s.len());
                assert(crate::apply::stream_tail(s, 1 + sk.used) =~= tail_locks + tail);
                lemma_flat_lock_apply(g, is_opt, xs, ys, mode, i + 1, tail);
                assert(flat_elems_patched(g, xs, ys, i) =~= flat_elems_patched(g, xs, ys, i + 1));
                assert(flat_lock_hits(g.len() as int, xs, ys, i) == flat_lock_hits(
                    g.len() as int,
                    xs,
                    ys,
                    i + 1,
                ));
            }
        }
    }
}

/// The sequence apply loop across the append phase: each announced
/// element is pushed, and the closing exit ends the loop.
proof fn lemma_flat_adds_apply(g: Seq<NodeV>, ys: Seq<NodeV>, j: int)
    requires
        0 <= j <= ys.len(),
    ensures
        apply_elems_loop(g, false, adds_stream(ys, j) + seq![CmdV::Exit])
            == (crate::apply::ElemsOut {
            elems: g + ys.skip(j),
            used: (adds_stream(ys, j).len() + 1) as nat,
            changed: j < ys.len(),
            err: false,
        }),
    decreases ys.len() - j,
{
    let adds = adds_stream(ys, j);
    let s = adds + seq![CmdV::Exit];
    if j >= ys.len() {
        assert(adds.len() == 0);
        assert(s =~= seq![CmdV::Exit]);
        assert(s[0] == CmdV::Exit);
        assert(g + ys.skip(j) =~= g);
    } else {
        let pair = seq![CmdV::Enter(crate::difference::PathElV::AddToCollection), CmdV::Value(
            ys[j],
        )];
        assert(adds == pair + adds_stream(ys, j + 1));
        assert(s[0] == CmdV::Enter(crate::difference::PathElV::AddToCollection));
        assert(s.skip(1)[0] == s[1]);
        assert(s[1] == CmdV::Value(ys[j]));
        assert(2 <= s.len());
        assert(crate::apply::stream_tail(s, 2) =~= adds_stream(ys, j + 1) + seq![CmdV::Exit]);
        lemma_flat_adds_apply(g.push(ys[j]), ys, j + 1);
        assert((g.push(ys[j])) + ys.skip(j + 1) =~= g + ys.skip(j));
    }
}

/// Three-way application on an ordered sequence of scalars: paired
/// positions the target has are updated where the diffed sides
/// disagree, a tail removal truncates whatever length the target has,
/// appended elements land at the target's end, and everything else of
/// the target is untouched.
pub proof fn lemma_flat_list_three_way(t: NodeV, x: NodeV, y: NodeV, mode: FieldPathMode)
    requires
        t is List,
        x is List,
        y is List,
        flat_elems(t->List_0),
        flat_elems(x->List_0),
        flat_elems(y->List_0),
        x->List_0.len() <= 65536,
        t->List_0.len() <= 65536,
    ensures
        ({
            let gt = t->List_0;
            let xs = x->List_0;
            let ys = y->List_0;
            let mid = flat_elems_patched(gt, xs, ys, 0);
            let result = (if xs.len() > ys.len() {
                mid.take(
                    if mid.len() >= xs.len() - ys.len() {
                        mid.len() - (xs.len() - ys.len())
                    } else {
                        0
                    },
                )
            } else if ys.len() > xs.len() {
                mid + ys.skip(xs.len() as int)
            } else {
                mid
            });
            spec_apply_node(t, dstream(x, y, mode)) == (ApplyOut {
                node: NodeV::List(result),
                used: dstream(x, y, mode).len() as nat,
                changed: xs.len() != ys.len() || flat_lock_hits(gt.len() as int, xs, ys, 0),
                err: false,
            })
        }),
{
    let gt = t->List_0;
    let xs = x->List_0;
    let ys = y->List_0;
    let locks = lock_stream(xs, ys, mode, 0);
    let mid = flat_elems_patched(gt, xs, ys, 0);
    let d = dstream(x, y, mode);
    assert(mid.len() == gt.len());
    if xs.len() > ys.len() {
        let tail = seq![CmdV::Remove((xs.len() - ys.len()) as usize)];
        assert(d == locks + tail);
        lemma_flat_lock_apply(gt, false, xs, ys, mode, 0, tail);
        assert(tail[0] == CmdV::Remove((xs.len() - ys.len()) as usize));
        assert(((xs.len() - ys.len()) as usize) as int == xs.len() - ys.len());
        let cont = apply_elems_loop(mid, false, tail);
        assert(cont.elems == mid.take(
            if mid.len() >= xs.len() - ys.len() {
                mid.len() - (xs.len() - ys.len())
            } else {
                0
            },
        ));
        assert(cont.used == 1nat);
        assert(cont.changed);
        assert(!cont.err);
    } else if ys.len() > xs.len() {
        let tail = adds_stream(ys, xs.len() as int) + seq![CmdV::Exit];
        assert(d =~= locks + tail);
        lemma_flat_lock_apply(gt, false, xs, ys, mode, 0, tail);
        lemma_flat_adds_apply(mid, ys, xs.len() as int);
        assert(adds_stream(ys, xs.len() as int).len() > 0);
        assert(d.len() == locks.len() + tail.len());
    } else if locks.len() > 0 {
        let tail = seq![CmdV::Exit];
        assert(d == locks + tail);
        lemma_flat_lock_apply(gt, false, xs, ys, mode, 0, tail);
        assert(tail[0] == CmdV::Exit);
        let cont = apply_elems_loop(mid, false, tail);
        assert(cont.elems == mid);
        assert(cont.used == 1nat);
        assert(!cont.changed);
        assert(!cont.err);
    } else {
        assert(d.len() == 0);
        assert(d =~= Seq::<CmdV>::empty());
        lemma_apply_empty(t);
        assert(flat_elems_patched(gt, xs, ys, 0) =~= gt) by {
            assert(lock_stream(xs, ys, mode, 0).len() == 0);
            assert forall|j: int| 0 <= j < gt.len() implies flat_elems_patched(gt, xs, ys, 0)[j]
                == gt[j] by {
                if 0 <= j < xs.len() && j < ys.len() && xs[j] != ys[j] {
                    lemma_flat_lock_nonempty(xs, ys, mode, j);
                }
            }
        }
        assert(!flat_lock_hits(gt.len() as int, xs, ys, 0)) by {
            if flat_lock_hits(gt.len() as int, xs, ys, 0) {
                let j = choose|j: int| #![auto]
                    0 <= j < xs.len() && j < ys.len() && j < gt.len() && xs[j] != ys[j];
                lemma_flat_lock_nonempty(xs, ys, mode, j);
            }
        }
    }
}

/// A paired position where the sides disagree makes the lockstep phase
/// emit: its stream from that position on is nonempty, and so is the
/// stream from any earlier position.
proof fn lemma_flat_lock_nonempty(xs: Seq<NodeV>, ys: Seq<NodeV>, mode: FieldPathMode, j: int)
    requires
        flat_elems(xs),
        flat_elems(ys),
        0 <= j < xs.len(),
        j < ys.len(),
        xs[j] != ys[j],
    ensures
        lock_stream(xs, ys, mode, 0).len() > 0,
{
    lemma_flat_lock_prefix_nonempty(xs, ys, mode, 0, j);
}

proof fn lemma_flat_lock_prefix_nonempty(
    xs: Seq<NodeV>,
    ys: Seq<NodeV>,
    mode: FieldPathMode,
    i: int,
    j: int,
)
    requires
        flat_elems(xs),
        flat_elems(ys),
        0 <= i <= j < xs.len(),
        j < ys.len(),
        xs[j] != ys[j],
    ensures
        lock_stream(xs, ys, mode, i).len() > 0,
    decreases j - i,
{
    if i == j {
        lemma_flat_lock_contrib(xs, ys, mode, j);
    } else {
        lemma_flat_lock_prefix_nonempty(xs, ys, mode, i + 1, j);
    }
}

/// The array apply loop across the lockstep phase, ended by the one
/// exit that closes an array's stream (or the stream's end).
#[verifier::rlimit(100)]
#[verifier::spinoff_prover]
proof fn lemma_flat_array_apply(
    g: Seq<NodeV>,
    xs: Seq<NodeV>,
    ys: Seq<NodeV>,
    mode: FieldPathMode,
    i: int,
    tail: Seq<CmdV>,
)
    requires
        flat_elems(g),
        flat_elems(xs),
        flat_elems(ys),
        xs.len() <= 65536,
        g.len() <= 65536,
        0 <= i,
        tail.len() == 0 || tail[0] == CmdV::Exit,
    ensures
        crate::apply::apply_array_loop(g, lock_stream(xs, ys, mode, i) + tail)
            == (crate::apply::ElemsOut {
            elems: flat_elems_patched(g, xs, ys, i),
            used: (lock_stream(xs, ys, mode, i).len() + spec_trailing_exit(tail)) as nat,
            changed: flat_lock_hits(g.len() as int, xs, ys, i),
            err: false,
        }),
    decreases xs.len() - i,
{
    let n = if xs.len() <= ys.len() {
        xs.len() as int
    } else {
        ys.len() as int
    };
    let locks = lock_stream(xs, ys, mode, i);
    let s = locks + tail;
    if i >= n {
        assert(locks.len() == 0);
        assert(s =~= tail);
        if tail.len() > 0 {
            assert(s[0] == CmdV::Exit);
        }
        assert(flat_elems_patched(g, xs, ys, i) =~= g);
        assert(!flat_lock_hits(g.len() as int, xs, ys, i));
    } else {
        let piece = lock_contrib(xs, ys, mode, i);
        let tail_locks = lock_stream(xs, ys, mode, i + 1);
        assert(locks == piece + tail_locks);
        lemma_flat_lock_contrib(xs, ys, mode, i);
        if xs[i] == ys[i] {
            assert(locks =~= tail_locks);
            assert(s =~= tail_locks + tail);
            lemma_flat_array_apply(g, xs, ys, mode, i + 1, tail);
            assert(flat_elems_patched(g, xs, ys, i) =~= flat_elems_patched(g, xs, ys, i + 1));
            assert(flat_lock_hits(g.len() as int, xs, ys, i) == flat_lock_hits(
                g.len() as int,
                xs,
                ys,
                i + 1,
            ));
        } else {
            assert(s[0] == CmdV::Enter(crate::difference::PathElV::CollectionIndex(i as usize)));
            assert(s.skip(1)[0] == s[1]);
            assert(s[1] == CmdV::Value(ys[i]));
            if i < g.len() {
                let step = spec_apply_node(g[i], s.skip(1));
                assert(step == (ApplyOut { node: ys[i], used: 1nat, changed: true, err: false }));
                let g2 = g.update(i, ys[i]);
                assert(2 <= s.len());
                assert(crate::apply::stream_tail(s, 2) =~= tail_locks + tail);
                lemma_flat_array_apply(g2, xs, ys, mode, i + 1, tail);
                assert(flat_elems_patched(g2, xs, ys, i + 1) =~= flat_elems_patched(g, xs, ys, i));
                assert(flat_lock_hits(g.len() as int, xs, ys, i));
            } else {
                let cs = cstream(xs[i], ys[i], mode);
                assert(cs == seq![CmdV::Value(ys[i])]);
                lemma_stream_balanced(xs[i], ys[i], mode);
                assert(s.skip(1) =~= cs + (tail_locks + tail));
                lemma_skip_closes(cs, tail_locks + tail, 1);
                let sk = spec_skip(s.skip(1), 1);
                assert(sk.used == 1nat);
                assert(!sk.err);
                assert(2 <= s.len());
                assert(crate::apply::stream_tail(s, 1 + sk.used) =~= tail_locks + tail);
                lemma_flat_array_apply(g, xs, ys, mode, i + 1, tail);
                assert(flat_elems_patched(g, xs, ys, i) =~= flat_elems_patched(g, xs, ys, i + 1));
                assert(flat_lock_hits(g.len() as int, xs, ys, i) == flat_lock_hits(
                    g.len() as int,
                    xs,
                    ys,
                    i + 1,
                ));
            }
        }
    }
}

/// Three-way application on a fixed-length array of scalars: positions
/// the target has are updated where the diffed sides disagree; nothing
/// is ever added or removed.
pub proof fn lemma_flat_array_three_way(t: NodeV, x: NodeV, y: NodeV, mode: FieldPathMode)
    requires
        t is Array,
        x is Array,
        y is Array,
        flat_elems(t->Array_0),
        flat_elems(x->Array_0),
        flat_elems(y->Array_0),
        x->Array_0.len() <= 65536,
        t->Array_0.len() <= 65536,
    ensures
        spec_apply_node(t, dstream(x, y, mode)) == (ApplyOut {
            node: NodeV::Array(flat_elems_patched(t->Array_0, x->Array_0, y->Array_0, 0)),
            used: dstream(x, y, mode).len() as nat,
            changed: flat_lock_hits(t->Array_0.len() as int, x->Array_0, y->Array_0, 0),
            err: false,
        }),
{
    let gt = t->Array_0;
    let xs = x->Array_0;
    let ys = y->Array_0;
    let locks = lock_stream(xs, ys, mode, 0);
    let d = dstream(x, y, mode);
    if locks.len() == 0 {
        assert(d.len() == 0);
        assert(d =~= Seq::<CmdV>::empty());
        lemma_apply_empty(t);
        assert(flat_elems_patched(gt, xs, ys, 0) =~= gt) by {
            assert forall|j: int| 0 <= j < gt.len() implies flat_elems_patched(gt, xs, ys, 0)[j]
                == gt[j] by {
                if 0 <= j < xs.len() && j < ys.len() && xs[j] != ys[j] {
                    lemma_flat_lock_nonempty(xs, ys, mode, j);
                }
            }
        }
        assert(!flat_lock_hits(gt.len() as int, xs, ys, 0)) by {
            if flat_lock_hits(gt.len() as int, xs, ys, 0) {
                let j = choose|j: int| #![auto]
                    0 <= j < xs.len() && j < ys.len() && j < gt.len() && xs[j] != ys[j];
                lemma_flat_lock_nonempty(xs, ys, mode, j);
            }
        }
    } else {
        assert(d == locks + seq![CmdV::Exit]);
        lemma_flat_array_apply(gt, xs, ys, mode, 0, seq![CmdV::Exit]);
    }
}

/// Three-way application on an optional scalar: present-to-present
/// updates land when the target is present, an appearing value fills
/// (or overwrites) the target's slot, and a disappearing one empties it.
pub proof fn lemma_flat_opt_three_way(t: NodeV, x: NodeV, y: NodeV, mode: FieldPathMode)
    requires
        t is Opt,
        x is Opt,
        y is Opt,
        flat_elems(t->Opt_0),
        flat_elems(x->Opt_0),
        flat_elems(y->Opt_0),
        t->Opt_0.len() <= 1,
        x->Opt_0.len() <= 1,
        y->Opt_0.len() <= 1,
    ensures
        ({
            let gt = t->Opt_0;
            let xs = x->Opt_0;
            let ys = y->Opt_0;
            let result = (if xs.len() < ys.len() {
                seq![ys[0]]
            } else if xs.len() > ys.len() {
                gt.take(
                    if gt.len() >= 1 {
                        gt.len() - 1
                    } else {
                        0
                    },
                )
            } else {
                flat_elems_patched(gt, xs, ys, 0)
            });
            spec_apply_node(t, dstream(x, y, mode)) == (ApplyOut {
                node: NodeV::Opt(result),
                used: dstream(x, y, mode).len() as nat,
                changed: xs.len() != ys.len() || flat_lock_hits(gt.len() as int, xs, ys, 0),
                err: false,
            })
        }),
{
    let gt = t->Opt_0;
    let xs = x->Opt_0;
    let ys = y->Opt_0;
    let locks = lock_stream(xs, ys, mode, 0);
    let d = dstream(x, y, mode);
    if xs.len() < ys.len() {
        assert(xs.len() == 0 && ys.len() == 1);
        assert(locks.len() == 0);
        assert(adds_stream(ys, 0) == seq![
            CmdV::Enter(crate::difference::PathElV::AddToCollection),
            CmdV::Value(ys[0]),
        ] + adds_stream(ys, 1));
        assert(adds_stream(ys, 1) =~= Seq::<CmdV>::empty());
        assert(d =~= seq![
            CmdV::Enter(crate::difference::PathElV::AddToCollection),
            CmdV::Value(ys[0]),
            CmdV::Exit,
        ]);
        assert(d[0] == CmdV::Enter(crate::difference::PathElV::AddToCollection));
        assert(d.skip(1)[0] == d[1]);
        assert(d[1] == CmdV::Value(ys[0]));
        assert(crate::apply::stream_tail(d, 2) =~= seq![CmdV::Exit]);
        assert(crate::apply::apply_elems_loop(seq![ys[0]], true, seq![CmdV::Exit])
            == (crate::apply::ElemsOut {
            elems: seq![ys[0]],
            used: 1nat,
            changed: false,
            err: false,
        }));
    } else if xs.len() > ys.len() {
        assert(xs.len() == 1 && ys.len() == 0);
        assert(locks.len() == 0);
        assert(d =~= seq![CmdV::Remove(1)]);
        assert(d[0] == CmdV::Remove(1));
    } else {
        assert(d == list_stream(xs, ys, mode));
        if locks.len() > 0 {
            let tail = seq![CmdV::Exit];
            assert(d == locks + tail);
            lemma_flat_lock_apply(gt, true, xs, ys, mode, 0, tail);
            let mid = flat_elems_patched(gt, xs, ys, 0);
            assert(tail[0] == CmdV::Exit);
            let cont = crate::apply::apply_elems_loop(mid, true, tail);
            assert(cont.elems == mid);
            assert(cont.used == 1nat);
            assert(!cont.changed);
            assert(!cont.err);
        } else {
            assert(d.len() == 0);
            assert(d =~= Seq::<CmdV>::empty());
            lemma_apply_empty(t);
            assert(flat_elems_patched(gt, xs, ys, 0) =~= gt) by {
                assert forall|j: int| 0 <= j < gt.len() implies flat_elems_patched(
                    gt,
                    xs,
                    ys,
                    0,
                )[j] == gt[j] by {
                    if 0 <= j < xs.len() && j < ys.len() && xs[j] != ys[j] {
                        lemma_flat_lock_nonempty(xs, ys, mode, j);
                    }
                }
            }
            assert(!flat_lock_hits(gt.len() as int, xs, ys, 0)) by {
                if flat_lock_hits(gt.len() as int, xs, ys, 0) {
                    let j = choose|j: int| #![auto]
                        0 <= j < xs.len() && j < ys.len() && j < gt.len() && xs[j] != ys[j];
                    lemma_flat_lock_nonempty(xs, ys, mode, j);
                }
            }
        }
    }
}

/// A map entry list whose values are all scalars.
pub open spec fn flat_entries(en: Seq<MapEntryV>) -> bool {
    forall|j: int| 0 <= j < en.len() ==> (#[trigger] en[j].value) is Leaf
}

/// What one old-side entry of a flat map diff does to the target: a
/// shared key's changed value lands if the target holds the key; a key
/// gone from the new side is removed if the target holds it.
pub open spec fn flat_dict_upd_op(
    cur: Seq<MapEntryV>,
    ex: Seq<MapEntryV>,
    ey: Seq<MapEntryV>,
    i: int,
) -> Seq<MapEntryV> {
    let k = ex[i].key;
    let j = dict_find_index(cur, k);
    match dict_lookup(ey, k) {
        Option::Some(vy) => {
            if ex[i].value != vy && j >= 0 {
                cur.update(j, MapEntryV { key: k, value: vy })
            } else {
                cur
            }
        },
        Option::None => {
            if j >= 0 {
                cur.remove(j)
            } else {
                cur
            }
        },
    }
}

/// The update-and-remove phase of a flat map diff, folded over the old
/// side's entries from `i` on.
pub open spec fn flat_dict_upd_fold(
    cur: Seq<MapEntryV>,
    ex: Seq<MapEntryV>,
    ey: Seq<MapEntryV>,
    i: int,
) -> Seq<MapEntryV>
    decreases ex.len() - i,
{
    if i < 0 || i >= ex.len() {
        cur
    } else {
        flat_dict_upd_fold(flat_dict_upd_op(cur, ex, ey, i), ex, ey, i + 1)
    }
}

/// What one new-side addition does to the target: overwrite the key's
/// slot if the target holds it, else append the entry.
pub open spec fn flat_dict_add_op(cur: Seq<MapEntryV>, e: MapEntryV) -> Seq<MapEntryV> {
    let j = dict_find_index(cur, e.key);
    if j >= 0 {
        cur.update(j, e)
    } else {
        cur.push(e)
    }
}

/// The addition phase of a flat map diff, folded over the new side's
/// entries from `j` on.
pub open spec fn flat_dict_add_fold(
    cur: Seq<MapEntryV>,
    ex: Seq<MapEntryV>,
    ey: Seq<MapEntryV>,
    j: int,
) -> Seq<MapEntryV>
    decreases ey.len() - j,
{
    if j < 0 || j >= ey.len() {
        cur
    } else if !crate::difference::dict_has(ex, ey[j].key) {
        flat_dict_add_fold(flat_dict_add_op(cur, ey[j]), ex, ey, j + 1)
    } else {
        flat_dict_add_fold(cur, ex, ey, j + 1)
    }
}

/// What one old-side entry contributes to the stream, on flat values.
proof fn lemma_flat_dict_contrib(
    ex: Seq<MapEntryV>,
    ey: Seq<MapEntryV>,
    mode: FieldPathMode,
    i: int,
)
    requires
        flat_entries(ex),
        flat_entries(ey),
        0 <= i < ex.len(),
    ensures
        ({
            let piece = dict_update_contrib(ex, ey, mode, i);
            match dict_lookup(ey, ex[i].key) {
                Option::Some(vy) => {
                    &&& (ex[i].value == vy ==> piece == Seq::<CmdV>::empty())
                    &&& (ex[i].value != vy ==> piece == seq![
                        CmdV::EnterKey(ex[i].key),
                        CmdV::Value(vy),
                    ])
                },
                Option::None => piece == seq![CmdV::RemoveKey(ex[i].key)],
            }
        }),
{
    let piece = dict_update_contrib(ex, ey, mode, i);
    match dict_lookup(ey, ex[i].key) {
        Option::Some(vy) => {
            crate::difference::lemma_dict_find_index(ey, ex[i].key);
            assert(vy is Leaf);
            if ex[i].value != vy {
                assert(cstream(ex[i].value, vy, mode) == seq![CmdV::Value(vy)]);
                assert(piece == seq![CmdV::EnterKey(ex[i].key)] + seq![CmdV::Value(vy)]);
                assert(piece =~= seq![CmdV::EnterKey(ex[i].key), CmdV::Value(vy)]);
            } else {
                assert(piece =~= Seq::<CmdV>::empty());
            }
        }
        Option::None => {
            assert(piece =~= seq![CmdV::RemoveKey(ex[i].key)]);
        }
    }
}

/// The fold preserves flatness of the target's values.
proof fn lemma_flat_dict_upd_op_flat(
    cur: Seq<MapEntryV>,
    ex: Seq<MapEntryV>,
    ey: Seq<MapEntryV>,
    i: int,
)
    requires
        flat_entries(cur),
        flat_entries(ey),
        0 <= i < ex.len(),
    ensures
        flat_entries(flat_dict_upd_op(cur, ex, ey, i)),
{
    let out = flat_dict_upd_op(cur, ex, ey, i);
    crate::difference::lemma_dict_find_index(ey, ex[i].key);
    crate::difference::lemma_dict_find_index(cur, ex[i].key);
    assert forall|j: int| 0 <= j < out.len() implies (#[trigger] out[j].value) is Leaf by {
        match dict_lookup(ey, ex[i].key) {
            Option::Some(vy) => {}
            Option::None => {
                let r = dict_find_index(cur, ex[i].key);
                if r >= 0 {
                    cur.remove_ensures(r);
                    if j >= r {
                        assert(out[j] == cur[j + 1]);
                    }
                }
            }
        }
    }
}

/// The map apply loop across the update-and-remove phase: each emitted
/// operation lands on the target's matching key, or is skipped when the
/// target lacks it, and the loop then continues with what follows.
/// (Whether a change is reported is left open here: an in-place read
/// reports one even when it writes the value already present.)
#[verifier::rlimit(100)]
#[verifier::spinoff_prover]
proof fn lemma_flat_dict_updates_apply(
    cur: Seq<MapEntryV>,
    ex: Seq<MapEntryV>,
    ey: Seq<MapEntryV>,
    mode: FieldPathMode,
    i: int,
    tail: Seq<CmdV>,
)
    requires
        flat_entries(cur),
        flat_entries(ex),
        flat_entries(ey),
        0 <= i,
    ensures
        ({
            let done = flat_dict_upd_fold(cur, ex, ey, i);
            let cont = apply_entries_loop(done, tail);
            let whole = apply_entries_loop(cur, dict_updates(ex, ey, mode, i) + tail);
            &&& whole.entries == cont.entries
            &&& whole.used == dict_updates(ex, ey, mode, i).len() + cont.used
            &&& whole.err == cont.err
        }),
    decreases ex.len() - i,
{
    let ups = dict_updates(ex, ey, mode, i);
    let s = ups + tail;
    if i >= ex.len() {
        assert(ups.len() == 0);
        assert(s =~= tail);
    } else {
        let piece = dict_update_contrib(ex, ey, mode, i);
        let ups2 = dict_updates(ex, ey, mode, i + 1);
        assert(ups == piece + ups2);
        lemma_flat_dict_contrib(ex, ey, mode, i);
        lemma_flat_dict_upd_op_flat(cur, ex, ey, i);
        let cur2 = flat_dict_upd_op(cur, ex, ey, i);
        let k = ex[i].key;
        crate::difference::lemma_dict_find_index(cur, k);
        let j = dict_find_index(cur, k);
        match dict_lookup(ey, k) {
            Option::Some(vy) => {
                if ex[i].value == vy {
                    assert(piece.len() == 0);
                    assert(s =~= ups2 + tail);
                    assert(cur2 == cur);
                    lemma_flat_dict_updates_apply(cur, ex, ey, mode, i + 1, tail);
                } else {
                    assert(piece == seq![CmdV::EnterKey(k), CmdV::Value(vy)]);
                    assert(s[0] == CmdV::EnterKey(k));
                    assert(s.skip(1)[0] == s[1]);
                    assert(s[1] == CmdV::Value(vy));
                    if j >= 0 {
                        assert(cur[j].value is Leaf);
                        let step = spec_apply_node(cur[j].value, s.skip(1));
                        assert(step == (ApplyOut {
                            node: vy,
                            used: 1nat,
                            changed: true,
                            err: false,
                        }));
                        assert(cur[j].key == k);
                        assert((MapEntryV { value: vy, ..cur[j] }) == (MapEntryV {
                            key: k,
                            value: vy,
                        }));
                        assert(cur2 == cur.update(j, MapEntryV { value: vy, ..cur[j] }));
                        assert(2 <= s.len());
                        assert(crate::apply::stream_tail(s, 2) =~= ups2 + tail);
                        lemma_flat_dict_updates_apply(cur2, ex, ey, mode, i + 1, tail);
                    } else {
                        let cs = cstream(ex[i].value, vy, mode);
                        assert(cs == seq![CmdV::Value(vy)]);
                        lemma_stream_balanced(ex[i].value, vy, mode);
                        assert(s.skip(1) =~= cs + (ups2 + tail));
                        lemma_skip_closes(cs, ups2 + tail, 1);
                        let sk = spec_skip(s.skip(1), 1);
                        assert(sk.used == 1nat);
                        assert(!sk.err);
                        assert(2 <= s.len());
                        assert(crate::apply::stream_tail(s, 1 + sk.used) =~= ups2 + tail);
                        assert(cur2 == cur);
                        lemma_flat_dict_updates_apply(cur, ex, ey, mode, i + 1, tail);
                    }
                }
            }
            Option::None => {
                assert(piece == seq![CmdV::RemoveKey(k)]);
                assert(s[0] == CmdV::RemoveKey(k));
                assert(1 <= s.len());
                assert(crate::apply::stream_tail(s, 1) =~= ups2 + tail);
                if j >= 0 {
                    assert(cur2 == cur.remove(j));
                } else {
                    assert(cur2 == cur);
                }
                lemma_flat_dict_updates_apply(cur2, ex, ey, mode, i + 1, tail);
            }
        }
    }
}

/// The map apply loop across the addition phase, ended by the one exit
/// that closes a map's stream (or the stream's end).
#[verifier::rlimit(100)]
#[verifier::spinoff_prover]
proof fn lemma_flat_dict_adds_apply(
    cur: Seq<MapEntryV>,
    ex: Seq<MapEntryV>,
    ey: Seq<MapEntryV>,
    j: int,
    tail: Seq<CmdV>,
)
    requires
        0 <= j,
        tail.len() == 0 || tail[0] == CmdV::Exit,
    ensures
        ({
            let whole = apply_entries_loop(cur, dict_adds(ex, ey, j) + tail);
            &&& whole.entries == flat_dict_add_fold(cur, ex, ey, j)
            &&& whole.used == dict_adds(ex, ey, j).len() + spec_trailing_exit(tail)
            &&& whole.err == false
        }),
    decreases ey.len() - j,
{
    let adds = dict_adds(ex, ey, j);
    let s = adds + tail;
    if j >= ey.len() {
        assert(adds.len() == 0);
        assert(s =~= tail);
        if tail.len() > 0 {
            assert(s[0] == CmdV::Exit);
        }
    } else {
        let k = ey[j].key;
        if crate::difference::dict_has(ex, k) {
            assert(dict_adds(ex, ey, j) == Seq::<CmdV>::empty() + dict_adds(ex, ey, j + 1));
            assert(adds =~= dict_adds(ex, ey, j + 1));
            assert(s =~= dict_adds(ex, ey, j + 1) + tail);
            lemma_flat_dict_adds_apply(cur, ex, ey, j + 1, tail);
        } else {
            let pair = seq![CmdV::AddKey(k), CmdV::Value(ey[j].value)];
            assert(adds == pair + dict_adds(ex, ey, j + 1));
            assert(s[0] == CmdV::AddKey(k));
            assert(s.skip(1)[0] == s[1]);
            assert(s[1] == CmdV::Value(ey[j].value));
            crate::difference::lemma_dict_find_index(cur, k);
            let fj = dict_find_index(cur, k);
            assert(2 <= s.len());
            assert(crate::apply::stream_tail(s, 2) =~= dict_adds(ex, ey, j + 1) + tail);
            if fj >= 0 {
                lemma_flat_dict_adds_apply(
                    cur.update(fj, MapEntryV { key: k, value: ey[j].value }),
                    ex,
                    ey,
                    j + 1,
                    tail,
                );
            } else {
                lemma_flat_dict_adds_apply(
                    cur.push(MapEntryV { key: k, value: ey[j].value }),
                    ex,
                    ey,
                    j + 1,
                    tail,
                );
            }
        }
    }
}

/// An empty update phase changes nothing in the fold.
proof fn lemma_flat_dict_upd_fold_empty(
    cur: Seq<MapEntryV>,
    ex: Seq<MapEntryV>,
    ey: Seq<MapEntryV>,
    mode: FieldPathMode,
    i: int,
)
    requires
        flat_entries(ex),
        flat_entries(ey),
        0 <= i,
        dict_updates(ex, ey, mode, i).len() == 0,
    ensures
        flat_dict_upd_fold(cur, ex, ey, i) == cur,
    decreases ex.len() - i,
{
    if i < ex.len() {
        let piece = dict_update_contrib(ex, ey, mode, i);
        assert(dict_updates(ex, ey, mode, i) == piece + dict_updates(ex, ey, mode, i + 1));
        lemma_flat_dict_contrib(ex, ey, mode, i);
        assert(piece.len() == 0);
        match dict_lookup(ey, ex[i].key) {
            Option::Some(vy) => {
                assert(ex[i].value == vy);
                assert(flat_dict_upd_op(cur, ex, ey, i) == cur);
            }
            Option::None => {
                assert(false);
            }
        }
        lemma_flat_dict_upd_fold_empty(cur, ex, ey, mode, i + 1);
    }
}

/// An empty addition phase changes nothing in the fold.
proof fn lemma_flat_dict_add_fold_empty(
    cur: Seq<MapEntryV>,
    ex: Seq<MapEntryV>,
    ey: Seq<MapEntryV>,
    j: int,
)
    requires
        0 <= j,
        dict_adds(ex, ey, j).len() == 0,
    ensures
        flat_dict_add_fold(cur, ex, ey, j) == cur,
    decreases ey.len() - j,
{
    if j < ey.len() {
        if !crate::difference::dict_has(ex, ey[j].key) {
            assert(dict_adds(ex, ey, j) == seq![
                CmdV::AddKey(ey[j].key),
                CmdV::Value(ey[j].value),
            ] + dict_adds(ex, ey, j + 1));
            assert(false);
        }
        assert(dict_adds(ex, ey, j) == Seq::<CmdV>::empty() + dict_adds(ex, ey, j + 1));
        lemma_flat_dict_add_fold_empty(cur, ex, ey, j + 1);
    }
}

/// Three-way application on a keyed map of scalars: shared keys with a
/// changed value are updated where the target holds the key, keys gone
/// from the new side are removed if the target holds them, and new keys
/// are inserted (or the target's slot overwritten), in stream order —
/// the folds spell the effect out operation by operation.  Whether a
/// change is reported is left open: an in-place read reports one even
/// when the value it writes was already there.
pub proof fn lemma_flat_dict_three_way(t: NodeV, x: NodeV, y: NodeV, mode: FieldPathMode)
    requires
        t is Dict,
        x is Dict,
        y is Dict,
        flat_entries(t->Dict_0),
        flat_entries(x->Dict_0),
        flat_entries(y->Dict_0),
    ensures
        ({
            let out = spec_apply_node(t, dstream(x, y, mode));
            let result = flat_dict_add_fold(
                flat_dict_upd_fold(t->Dict_0, x->Dict_0, y->Dict_0, 0),
                x->Dict_0,
                y->Dict_0,
                0,
            );
            &&& out.node == NodeV::Dict(result)
            &&& out.used == dstream(x, y, mode).len()
            &&& out.err == false
        }),
{
    let gt = t->Dict_0;
    let ex = x->Dict_0;
    let ey = y->Dict_0;
    let ups = dict_updates(ex, ey, mode, 0);
    let adds = dict_adds(ex, ey, 0);
    let d = dstream(x, y, mode);
    if (ups + adds).len() == 0 {
        assert(d.len() == 0);
        assert(d =~= Seq::<CmdV>::empty());
        lemma_apply_empty(t);
        lemma_flat_dict_upd_fold_empty(gt, ex, ey, mode, 0);
        lemma_flat_dict_add_fold_empty(flat_dict_upd_fold(gt, ex, ey, 0), ex, ey, 0);
    } else {
        let tail = adds + seq![CmdV::Exit];
        assert(d == (ups + adds) + seq![CmdV::Exit]);
        assert(d =~= ups + tail);
        lemma_flat_dict_updates_apply(gt, ex, ey, mode, 0, tail);
        lemma_flat_dict_adds_apply(flat_dict_upd_fold(gt, ex, ey, 0), ex, ey, 0, seq![CmdV::Exit]);
        assert(tail =~= adds + seq![CmdV::Exit]);
        assert(d.len() == ups.len() + adds.len() + 1);
    }
}

/// Round trip on a tagged union carrying one flat variant: applying the
/// diff of `(x, y)` to a copy of `x` yields exactly `y`.  Skipped
/// payload fields do not travel, so the law asks that they agree.
pub proof fn lemma_flat_variant_round_trip(x: NodeV, y: NodeV, mode: FieldPathMode)
    requires
        x is Variant,
        y is Variant,
        x->Variant_0 == y->Variant_0,
        x->Variant_1 == y->Variant_1,
        flat_fields(x->Variant_2),
        flat_fields(y->Variant_2),
        same_field_shape(x->Variant_2, y->Variant_2),
        names_distinct(x->Variant_2),
        x->Variant_2.len() <= 65536,
        forall|j: int|
            0 <= j < x->Variant_2.len() && (#[trigger] x->Variant_2[j]).mode == FieldMode::Skip
                ==> x->Variant_2[j].value == y->Variant_2[j].value,
    ensures
        spec_apply_node(x, dstream(x, y, mode)).node == y,
        !spec_apply_node(x, dstream(x, y, mode)).err,
{
    lemma_flat_variant_three_way(x, x, y, mode);
    let fx = x->Variant_2;
    let fy = y->Variant_2;
    assert forall|j: int| 0 <= j < fy.len() implies flat_patched(fx, fx, fy, 0)[j] == fy[j] by {
        if fx[j].mode != FieldMode::Skip && fx[j].value != fy[j].value {
            assert((FieldV { value: fy[j].value, ..fx[j] }) == fy[j]);
        } else {
            assert(fx[j] == fy[j]);
        }
    }
    assert(flat_patched(fx, fx, fy, 0) =~= fy);
}

/// Round trip on a flat ordered sequence: applying the diff of `(x, y)`
/// to a copy of `x` yields exactly `y`, through in-place updates, a
/// tail removal, or appends, whichever the lengths call for.
pub proof fn lemma_flat_list_round_trip(x: NodeV, y: NodeV, mode: FieldPathMode)
    requires
        x is List,
        y is List,
        flat_elems(x->List_0),
        flat_elems(y->List_0),
        x->List_0.len() <= 65536,
    ensures
        spec_apply_node(x, dstream(x, y, mode)).node == y,
        !spec_apply_node(x, dstream(x, y, mode)).err,
{
    lemma_flat_list_three_way(x, x, y, mode);
    let xs = x->List_0;
    let ys = y->List_0;
    let mid = flat_elems_patched(xs, xs, ys, 0);
    if xs.len() > ys.len() {
        assert(mid.take(mid.len() - (xs.len() - ys.len())) =~= ys);
    } else if ys.len() > xs.len() {
        assert(mid + ys.skip(xs.len() as int) =~= ys);
    } else {
        assert(mid =~= ys);
    }
}

/// Round trip on a flat optional: applying the diff of `(x, y)` to a
/// copy of `x` yields exactly `y`.
pub proof fn lemma_flat_opt_round_trip(x: NodeV, y: NodeV, mode: FieldPathMode)
    requires
        x is Opt,
        y is Opt,
        flat_elems(x->Opt_0),
        flat_elems(y->Opt_0),
        x->Opt_0.len() <= 1,
        y->Opt_0.len() <= 1,
    ensures
        spec_apply_node(x, dstream(x, y, mode)).node == y,
        !spec_apply_node(x, dstream(x, y, mode)).err,
{
    lemma_flat_opt_three_way(x, x, y, mode);
    let xs = x->Opt_0;
    let ys = y->Opt_0;
    if xs.len() < ys.len() {
        assert(seq![ys[0]] =~= ys);
    } else if xs.len() > ys.len() {
        assert(xs.take(xs.len() - 1) =~= ys);
    } else {
        assert(flat_elems_patched(xs, xs, ys, 0) =~= ys);
    }
}

/// Round trip on a flat fixed-length array: applying the diff of
/// `(x, y)` to a copy of `x` yields exactly `y`.
pub proof fn lemma_flat_array_round_trip(x: NodeV, y: NodeV, mode: FieldPathMode)
    requires
        x is Array,
        y is Array,
        flat_elems(x->Array_0),
        flat_elems(y->Array_0),
        x->Array_0.len() == y->Array_0.len(),
        x->Array_0.len() <= 65536,
    ensures
        spec_apply_node(x, dstream(x, y, mode)).node == y,
        !spec_apply_node(x, dstream(x, y, mode)).err,
{
    lemma_flat_array_three_way(x, x, y, mode);
    assert(flat_elems_patched(x->Array_0, x->Array_0, y->Array_0, 0) =~= y->Array_0);
}

/// Two entry lists with the same keys positionwise are searched alike.
proof fn lemma_find_same_keys(a: Seq<MapEntryV>, b: Seq<MapEntryV>, k: crate::value::LeafV)
    requires
        a.len() == b.len(),
        forall|i: int| 0 <= i < a.len() ==> (#[trigger] a[i]).key == b[i].key,
    ensures
        dict_find_index(a, k) == dict_find_index(b, k),
    decreases a.len(),
{
    if a.len() > 0 {
        assert(a[0].key == b[0].key);
        assert forall|i: int| 0 <= i < a.skip(1).len() implies (#[trigger] a.skip(1)[i]).key
            == b.skip(1)[i].key by {
            assert(a.skip(1)[i] == a[i + 1]);
            assert(b.skip(1)[i] == b[i + 1]);
        }
        lemma_find_same_keys(a.skip(1), b.skip(1), k);
    }
}

/// Overwriting the slot an existing key was found at changes that key's
/// association and nothing else.
proof fn lemma_lookup_update(en: Seq<MapEntryV>, e: MapEntryV)
    requires
        dict_find_index(en, e.key) >= 0,
    ensures
        forall|k: crate::value::LeafV|
            dict_lookup(en.update(dict_find_index(en, e.key), e), k) == (if k == e.key {
                Option::Some(e.value)
            } else {
                dict_lookup(en, k)
            }),
        keys_distinct(en) ==> keys_distinct(en.update(dict_find_index(en, e.key), e)),
{
    let j = dict_find_index(en, e.key);
    crate::difference::lemma_dict_find_index(en, e.key);
    let en2 = en.update(j, e);
    assert forall|i: int| 0 <= i < en.len() implies (#[trigger] en[i]).key == en2[i].key by {}
    assert forall|k: crate::value::LeafV|
        dict_lookup(en2, k) == (if k == e.key {
            Option::Some(e.value)
        } else {
            dict_lookup(en, k)
        }) by {
        lemma_find_same_keys(en, en2, k);
        crate::difference::lemma_dict_find_index(en2, k);
        crate::difference::lemma_dict_find_index(en, k);
        if k == e.key {
            assert(dict_find_index(en2, k) == j);
        } else {
            let f = dict_find_index(en, k);
            if f >= 0 {
                assert(en[f].key == k);
                assert(f != j);
                assert(en2[f] == en[f]);
            }
        }
    }
}

/// Appending an absent key adds its association and nothing else.
proof fn lemma_lookup_push(en: Seq<MapEntryV>, e: MapEntryV)
    requires
        dict_find_index(en, e.key) < 0,
    ensures
        forall|k: crate::value::LeafV|
            dict_lookup(en.push(e), k) == (if k == e.key {
                Option::Some(e.value)
            } else {
                dict_lookup(en, k)
            }),
        keys_distinct(en) ==> keys_distinct(en.push(e)),
    decreases en.len(),
{
    crate::difference::lemma_dict_find_index(en, e.key);
    let en2 = en.push(e);
    assert forall|k: crate::value::LeafV|
        dict_lookup(en2, k) == (if k == e.key {
            Option::Some(e.value)
        } else {
            dict_lookup(en, k)
        }) by {
        lemma_find_push(en, e, k);
        crate::difference::lemma_dict_find_index(en2, k);
        crate::difference::lemma_dict_find_index(en, k);
        let f2 = dict_find_index(en2, k);
        if k == e.key {
            assert(f2 == en.len());
            assert(en2[f2] == e);
        } else {
            let f = dict_find_index(en, k);
            if f >= 0 {
                assert(en2[f] == en[f]);
            }
        }
    }
    if keys_distinct(en) {
        assert forall|i: int, j: int| 0 <= i < j < en2.len() implies en2[i].key != en2[j].key by {
            crate::difference::lemma_dict_find_index(en, e.key);
            if j == en.len() {
                assert(en2[i] == en[i]);
                assert(en[i].key != e.key);
            }
        }
    }
}

proof fn lemma_find_push(en: Seq<MapEntryV>, e: MapEntryV, k: crate::value::LeafV)
    ensures
        dict_find_index(en.push(e), k) == (if dict_find_index(en, k) >= 0 {
            dict_find_index(en, k)
        } else if k == e.key {
            en.len() as int
        } else {
            -1
        }),
    decreases en.len(),
{
    let en2 = en.push(e);
    if en.len() == 0 {
        assert(en2[0] == e);
        assert(en2.skip(1) =~= Seq::<MapEntryV>::empty());
        assert(dict_find_index(en, k) == -1);
        if e.key == k {
            assert(dict_find_index(en2, k) == 0);
        } else {
            assert(dict_find_index(en2.skip(1), k) == -1);
            assert(dict_find_index(en2, k) == -1);
        }
    } else {
        assert(en2[0] == en[0]);
        assert(en2.skip(1) =~= en.skip(1).push(e));
        lemma_find_push(en.skip(1), e, k);
        assert(dict_find_index(en2.skip(1), k) == dict_find_index(en.skip(1).push(e), k));
        if en[0].key == k {
            assert(dict_find_index(en2, k) == 0);
            assert(dict_find_index(en, k) == 0);
        } else {
            let r = dict_find_index(en.skip(1), k);
            let r2 = dict_find_index(en2.skip(1), k);
            if r >= 0 {
                assert(r2 == r);
                assert(dict_find_index(en2, k) == r + 1);
                assert(dict_find_index(en, k) == r + 1);
            } else if k == e.key {
                assert(r2 == en.skip(1).len());
                assert(dict_find_index(en2, k) == r2 + 1);
                assert(dict_find_index(en, k) == -1);
                assert(r2 + 1 == en.len());
            } else {
                assert(r2 == -1);
                assert(dict_find_index(en2, k) == -1);
                assert(dict_find_index(en, k) == -1);
            }
        }
    }
}

/// Removing the slot an existing key was found at drops that key's
/// association and nothing else, when keys are distinct.
proof fn lemma_lookup_remove(en: Seq<MapEntryV>, j: int)
    requires
        keys_distinct(en),
        0 <= j < en.len(),
    ensures
        forall|k: crate::value::LeafV|
            dict_lookup(en.remove(j), k) == (if k == en[j].key {
                Option::None
            } else {
                dict_lookup(en, k)
            }),
        keys_distinct(en.remove(j)),
    decreases j,
{
    let en2 = en.remove(j);
    en.remove_ensures(j);
    assert forall|a: int, b: int| 0 <= a < b < en2.len() implies en2[a].key != en2[b].key by {
        let a2: int = if a < j {
            a
        } else {
            a + 1
        };
        let b2: int = if b < j {
            b
        } else {
            b + 1
        };
        assert(en2[a] == en[a2]);
        assert(en2[b] == en[b2]);
    }
    assert forall|k: crate::value::LeafV|
        dict_lookup(en2, k) == (if k == en[j].key {
            Option::None
        } else {
            dict_lookup(en, k)
        }) by {
        crate::difference::lemma_dict_find_index(en2, k);
        crate::difference::lemma_dict_find_index(en, k);
        let f = dict_find_index(en, k);
        let f2 = dict_find_index(en2, k);
        if k == en[j].key {
            if f2 >= 0 {
                let orig: int = if f2 < j {
                    f2
                } else {
                    f2 + 1
                };
                assert(en2[f2] == en[orig]);
                assert(orig != j);
                assert(en[orig].key != en[j].key);
            }
        } else {
            if f >= 0 {
                assert(en[f].key == k);
                assert(f != j);
                let shifted: int = if f < j {
                    f
                } else {
                    f - 1
                };
                assert(en2[shifted] == en[f]);
                assert(f2 >= 0);
                let orig: int = if f2 < j {
                    f2
                } else {
                    f2 + 1
                };
                assert(en2[f2] == en[orig]);
                assert(en[orig].key == k);
                assert(orig == f);
                assert(en2[f2].value == en[f].value);
            } else {
                if f2 >= 0 {
                    let orig: int = if f2 < j {
                        f2
                    } else {
                        f2 + 1
                    };
                    assert(en2[f2] == en[orig]);
                    assert(en[orig].key != k);
                }
            }
        }
    }
}

/// The association a flat map diff owes at key `k` after the
/// update-and-remove phase from old-side entry `i` on.
spec fn upd_expected(
    cur: Seq<MapEntryV>,
    ex: Seq<MapEntryV>,
    ey: Seq<MapEntryV>,
    i: int,
    k: crate::value::LeafV,
) -> Option<NodeV> {
    let p = dict_find_index(ex, k);
    if p >= i {
        match dict_lookup(ey, k) {
            Option::Some(vy) => {
                if ex[p].value != vy && dict_lookup(cur, k) is Some {
                    Option::Some(vy)
                } else {
                    dict_lookup(cur, k)
                }
            },
            Option::None => Option::None,
        }
    } else {
        dict_lookup(cur, k)
    }
}

/// The update-and-remove fold realizes exactly the owed associations.
#[verifier::rlimit(100)]
#[verifier::spinoff_prover]
proof fn lemma_upd_fold_lookup(
    cur: Seq<MapEntryV>,
    ex: Seq<MapEntryV>,
    ey: Seq<MapEntryV>,
    i: int,
)
    requires
        keys_distinct(cur),
        keys_distinct(ex),
        0 <= i,
    ensures
        keys_distinct(flat_dict_upd_fold(cur, ex, ey, i)),
        forall|k: crate::value::LeafV| #![trigger dict_lookup(flat_dict_upd_fold(cur, ex, ey, i), k)]
            dict_lookup(flat_dict_upd_fold(cur, ex, ey, i), k) == upd_expected(cur, ex, ey, i, k),
    decreases ex.len() - i,
{
    let fold = flat_dict_upd_fold(cur, ex, ey, i);
    if i >= ex.len() {
        assert forall|k: crate::value::LeafV| dict_lookup(fold, k) == upd_expected(
            cur,
            ex,
            ey,
            i,
            k,
        ) by {
            crate::difference::lemma_dict_find_index(ex, k);
        }
    } else {
        let ki = ex[i].key;
        let cur2 = flat_dict_upd_op(cur, ex, ey, i);
        crate::difference::lemma_dict_find_index(cur, ki);
        let j = dict_find_index(cur, ki);
        match dict_lookup(ey, ki) {
            Option::Some(vy) => {
                if ex[i].value != vy && j >= 0 {
                    lemma_lookup_update(cur, MapEntryV { key: ki, value: vy });
                }
            }
            Option::None => {
                if j >= 0 {
                    lemma_lookup_remove(cur, j);
                }
            }
        }
        lemma_upd_fold_lookup(cur2, ex, ey, i + 1);
        assert(fold == flat_dict_upd_fold(cur2, ex, ey, i + 1));
        assert forall|k: crate::value::LeafV| dict_lookup(fold, k) == upd_expected(
            cur,
            ex,
            ey,
            i,
            k,
        ) by {
            assert(dict_lookup(fold, k) == upd_expected(cur2, ex, ey, i + 1, k));
            crate::difference::lemma_dict_find_index(ex, k);
            let p = dict_find_index(ex, k);
            if k == ki {
                if p < 0 {
                    assert(ex[i].key != k);
                } else if p < i {
                    assert(ex[p].key != ex[i].key);
                } else if p > i {
                    assert(ex[i].key != k);
                }
                assert(p == i);
                match dict_lookup(ey, ki) {
                    Option::Some(vy) => {
                        if ex[i].value != vy && j >= 0 {
                            assert(dict_lookup(cur2, k) == Option::Some(vy));
                        } else {
                            assert(cur2 == cur);
                        }
                    }
                    Option::None => {
                        if j >= 0 {
                            assert(dict_lookup(cur2, k) == Option::<NodeV>::None);
                        } else {
                            assert(cur2 == cur);
                            assert(dict_lookup(cur, k) is None);
                        }
                    }
                }
            } else {
                if p >= 0 {
                    assert(ex[p].key == k);
                    assert(p != i);
                }
                match dict_lookup(ey, ki) {
                    Option::Some(vy) => {
                        if ex[i].value != vy && j >= 0 {
                            assert(dict_lookup(cur2, k) == dict_lookup(cur, k));
                        } else {
                            assert(cur2 == cur);
                        }
                    }
                    Option::None => {
                        if j >= 0 {
                            assert(dict_lookup(cur2, k) == dict_lookup(cur, k));
                        } else {
                            assert(cur2 == cur);
                        }
                    }
                }
                assert(dict_lookup(cur2, k) == dict_lookup(cur, k));
            }
        }
    }
}

/// The association a flat map diff owes at key `k` after the addition
/// phase from new-side entry `j` on.
spec fn add_expected(
    cur: Seq<MapEntryV>,
    ex: Seq<MapEntryV>,
    ey: Seq<MapEntryV>,
    j: int,
    k: crate::value::LeafV,
) -> Option<NodeV> {
    let q = dict_find_index(ey, k);
    if q >= j && !crate::difference::dict_has(ex, k) {
        Option::Some(ey[q].value)
    } else {
        dict_lookup(cur, k)
    }
}

/// The addition fold realizes exactly the owed associations.
#[verifier::rlimit(100)]
#[verifier::spinoff_prover]
proof fn lemma_add_fold_lookup(cur: Seq<MapEntryV>, ex: Seq<MapEntryV>, ey: Seq<MapEntryV>, j: int)
    requires
        keys_distinct(cur),
        keys_distinct(ey),
        0 <= j,
    ensures
        keys_distinct(flat_dict_add_fold(cur, ex, ey, j)),
        forall|k: crate::value::LeafV| #![trigger dict_lookup(flat_dict_add_fold(cur, ex, ey, j), k)]
            dict_lookup(flat_dict_add_fold(cur, ex, ey, j), k) == add_expected(cur, ex, ey, j, k),
    decreases ey.len() - j,
{
    let fold = flat_dict_add_fold(cur, ex, ey, j);
    if j >= ey.len() {
        assert forall|k: crate::value::LeafV| dict_lookup(fold, k) == add_expected(
            cur,
            ex,
            ey,
            j,
            k,
        ) by {
            crate::difference::lemma_dict_find_index(ey, k);
        }
    } else {
        let kj = ey[j].key;
        crate::difference::lemma_dict_find_index(ey, kj);
        if crate::difference::dict_has(ex, kj) {
            lemma_add_fold_lookup(cur, ex, ey, j + 1);
            assert(fold == flat_dict_add_fold(cur, ex, ey, j + 1));
            assert forall|k: crate::value::LeafV| dict_lookup(fold, k) == add_expected(
                cur,
                ex,
                ey,
                j,
                k,
            ) by {
                assert(dict_lookup(fold, k) == add_expected(cur, ex, ey, j + 1, k));
                crate::difference::lemma_dict_find_index(ey, k);
                let q = dict_find_index(ey, k);
                if k == kj {
                    if q < 0 {
                        assert(ey[j].key != k);
                    } else if q < j {
                        assert(ey[q].key != ey[j].key);
                    } else if q > j {
                        assert(ey[j].key != k);
                    }
                    assert(q == j);
                    assert(crate::difference::dict_has(ex, k));
                } else if q >= 0 {
                    assert(ey[q].key == k);
                    assert(q != j);
                }
            }
        } else {
            let cur2 = flat_dict_add_op(cur, ey[j]);
            crate::difference::lemma_dict_find_index(cur, kj);
            let fj = dict_find_index(cur, kj);
            if fj >= 0 {
                lemma_lookup_update(cur, MapEntryV { key: kj, value: ey[j].value });
            } else {
                lemma_lookup_push(cur, MapEntryV { key: kj, value: ey[j].value });
            }
            assert(cur2 == (if fj >= 0 {
                cur.update(fj, MapEntryV { key: kj, value: ey[j].value })
            } else {
                cur.push(MapEntryV { key: kj, value: ey[j].value })
            }));
            lemma_add_fold_lookup(cur2, ex, ey, j + 1);
            assert(fold == flat_dict_add_fold(cur2, ex, ey, j + 1));
            assert forall|k: crate::value::LeafV| dict_lookup(fold, k) == add_expected(
                cur,
                ex,
                ey,
                j,
                k,
            ) by {
                assert(dict_lookup(fold, k) == add_expected(cur2, ex, ey, j + 1, k));
                crate::difference::lemma_dict_find_index(ey, k);
                let q = dict_find_index(ey, k);
                if k == kj {
                    if q < 0 {
                        assert(ey[j].key != k);
                    } else if q < j {
                        assert(ey[q].key != ey[j].key);
                    } else if q > j {
                        assert(ey[j].key != k);
                    }
                    assert(q == j);
                    assert(dict_lookup(cur2, k) == Option::Some(ey[j].value));
                } else {
                    if q >= 0 {
                        assert(ey[q].key == k);
                        assert(q != j);
                    }
                    assert(dict_lookup(cur2, k) == dict_lookup(cur, k));
                }
            }
        }
    }
}

/// Three-way application on a keyed map of scalars, stated over the
/// map's contents: a key kept by both sides with a changed value is
/// updated where the target holds it, a key the new side dropped is
/// absent afterwards, a key the new side gained holds its new value
/// whatever the target held, and every other key keeps the target's
/// association.  Entry order is left open.
pub proof fn lemma_flat_dict_contents(t: NodeV, x: NodeV, y: NodeV, mode: FieldPathMode)
    requires
        t is Dict,
        x is Dict,
        y is Dict,
        flat_entries(t->Dict_0),
        flat_entries(x->Dict_0),
        flat_entries(y->Dict_0),
        keys_distinct(t->Dict_0),
        keys_distinct(x->Dict_0),
        keys_distinct(y->Dict_0),
    ensures
        ({
            let out = spec_apply_node(t, dstream(x, y, mode));
            &&& out.err == false
            &&& out.used == dstream(x, y, mode).len()
            &&& out.node is Dict
            &&& keys_distinct(out.node->Dict_0)
            &&& forall|k: crate::value::LeafV| #![trigger dict_lookup(out.node->Dict_0, k)]
                dict_lookup(out.node->Dict_0, k) == (if crate::difference::dict_has(x->Dict_0, k)
                    && !crate::difference::dict_has(y->Dict_0, k) {
                    Option::<NodeV>::None
                } else if crate::difference::dict_has(y->Dict_0, k)
                    && !crate::difference::dict_has(x->Dict_0, k) {
                    dict_lookup(y->Dict_0, k)
                } else if crate::difference::dict_has(x->Dict_0, k) && dict_lookup(x->Dict_0, k)
                    != dict_lookup(y->Dict_0, k) {
                    if crate::difference::dict_has(t->Dict_0, k) {
                        dict_lookup(y->Dict_0, k)
                    } else {
                        Option::<NodeV>::None
                    }
                } else {
                    dict_lookup(t->Dict_0, k)
                })
        }),
{
    let gt = t->Dict_0;
    let ex = x->Dict_0;
    let ey = y->Dict_0;
    lemma_flat_dict_three_way(t, x, y, mode);
    lemma_upd_fold_lookup(gt, ex, ey, 0);
    let mid = flat_dict_upd_fold(gt, ex, ey, 0);
    lemma_add_fold_lookup(mid, ex, ey, 0);
    let out = spec_apply_node(t, dstream(x, y, mode));
    assert(out.node->Dict_0 == flat_dict_add_fold(mid, ex, ey, 0));
    assert forall|k: crate::value::LeafV|
        dict_lookup(out.node->Dict_0, k) == (if crate::difference::dict_has(ex, k)
            && !crate::difference::dict_has(ey, k) {
            Option::<NodeV>::None
        } else if crate::difference::dict_has(ey, k) && !crate::difference::dict_has(ex, k) {
            dict_lookup(ey, k)
        } else if crate::difference::dict_has(ex, k) && dict_lookup(ex, k) != dict_lookup(ey, k) {
            if crate::difference::dict_has(gt, k) {
                dict_lookup(ey, k)
            } else {
                Option::<NodeV>::None
            }
        } else {
            dict_lookup(gt, k)
        }) by {
        assert(dict_lookup(out.node->Dict_0, k) == add_expected(mid, ex, ey, 0, k));
        assert(dict_lookup(mid, k) == upd_expected(gt, ex, ey, 0, k));
        crate::difference::lemma_dict_find_index(ex, k);
        crate::difference::lemma_dict_find_index(ey, k);
        crate::difference::lemma_dict_find_index(gt, k);
        let p = dict_find_index(ex, k);
        let q = dict_find_index(ey, k);
        if p >= 0 {
            assert(dict_lookup(ex, k) == Option::Some(ex[p].value));
        }
        if q >= 0 {
            assert(dict_lookup(ey, k) == Option::Some(ey[q].value));
        }
    }
}

/// Round trip on a keyed map of scalars, over its contents: applying
/// the diff of `(x, y)` to a copy of `x` yields a map associating
/// exactly what `y` associates.  Entry order is left open, since a pure
/// reordering of equal entries diffs as a no-op.
pub proof fn lemma_flat_dict_round_trip_contents(x: NodeV, y: NodeV, mode: FieldPathMode)
    requires
        x is Dict,
        y is Dict,
        flat_entries(x->Dict_0),
        flat_entries(y->Dict_0),
        keys_distinct(x->Dict_0),
        keys_distinct(y->Dict_0),
    ensures
        ({
            let out = spec_apply_node(x, dstream(x, y, mode));
            &&& out.err == false
            &&& out.node is Dict
            &&& forall|k: crate::value::LeafV| #![trigger dict_lookup(out.node->Dict_0, k)]
                dict_lookup(out.node->Dict_0, k) == dict_lookup(y->Dict_0, k)
        }),
{
    lemma_flat_dict_contents(x, x, y, mode);
    let ex = x->Dict_0;
    let ey = y->Dict_0;
    let out = spec_apply_node(x, dstream(x, y, mode));
    assert forall|k: crate::value::LeafV| dict_lookup(out.node->Dict_0, k) == dict_lookup(
        ey,
        k,
    ) by {
        crate::difference::lemma_dict_find_index(ex, k);
        crate::difference::lemma_dict_find_index(ey, k);
    }
}

} // verus!
