use serde_diff::apply::ApplyError;
use serde_diff::config::{Config, Diff};
use serde_diff::difference::DiffCommandValue;
use serde_diff::value::{node_eq, FieldEntry, FieldMode, Leaf, MapEntry, Node, RecordKind};
use serde_diff::FieldPathMode;

fn field(name: &str, value: Node) -> FieldEntry {
    FieldEntry { name: name.to_string(), mode: FieldMode::Normal, value }
}

fn u(n: u64) -> Node {
    Node::Leaf(Leaf::U64(n))
}

fn f64v(x: f64) -> Node {
    Node::Leaf(Leaf::F64Bits(x.to_bits()))
}

fn ts(a: u64, b: f64) -> Node {
    Node::Record(RecordKind::Named, vec![field("a", u(a)), field("b", f64v(b))])
}

fn opt_some(n: Node) -> Node {
    Node::Opt(vec![n])
}

fn opt_none() -> Node {
    Node::Opt(vec![])
}

fn roundtrip(old_f: &dyn Fn() -> Node, new_f: &dyn Fn() -> Node) {
    let old_v = old_f();
    let new_v = new_f();
    let diff = Diff::serializable(&old_v, &new_v);
    let n = diff.element_count(&old_v, &new_v, FieldPathMode::Name);
    assert_eq!(n, diff.commands.len());
    let mut target = old_f();
    Config::new().apply(diff.commands, &mut target).unwrap();
    assert!(node_eq(&target, &new_f()));
}

fn partial(
    old_f: &dyn Fn() -> Node,
    new_f: &dyn Fn() -> Node,
    target_f: &dyn Fn() -> Node,
    expected_f: &dyn Fn() -> Node,
) {
    let old_v = old_f();
    let new_v = new_f();
    let diff = Diff::serializable(&old_v, &new_v);
    let mut target = target_f();
    Config::new().apply(diff.commands, &mut target).unwrap();
    assert!(node_eq(&target, &expected_f()));
}

#[test]
fn test_option() {
    roundtrip(&|| opt_none(), &|| opt_none());
    roundtrip(&|| opt_none(), &|| opt_some(ts(42, 12.)));
    roundtrip(&|| opt_some(ts(42, 12.)), &|| opt_none());
    roundtrip(&|| opt_some(ts(52, 32.)), &|| opt_some(ts(42, 12.)));

    partial(
        &|| opt_some(ts(5, 2.)),
        &|| opt_some(ts(8, 2.)),
        &|| opt_some(ts(0, 4.)),
        &|| opt_some(ts(8, 4.)),
    );
}

fn arr4(a: u64, b: u64, c: u64, d: u64) -> Node {
    Node::Array(vec![u(a), u(b), u(c), u(d)])
}

#[test]
fn test_array() {
    partial(
        &|| arr4(0, 1, 2, 3),
        &|| arr4(0, 1, 9, 3),
        &|| arr4(4, 5, 6, 7),
        &|| arr4(4, 5, 9, 7),
    );

    partial(
        &|| opt_some(arr4(0, 1, 2, 3)),
        &|| opt_some(arr4(0, 1, 9, 3)),
        &|| opt_some(arr4(4, 5, 6, 7)),
        &|| opt_some(arr4(4, 5, 9, 7)),
    );

    partial(
        &|| Node::Array(vec![opt_none(), opt_some(ts(5, 2.)), opt_some(ts(5, 2.))]),
        &|| Node::Array(vec![opt_some(ts(8, 2.)), opt_some(ts(8, 2.)), opt_none()]),
        &|| Node::Array(vec![opt_none(), opt_some(ts(0, 4.)), opt_none()]),
        &|| Node::Array(vec![opt_some(ts(8, 2.)), opt_some(ts(8, 4.)), opt_none()]),
    );
}

fn tup4(a: u64, b: u64, c: u64, d: u64) -> Node {
    Node::Record(
        RecordKind::Tuple,
        vec![field("0", u(a)), field("1", u(b)), field("2", u(c)), field("3", u(d))],
    )
}

fn tup2(a: Node, b: Node) -> Node {
    Node::Record(RecordKind::Tuple, vec![field("0", a), field("1", b)])
}

#[test]
fn test_tuple() {
    roundtrip(
        &|| tup2(opt_none(), opt_some(ts(8, 2.))),
        &|| tup2(opt_none(), opt_some(ts(8, 2.))),
    );

    partial(
        &|| tup4(0, 1, 2, 3),
        &|| tup4(0, 1, 9, 3),
        &|| tup4(4, 5, 6, 7),
        &|| tup4(4, 5, 9, 7),
    );

    partial(
        &|| opt_some(tup4(0, 1, 2, 3)),
        &|| opt_some(tup4(0, 1, 9, 3)),
        &|| opt_some(tup4(4, 5, 6, 7)),
        &|| opt_some(tup4(4, 5, 9, 7)),
    );

    partial(
        &|| {
            Node::Record(
                RecordKind::Tuple,
                vec![
                    field("0", opt_none()),
                    field("1", opt_some(ts(5, 2.))),
                    field("2", opt_some(ts(5, 2.))),
                ],
            )
        },
        &|| {
            Node::Record(
                RecordKind::Tuple,
                vec![
                    field("0", opt_some(ts(8, 2.))),
                    field("1", opt_some(ts(8, 2.))),
                    field("2", opt_none()),
                ],
            )
        },
        &|| {
            Node::Record(
                RecordKind::Tuple,
                vec![
                    field("0", opt_none()),
                    field("1", opt_some(ts(0, 4.))),
                    field("2", opt_none()),
                ],
            )
        },
        &|| {
            Node::Record(
                RecordKind::Tuple,
                vec![
                    field("0", opt_some(ts(8, 2.))),
                    field("1", opt_some(ts(8, 4.))),
                    field("2", opt_none()),
                ],
            )
        },
    );
}

fn simple(a: u64) -> Node {
    Node::Record(RecordKind::Named, vec![field("a", u(a))])
}

fn cow_struct(a: u64) -> Node {
    Node::Record(RecordKind::Named, vec![field("a", simple(a))])
}

#[test]
fn test_cow() {
    roundtrip(&|| cow_struct(0), &|| cow_struct(10));
    roundtrip(&|| cow_struct(0), &|| cow_struct(10));
    roundtrip(&|| cow_struct(0), &|| cow_struct(1));
    roundtrip(&|| cow_struct(0), &|| cow_struct(1));
}

fn variant_s(x: u64, y: u64) -> Node {
    Node::Variant(
        "S".to_string(),
        RecordKind::Named,
        vec![field("x", u(x)), field("y", u(y))],
    )
}

fn variant_e(a: i64, b: i64, c: i64) -> Node {
    Node::Variant(
        "E".to_string(),
        RecordKind::Positional,
        vec![
            field("", Node::Leaf(Leaf::I64(a))),
            field("", Node::Leaf(Leaf::I64(b))),
            field("", Node::Leaf(Leaf::I64(c))),
        ],
    )
}

fn variant_u() -> Node {
    Node::Variant("U".to_string(), RecordKind::Named, vec![])
}

#[test]
fn enum_same_variant_partial_update() {
    partial(
        &|| variant_e(1, 2, 3),
        &|| variant_e(1, 10, 3),
        &|| variant_e(4, 3, 2),
        &|| variant_e(4, 10, 2),
    );
}

#[test]
fn enum_variant_change() {
    partial(&|| variant_s(5, 2), &|| variant_u(), &|| variant_e(1, 2, 3), &|| variant_u());
}

#[test]
fn record_single_field_change() {
    partial(&|| ts(5, 2.0), &|| ts(8, 2.0), &|| ts(0, 4.0), &|| ts(8, 4.0));
}

#[test]
fn positional_record() {
    fn triple(a: u64, b: u64, c: u64) -> Node {
        Node::Record(
            RecordKind::Positional,
            vec![field("", u(a)), field("", u(b)), field("", u(c))],
        )
    }
    partial(&|| triple(1, 2, 3), &|| triple(1, 10, 3), &|| triple(4, 3, 2), &|| triple(4, 10, 2));
}

fn apply_to(target: &mut Node, old_v: &Node, new_v: &Node) {
    let diff = Diff::serializable(old_v, new_v);
    Config::new().apply(diff.commands, target).unwrap();
}

#[test]
fn sequence_add_then_remove() {
    let a = || u(1);
    let b = || u(2);
    let c = || u(3);
    let mut target = Node::List(vec![]);
    apply_to(&mut target, &Node::List(vec![]), &Node::List(vec![a()]));
    assert!(node_eq(&target, &Node::List(vec![a()])));
    apply_to(&mut target, &Node::List(vec![a()]), &Node::List(vec![a(), b(), c()]));
    assert!(node_eq(&target, &Node::List(vec![a(), b(), c()])));
    apply_to(
        &mut target,
        &Node::List(vec![a(), b(), c()]),
        &Node::List(vec![c(), b(), a()]),
    );
    assert!(node_eq(&target, &Node::List(vec![c(), b(), a()])));
    apply_to(&mut target, &Node::List(vec![c(), b(), a()]), &Node::List(vec![c()]));
    assert!(node_eq(&target, &Node::List(vec![c()])));
}

fn strleaf(s: &str) -> Leaf {
    Leaf::Str(s.to_string())
}

fn strnode(s: &str) -> Node {
    Node::Leaf(strleaf(s))
}

fn map1(k: &str, v: Node) -> Node {
    Node::Dict(vec![MapEntry { key: strleaf(k), value: v }])
}

#[test]
fn map_lifecycle() {
    let world_list = || Node::List(vec![strnode("world")]);
    let world_planet = || Node::List(vec![strnode("world"), strnode("planet")]);
    let planet_only = || Node::List(vec![strnode("planet")]);

    let mut target = Node::Dict(vec![]);
    apply_to(&mut target, &Node::Dict(vec![]), &map1("hello", world_list()));
    assert!(node_eq(&target, &map1("hello", world_list())));
    apply_to(&mut target, &map1("hello", world_list()), &map1("hi", world_list()));
    assert!(node_eq(&target, &map1("hi", world_list())));
    apply_to(&mut target, &map1("hi", world_list()), &map1("hi", world_planet()));
    assert!(node_eq(&target, &map1("hi", world_planet())));
    apply_to(&mut target, &map1("hi", world_planet()), &map1("hi", planet_only()));
    assert!(node_eq(&target, &map1("hi", planet_only())));
    apply_to(&mut target, &map1("hi", planet_only()), &map1("hi", planet_only()));
    assert!(node_eq(&target, &map1("hi", planet_only())));
}

#[test]
fn noop_diff_is_empty() {
    let diff = Diff::serializable(&ts(5, 2.0), &ts(5, 2.0));
    assert!(!diff.has_changes());
    assert_eq!(diff.commands.len(), 0);
    let mut target = ts(9, 7.0);
    let changed = Config::new().apply(diff.commands, &mut target).unwrap();
    assert!(!changed);
    assert!(node_eq(&target, &ts(9, 7.0)));
}

#[test]
fn skip_unknown_field() {
    let with_extra = |a: u64, c: u64| {
        Node::Record(RecordKind::Named, vec![field("a", u(a)), field("c", u(c))])
    };
    let diff = Diff::serializable(&with_extra(1, 5), &with_extra(2, 6));
    let mut target = simple(1);
    Config::new().apply(diff.commands, &mut target).unwrap();
    assert!(node_eq(&target, &simple(2)));
}

#[test]
fn index_mode_diff() {
    let cfg = Config::new().with_field_path_mode(FieldPathMode::Index);
    let diff = cfg.serializable_diff(&ts(5, 2.0), &ts(8, 2.0));
    assert!(diff.has_changes());
    let mut target = ts(0, 4.0);
    Config::new().apply(diff.commands, &mut target).unwrap();
    assert!(node_eq(&target, &ts(8, 4.0)));
}

#[test]
fn malformed_stream_is_fatal() {
    // An exit where a value was owed is unrecoverable.
    let mut target = u(5);
    let cmds = vec![DiffCommandValue::Exit];
    let r = Config::new().apply(cmds, &mut target);
    assert_eq!(r, Err(ApplyError::MalformedStream));
}

#[test]
fn stray_value_ends_record_loop() {
    // A bare value where the record expected a path element is consumed
    // and ends the loop benignly: schema drift, not an error.
    let mut target = ts(1, 1.0);
    let cmds = vec![DiffCommandValue::Value(u(7))];
    let r = Config::new().apply(cmds, &mut target);
    assert_eq!(r, Ok(false));
    assert!(node_eq(&target, &ts(1, 1.0)));
}

#[test]
fn map_key_command_read_in_place() {
    // A map-key command arriving where a value read was expected writes
    // its key payload into the slot, as an in-place read does.
    let mut target = u(5);
    let cmds = vec![DiffCommandValue::EnterKey(strleaf("x"))];
    let r = Config::new().apply(cmds, &mut target);
    assert_eq!(r, Ok(true));
    assert!(node_eq(&target, &strnode("x")));
}

#[test]
fn counting_matches_writing() {
    let old_v = || Node::List(vec![ts(1, 1.0), ts(2, 2.0)]);
    let new_v = || Node::List(vec![ts(1, 9.0), ts(2, 2.0), ts(3, 3.0)]);
    let diff = Diff::serializable(&old_v(), &new_v());
    let n = diff.element_count(&old_v(), &new_v(), FieldPathMode::Name);
    assert_eq!(n, diff.commands.len());
    assert!(n > 0);
}

#[test]
fn opaque_field_replaced_wholesale() {
    let rec = |a: u64, b: u64| {
        Node::Record(
            RecordKind::Named,
            vec![FieldEntry {
                name: "inner".to_string(),
                mode: FieldMode::Opaque,
                value: tup2(u(a), u(b)),
            }],
        )
    };
    partial(&|| rec(1, 2), &|| rec(1, 3), &|| rec(9, 9), &|| rec(1, 3));
}

#[test]
fn skipped_field_not_diffed() {
    let rec = |a: u64, s: u64| {
        Node::Record(
            RecordKind::Named,
            vec![
                field("a", u(a)),
                FieldEntry { name: "cache".to_string(), mode: FieldMode::Skip, value: u(s) },
            ],
        )
    };
    let diff = Diff::serializable(&rec(1, 10), &rec(1, 20));
    assert!(!diff.has_changes());
    let diff2 = Diff::serializable(&rec(1, 10), &rec(2, 10));
    let mut target = rec(5, 77);
    Config::new().apply(diff2.commands, &mut target).unwrap();
    assert!(node_eq(&target, &rec(2, 77)));
}

#[test]
fn sibling_after_enum_field_still_applied() {
    // A record whose enum-typed field and a later field both changed:
    // the union's subtree closes two levels, and the sibling update
    // after it must still land.
    let rec = |v: Node, g: u64| {
        Node::Record(RecordKind::Named, vec![field("f", v), field("g", u(g))])
    };
    partial(
        &|| rec(variant_s(1, 2), 5),
        &|| rec(variant_s(9, 2), 6),
        &|| rec(variant_s(0, 0), 0),
        &|| rec(variant_s(9, 0), 6),
    );
}

#[test]
fn cross_variant_target_unchanged_with_sibling() {
    // The stream descends into a variant the target does not carry: the
    // subtree is skipped, and the sibling update after it still lands.
    let rec = |v: Node, g: u64| {
        Node::Record(RecordKind::Named, vec![field("f", v), field("g", u(g))])
    };
    partial(
        &|| rec(variant_s(1, 2), 5),
        &|| rec(variant_s(9, 2), 6),
        &|| rec(variant_u(), 0),
        &|| rec(variant_u(), 6),
    );
}

#[test]
fn out_of_range_index_skipped() {
    // The diff addresses position 2, which the target does not have;
    // the tail operations still apply.
    let diff = Diff::serializable(
        &Node::List(vec![u(1), u(2), u(3)]),
        &Node::List(vec![u(1), u(2), u(9)]),
    );
    let mut target = Node::List(vec![u(7)]);
    let changed = Config::new().apply(diff.commands, &mut target).unwrap();
    assert!(!changed);
    assert!(node_eq(&target, &Node::List(vec![u(7)])));
}

#[test]
fn unknown_map_key_skipped() {
    // The diff descends into a key the target does not hold; a later
    // removal of a key the target does hold still lands.
    let two = |k1: &str, v1: u64, k2: &str, v2: u64| {
        Node::Dict(vec![
            MapEntry { key: strleaf(k1), value: u(v1) },
            MapEntry { key: strleaf(k2), value: u(v2) },
        ])
    };
    let diff = Diff::serializable(&two("p", 1, "q", 2), &two("p", 9, "q", 2));
    let mut target = map1("q", u(2));
    Config::new().apply(diff.commands, &mut target).unwrap();
    assert!(node_eq(&target, &map1("q", u(2))));
}
