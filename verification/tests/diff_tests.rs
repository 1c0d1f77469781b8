use automergeable::Automergeable;
use automergeable::DiffError;
use automergeable::MapKind;
use automergeable::Op;
use automergeable::Scalar;
use automergeable::ToAutomerge;
use automergeable::Value;
use automergeable::apply_script;
use automergeable::clone_value;
use automergeable::diff_values;
use automergeable::map_value;
use automergeable::text_value;
use automergeable::values_equal;

fn text(gs: &[&str]) -> Value {
    Value::Text(gs.iter().map(|g| (*g).to_string()).collect())
}

fn map(entries: Vec<(&str, Value)>) -> Value {
    map_value(
        entries.into_iter().map(|(k, v)| (k.to_string(), v)).collect(),
        MapKind::Generic,
    )
}

fn sample_scalars() -> Vec<Scalar> {
    vec![
        Scalar::Str("hello".to_string()),
        Scalar::Str(String::new()),
        Scalar::Int(-42),
        Scalar::Uint(42),
        Scalar::F64(1.5f64.to_bits()),
        Scalar::F32(0.25f32.to_bits()),
        Scalar::Counter(7),
        Scalar::Timestamp(1_600_000_000),
        Scalar::Boolean(true),
        Scalar::Boolean(false),
        Scalar::Cursor(3),
        Scalar::Null,
    ]
}

fn sample_values() -> Vec<Value> {
    vec![
        Value::Scalar(Scalar::Int(1)),
        text(&["c", "a", "f", "é"]),
        Value::Sequence(vec![
            Value::Scalar(Scalar::Str("x".to_string())),
            Value::Scalar(Scalar::Uint(9)),
        ]),
        map(vec![
            ("b", Value::Scalar(Scalar::Int(2))),
            ("a", Value::Scalar(Scalar::Boolean(false))),
        ]),
        map_value(Vec::new(), MapKind::Table),
        Value::Sequence(Vec::new()),
    ]
}

#[test]
fn equal_primitives_give_no_diff() {
    for s in sample_scalars() {
        let v1 = Value::Scalar(automergeable::value::clone_scalar(&s));
        let v2 = Value::Scalar(s);
        let changes = diff_values(&v1, &v2).expect("scalar diff must succeed on equal values");
        assert!(changes.is_empty(), "expected no diff, got {:?}", changes);
    }
}

#[test]
fn equal_values_give_no_diff() {
    for v in sample_values() {
        let copy = clone_value(&v);
        let changes = diff_values(&copy, &v).expect("diff of equal values must succeed");
        assert!(changes.is_empty(), "expected no diff, got {:?}", changes);
    }
}

#[test]
fn applying_primitive_diff_result_to_old_gives_new() {
    let scalars = sample_scalars();
    for p1 in &scalars {
        for p2 in &scalars {
            let v1 = map(vec![("k", Value::Scalar(automergeable::value::clone_scalar(p1)))]);
            let v2 = map(vec![("k", Value::Scalar(automergeable::value::clone_scalar(p2)))]);
            let changes = match diff_values(&v1, &v2) {
                Ok(changes) => changes,
                Err(DiffError::Incompatible) => continue,
            };
            let replayed = apply_script(&v2, &changes).expect("replay must be defined");
            assert!(
                values_equal(&replayed, &v1),
                "expected: {:?}, found: {:?}",
                v1,
                replayed
            );
        }
    }
}

#[test]
fn applying_value_diff_result_to_old_gives_new() {
    let mut values = vec![
        map(vec![
            ("a", Value::Scalar(Scalar::Int(1))),
            ("b", text(&["h", "i"])),
            ("c", Value::Sequence(vec![Value::Scalar(Scalar::Uint(1))])),
        ]),
        map(vec![
            ("b", text(&["h", "o"])),
            ("c", Value::Sequence(vec![
                Value::Scalar(Scalar::Uint(1)),
                Value::Scalar(Scalar::Uint(2)),
            ])),
            ("d", map(vec![("x", Value::Scalar(Scalar::Counter(5)))])),
        ]),
        map(vec![("d", map(vec![("x", Value::Scalar(Scalar::Counter(9)))]))]),
        map(vec![]),
    ];
    values.push(map(vec![("a", Value::Sequence(vec![
        map(vec![("k", Value::Scalar(Scalar::Str("v".to_string())))]),
        Value::Scalar(Scalar::Null),
    ]))]));
    for v1 in &values {
        for v2 in &values {
            let changes = diff_values(v1, v2).expect("diff must succeed without cursors");
            let replayed = apply_script(v2, &changes).expect("replay must be defined");
            assert!(
                values_equal(&replayed, v1),
                "expected: {:?}, found: {:?}",
                v1,
                replayed
            );
        }
    }
}

#[test]
fn counter_diff_is_single_increment() {
    let old = Value::Scalar(Scalar::Counter(5));
    let new = Value::Scalar(Scalar::Counter(9));
    let changes = diff_values(&new, &old).unwrap();
    assert_eq!(changes.len(), 1);
    match &changes[0] {
        Op::IncrementCounter { path, delta } => {
            assert!(path.is_empty());
            assert_eq!(*delta, 4);
        }
        other => panic!("expected an increment, got {:?}", other),
    }
    let replayed = apply_script(&old, &changes).unwrap();
    assert!(values_equal(&replayed, &new));
}

#[test]
fn counter_diff_negative_delta() {
    let old = Value::Scalar(Scalar::Counter(9));
    let new = Value::Scalar(Scalar::Counter(2));
    let changes = diff_values(&new, &old).unwrap();
    assert_eq!(changes.len(), 1);
    match &changes[0] {
        Op::IncrementCounter { delta, .. } => assert_eq!(*delta, -7),
        other => panic!("expected an increment, got {:?}", other),
    }
}

#[test]
fn counter_diff_wraps_on_overflow() {
    let old = Value::Scalar(Scalar::Counter(i64::MAX));
    let new = Value::Scalar(Scalar::Counter(i64::MIN));
    let changes = diff_values(&new, &old).unwrap();
    assert_eq!(changes.len(), 1);
    match &changes[0] {
        Op::IncrementCounter { delta, .. } => assert_eq!(*delta, 1),
        other => panic!("expected an increment, got {:?}", other),
    }
    let replayed = apply_script(&old, &changes).unwrap();
    assert!(values_equal(&replayed, &new));
}

#[test]
fn counter_to_int_is_replace() {
    let old = Value::Scalar(Scalar::Counter(5));
    let new = Value::Scalar(Scalar::Int(5));
    let changes = diff_values(&new, &old).unwrap();
    assert_eq!(changes.len(), 1);
    assert!(matches!(&changes[0], Op::SetScalar { .. }));
}

#[test]
fn type_transition_is_single_replace() {
    let old = map(vec![("a", Value::Scalar(Scalar::Int(1)))]);
    let new = Value::Sequence(vec![Value::Scalar(Scalar::Int(1))]);
    let changes = diff_values(&new, &old).unwrap();
    assert_eq!(changes.len(), 1);
    match &changes[0] {
        Op::SetScalar { path, value } => {
            assert!(path.is_empty());
            assert!(values_equal(value, &new));
        }
        other => panic!("expected a whole-value replacement, got {:?}", other),
    }
    let replayed = apply_script(&old, &changes).unwrap();
    assert!(values_equal(&replayed, &new));
}

#[test]
fn map_kind_change_is_single_replace() {
    let old = map_value(
        vec![("a".to_string(), Value::Scalar(Scalar::Int(1)))],
        MapKind::Generic,
    );
    let new = map_value(
        vec![("a".to_string(), Value::Scalar(Scalar::Int(1)))],
        MapKind::Table,
    );
    let changes = diff_values(&new, &old).unwrap();
    assert_eq!(changes.len(), 1);
    assert!(matches!(&changes[0], Op::SetScalar { .. }));
}

#[test]
fn nan_is_replaced_not_noop() {
    let v1 = Value::Scalar(Scalar::F64(f64::NAN.to_bits()));
    let v2 = Value::Scalar(Scalar::F64(f64::NAN.to_bits()));
    let changes = diff_values(&v1, &v2).unwrap();
    assert_eq!(changes.len(), 1, "NaN must not compare equal to itself");
    assert!(matches!(&changes[0], Op::SetScalar { .. }));
}

#[test]
fn signed_zeros_are_equal() {
    let pos = Value::Scalar(Scalar::F64(0.0f64.to_bits()));
    let neg = Value::Scalar(Scalar::F64((-0.0f64).to_bits()));
    assert!(values_equal(&pos, &neg));
    let changes = diff_values(&neg, &pos).unwrap();
    assert!(changes.is_empty());
}

#[test]
fn f32_diff_is_replace() {
    let old = Value::Scalar(Scalar::F32(1.0f32.to_bits()));
    let new = Value::Scalar(Scalar::F32(2.0f32.to_bits()));
    let changes = diff_values(&new, &old).unwrap();
    assert_eq!(changes.len(), 1);
    assert!(matches!(&changes[0], Op::SetScalar { .. }));
}

#[test]
fn differing_cursors_are_incompatible() {
    let old = Value::Scalar(Scalar::Cursor(1));
    let new = Value::Scalar(Scalar::Cursor(2));
    assert!(matches!(diff_values(&new, &old), Err(DiffError::Incompatible)));
    let same = diff_values(&old, &Value::Scalar(Scalar::Cursor(1))).unwrap();
    assert!(same.is_empty());
}

#[test]
fn nested_cursor_mismatch_fails_whole_diff() {
    let old = map(vec![("c", Value::Scalar(Scalar::Cursor(1)))]);
    let new = map(vec![("c", Value::Scalar(Scalar::Cursor(2)))]);
    assert!(matches!(diff_values(&new, &old), Err(DiffError::Incompatible)));
}

#[test]
fn sequence_reorder_replays_correctly() {
    let old = Value::Sequence(vec![
        Value::Scalar(Scalar::Str("a".to_string())),
        Value::Scalar(Scalar::Str("b".to_string())),
        Value::Scalar(Scalar::Str("c".to_string())),
    ]);
    let new = Value::Sequence(vec![
        Value::Scalar(Scalar::Str("a".to_string())),
        Value::Scalar(Scalar::Str("c".to_string())),
        Value::Scalar(Scalar::Str("b".to_string())),
    ]);
    let changes = diff_values(&new, &old).unwrap();
    let replayed = apply_script(&old, &changes).unwrap();
    assert!(values_equal(&replayed, &new));
}

#[test]
fn sequence_shrink_and_grow_replay() {
    let old = Value::Sequence(vec![
        Value::Scalar(Scalar::Int(1)),
        Value::Scalar(Scalar::Int(2)),
        Value::Scalar(Scalar::Int(3)),
    ]);
    let new = Value::Sequence(vec![Value::Scalar(Scalar::Int(9))]);
    let changes = diff_values(&new, &old).unwrap();
    let replayed = apply_script(&old, &changes).unwrap();
    assert!(values_equal(&replayed, &new));
    let back = diff_values(&old, &new).unwrap();
    let replayed_back = apply_script(&new, &back).unwrap();
    assert!(values_equal(&replayed_back, &old));
}

#[test]
fn map_add_remove_modify() {
    let old = map(vec![
        ("a", Value::Scalar(Scalar::Int(1))),
        ("b", Value::Scalar(Scalar::Int(2))),
        ("c", Value::Scalar(Scalar::Int(3))),
    ]);
    let new = map(vec![
        ("b", Value::Scalar(Scalar::Int(2))),
        ("c", Value::Scalar(Scalar::Int(4))),
        ("d", Value::Scalar(Scalar::Int(5))),
    ]);
    let changes = diff_values(&new, &old).unwrap();
    assert_eq!(changes.len(), 3);
    assert!(matches!(&changes[0], Op::RemoveMapKey { key, .. } if key == "a"));
    match &changes[1] {
        Op::SetScalar { path, value } => {
            assert_eq!(path.len(), 1);
            assert!(matches!(&path[0], automergeable::PathElem::Key(k) if k == "c"));
            assert!(values_equal(value, &Value::Scalar(Scalar::Int(4))));
        }
        other => panic!("expected a replacement under key c, got {:?}", other),
    }
    assert!(matches!(&changes[2], Op::SetMapValue { key, .. } if key == "d"));
    let replayed = apply_script(&old, &changes).unwrap();
    assert!(values_equal(&replayed, &new));
}

#[test]
fn text_grapheme_diff() {
    let old = text_value("café");
    let new = text_value("cafe");
    match &old {
        Value::Text(gs) => {
            assert_eq!(gs.len(), 4, "é must stay one cluster");
            assert_eq!(gs[3], "é");
        }
        other => panic!("expected text, got {:?}", other),
    }
    let changes = diff_values(&new, &old).unwrap();
    assert_eq!(changes.len(), 1);
    match &changes[0] {
        Op::SetTextRange { path, start, end, graphemes } => {
            assert!(path.is_empty());
            assert_eq!((*start, *end), (3, 4));
            assert_eq!(graphemes.len(), 1);
            assert_eq!(graphemes[0], "e");
        }
        other => panic!("expected a text range replacement, got {:?}", other),
    }
    let replayed = apply_script(&old, &changes).unwrap();
    assert!(values_equal(&replayed, &new));
}

#[test]
fn text_diff_replays_to_empty_and_back() {
    let old = text_value("abc");
    let new = text_value("");
    let changes = diff_values(&new, &old).unwrap();
    let replayed = apply_script(&old, &changes).unwrap();
    assert!(values_equal(&replayed, &new));
    let back = diff_values(&old, &new).unwrap();
    let replayed_back = apply_script(&new, &back).unwrap();
    assert!(values_equal(&replayed_back, &old));
}

#[test]
fn grapheme_split_matches_manual_clusters() {
    let split = text_value("abc");
    let manual = text(&["a", "b", "c"]);
    assert!(values_equal(&split, &manual));
    let combining = text_value("e\u{0301}");
    match &combining {
        Value::Text(gs) => assert_eq!(gs.len(), 1, "a combining accent joins its base"),
        other => panic!("expected text, got {:?}", other),
    }
}

#[test]
fn map_value_is_canonical() {
    let ordered = map(vec![
        ("a", Value::Scalar(Scalar::Int(1))),
        ("b", Value::Scalar(Scalar::Int(2))),
    ]);
    let shuffled = map(vec![
        ("b", Value::Scalar(Scalar::Int(2))),
        ("a", Value::Scalar(Scalar::Int(1))),
    ]);
    assert!(values_equal(&ordered, &shuffled));
    let rebound = map(vec![
        ("a", Value::Scalar(Scalar::Int(7))),
        ("a", Value::Scalar(Scalar::Int(1))),
        ("b", Value::Scalar(Scalar::Int(2))),
    ]);
    assert!(values_equal(&ordered, &rebound), "the later binding must win");
}

#[test]
fn apply_rejects_missing_key() {
    let doc = map(vec![("a", Value::Scalar(Scalar::Int(1)))]);
    let ops = vec![Op::RemoveMapKey { path: Vec::new(), key: "missing".to_string() }];
    assert!(apply_script(&doc, &ops).is_none());
}

#[test]
fn apply_rejects_out_of_range_index() {
    let doc = Value::Sequence(vec![Value::Scalar(Scalar::Int(1))]);
    let ops = vec![Op::RemoveSequenceElement { path: Vec::new(), index: 1 }];
    assert!(apply_script(&doc, &ops).is_none());
}

fn marshalled<T: Automergeable>(x: &T) -> Value {
    x.to_automerge()
}

#[test]
fn to_automerge_conversions() {
    assert!(values_equal(&5i64.to_automerge(), &Value::Scalar(Scalar::Int(5))));
    assert!(values_equal(&5u64.to_automerge(), &Value::Scalar(Scalar::Uint(5))));
    assert!(values_equal(&true.to_automerge(), &Value::Scalar(Scalar::Boolean(true))));
    assert!(values_equal(
        &"s".to_string().to_automerge(),
        &Value::Scalar(Scalar::Str("s".to_string()))
    ));
    let none: Option<i64> = None;
    assert!(values_equal(&none.to_automerge(), &Value::Scalar(Scalar::Null)));
    assert!(values_equal(&Some(3i64).to_automerge(), &Value::Scalar(Scalar::Int(3))));
    let seq = vec![1i64, 2, 3];
    assert!(values_equal(
        &marshalled(&seq),
        &Value::Sequence(vec![
            Value::Scalar(Scalar::Int(1)),
            Value::Scalar(Scalar::Int(2)),
            Value::Scalar(Scalar::Int(3)),
        ])
    ));
}

#[test]
fn timestamp_diff_is_replace_if_unequal() {
    let old = Value::Scalar(Scalar::Timestamp(100));
    let new = Value::Scalar(Scalar::Timestamp(200));
    let changes = diff_values(&new, &old).unwrap();
    assert_eq!(changes.len(), 1);
    assert!(matches!(&changes[0], Op::SetScalar { .. }));
    let same = diff_values(&old, &Value::Scalar(Scalar::Timestamp(100))).unwrap();
    assert!(same.is_empty());
}

#[test]
fn chars_to_automerge_is_text() {
    let cs: Vec<char> = vec!['h', 'i'];
    assert!(values_equal(&cs.to_automerge(), &text(&["h", "i"])));
}

#[test]
fn option_of_null_encoding_matches_none() {
    let nested: Option<Option<i64>> = Some(None);
    let plain: Option<Option<i64>> = None;
    assert!(values_equal(&nested.to_automerge(), &plain.to_automerge()));
    let seq = vec![Some(1i64), None, Some(3i64)];
    assert!(values_equal(
        &seq.to_automerge(),
        &Value::Sequence(vec![
            Value::Scalar(Scalar::Int(1)),
            Value::Scalar(Scalar::Null),
            Value::Scalar(Scalar::Int(3)),
        ])
    ));
}
