use lib_ot::attributes::{AttributeValue, Attributes};
use lib_ot::delta::{Delta, OTError};
use lib_ot::extensions::AutoExitBlock;
use lib_ot::operation::{Insert, Interval, Operation, Retain};
use lib_ot::rev::{md5, to_hex, RevState, RevTable, RevTableType, RevType, Revision};
use lib_ot::text::{count_utf16_code_units, sub_str};

fn attrs(pairs: Vec<(&str, AttributeValue)>) -> Attributes {
    let mut a = Attributes::new();
    for (k, v) in pairs {
        a.insert(k.to_string(), v);
    }
    a
}

fn plain() -> Attributes {
    Attributes::new()
}

#[test]
fn code_units_count_surrogate_pairs_twice() {
    assert_eq!(count_utf16_code_units("abc"), 3);
    assert_eq!(count_utf16_code_units("a\u{1F600}b"), 4);
    assert_eq!(count_utf16_code_units(""), 0);
}

#[test]
fn sub_str_slices_by_code_units() {
    assert_eq!(sub_str("hello", 1, 3), "el");
    assert_eq!(sub_str("a\u{1F600}b", 1, 3), "\u{1F600}");
    assert_eq!(sub_str("a\u{1F600}b", 3, 4), "b");
    assert_eq!(sub_str("abc", 2, 10), "c");
    assert_eq!(sub_str("abc", 5, 10), "");
}

#[test]
fn attributes_equality_ignores_order_and_tombstones() {
    let a = attrs(vec![("bold", AttributeValue::Bool(true)), ("color", AttributeValue::Str("red".to_string()))]);
    let b = attrs(vec![
        ("color", AttributeValue::Str("red".to_string())),
        ("italic", AttributeValue::Null),
        ("bold", AttributeValue::Bool(true)),
    ]);
    assert!(a == b);
    let c = attrs(vec![("bold", AttributeValue::Bool(false))]);
    assert!(a != c);
    assert!(attrs(vec![("bold", AttributeValue::Null)]) == plain());
}

#[test]
fn attributes_insert_replaces_value() {
    let mut a = attrs(vec![("header", AttributeValue::Int(1))]);
    a.insert("header".to_string(), AttributeValue::Int(2));
    assert_eq!(a.len(), 1);
    assert!(a == attrs(vec![("header", AttributeValue::Int(2))]));
}

#[test]
fn attributes_mark_all_removed_except_keeps_one() {
    let mut a = attrs(vec![("bold", AttributeValue::Bool(true)), ("header", AttributeValue::Int(1))]);
    a.mark_all_as_removed_except(Some("header".to_string()));
    assert_eq!(a.inner[0].value, AttributeValue::Null);
    assert_eq!(a.inner[1].value, AttributeValue::Int(1));
}

#[test]
fn operation_lengths_and_kinds() {
    let i = Operation::insert("a\u{1F600}", plain());
    assert_eq!(i.len(), 3);
    assert!(i.is_insert() && !i.is_retain() && !i.is_delete());
    assert!(i.is_plain());
    assert_eq!(i.get_data(), "a\u{1F600}");
    let r = Operation::retain(4, attrs(vec![("bold", AttributeValue::Bool(true))]));
    assert!(r.is_retain() && !r.is_plain() && r.has_attribute());
    assert_eq!(r.get_data(), "");
    let d = Operation::delete(0);
    assert!(d.is_empty() && d.is_delete() && d.is_plain());
}

#[test]
fn set_attributes_leaves_delete_alone() {
    let mut d = Operation::delete(2);
    d.set_attributes(attrs(vec![("bold", AttributeValue::Bool(true))]));
    assert_eq!(d, Operation::Delete(2));
    let mut r = Operation::retain(2, plain());
    r.set_attributes(attrs(vec![("bold", AttributeValue::Bool(true))]));
    assert!(r.has_attribute());
}

#[test]
fn split_keeps_variant_and_attributes() {
    let b = attrs(vec![("bold", AttributeValue::Bool(true))]);
    let (l, r) = Operation::retain(5, b.clone()).split(2);
    assert_eq!(l, Some(Operation::retain(2, b.clone())));
    assert_eq!(r, Some(Operation::retain(3, b.clone())));
    let (l, r) = Operation::delete(5).split(1);
    assert_eq!(l, Some(Operation::Delete(1)));
    assert_eq!(r, Some(Operation::Delete(4)));
    let (l, r) = Operation::insert("a\u{1F600}b", b.clone()).split(3);
    assert_eq!(l, Some(Operation::insert("a\u{1F600}", b.clone())));
    assert_eq!(r, Some(Operation::insert("b", b)));
}

#[test]
fn shrink_clips_to_interval() {
    assert_eq!(Operation::delete(5).shrink(Interval::new(1, 3)), Some(Operation::Delete(2)));
    assert_eq!(Operation::delete(5).shrink(Interval::new(3, 10)), Some(Operation::Delete(2)));
    assert_eq!(Operation::retain(5, plain()).shrink(Interval::new(3, 10)), Some(Operation::retain(2, plain())));
    assert_eq!(Operation::retain(5, plain()).shrink(Interval::new(5, 8)), None);
    assert_eq!(Operation::delete(5).shrink(Interval::new(4, 2)), None);
    assert_eq!(Operation::retain(1, plain()).shrink(Interval::new(0, 3)), Some(Operation::retain(1, plain())));
    assert_eq!(Operation::insert("hello", plain()).shrink(Interval::new(1, 3)), Some(Operation::insert("el", plain())));
    assert_eq!(Operation::insert("\u{1F600}x", plain()).shrink(Interval::new(0, 2)), Some(Operation::insert("\u{1F600}", plain())));
    assert_eq!(Operation::insert("hello", plain()).shrink(Interval::new(7, 9)), None);
    assert_eq!(Operation::delete(5).shrink(Interval::new(3, 3)), None);
}

#[test]
fn merge_or_new_joins_equal_attributes() {
    let mut r = Retain { n: 2, attributes: plain() };
    assert_eq!(r.merge_or_new(3, plain()), None);
    assert_eq!(r.n, 5);
    let b = attrs(vec![("bold", AttributeValue::Bool(true))]);
    assert_eq!(r.merge_or_new(1, b.clone()), Some(Operation::retain(1, b.clone())));
    assert_eq!(r.n, 5);
    let mut i = Insert { s: "ab".to_string(), attributes: plain() };
    assert_eq!(i.merge_or_new_op("c", plain()), None);
    assert_eq!(i.s, "abc");
    assert_eq!(i.count_of_code_units(), 3);
    assert_eq!(i.merge_or_new_op("d", b.clone()), Some(Operation::insert("d", b)));
    assert!(i.is_plain());
}

#[test]
fn builder_coalesces_adjacent_operations() {
    let mut d = Delta::new();
    d.retain(2, plain());
    d.retain(3, plain());
    d.insert("ab", plain());
    d.insert("c", plain());
    d.delete(1);
    d.delete(2);
    d.retain(0, plain());
    assert_eq!(d.ops.len(), 3);
    assert_eq!(d.ops[0], Operation::retain(5, plain()));
    assert_eq!(d.ops[1], Operation::insert("abc", plain()));
    assert_eq!(d.ops[2], Operation::Delete(3));
    assert_eq!(d.base_len, 8);
    assert_eq!(d.target_len, 8);
}

#[test]
fn rebuilding_a_built_delta_changes_nothing() {
    let b = attrs(vec![("bold", AttributeValue::Bool(true))]);
    let mut d = Delta::new();
    d.retain(1, plain());
    d.retain(1, b.clone());
    d.retain(1, b.clone());
    d.insert("x", plain());
    let mut again = Delta::new();
    for op in d.ops.iter() {
        match op {
            Operation::Retain(r) => again.retain(r.n, r.attributes.clone()),
            Operation::Insert(i) => again.insert(&i.s, i.attributes.clone()),
            Operation::Delete(n) => again.delete(*n),
        }
    }
    assert_eq!(again, d);
    assert_eq!(d.ops.len(), 3);
}

#[test]
fn apply_produces_target_length() {
    let mut d = Delta::new();
    d.retain(2, plain());
    d.insert("XY", plain());
    d.delete(1);
    d.retain(2, plain());
    let out = d.apply("hello").unwrap();
    assert_eq!(out, "heXYlo");
    assert_eq!(count_utf16_code_units(&out), d.target_len);
}

#[test]
fn apply_rejects_wrong_base_length() {
    let mut d = Delta::new();
    d.retain(3, plain());
    assert_eq!(d.apply("hello"), Err(OTError::ApplyMismatch));
}

#[test]
fn apply_counts_code_units() {
    let mut d = Delta::new();
    d.retain(2, plain());
    d.delete(1);
    d.insert("!", plain());
    assert_eq!(d.apply("\u{1F600}x").unwrap(), "\u{1F600}!");
}

#[test]
fn empty_line_detection() {
    let mut d = Delta::new();
    d.insert("ab\n\n", plain());
    assert!(d.is_empty_line_at_index(0));
    assert!(!d.is_empty_line_at_index(2));
    assert!(d.is_empty_line_at_index(3));
    assert_eq!(d.to_text(), "ab\n\n");
}

fn block_doc() -> Delta {
    let mut d = Delta::new();
    d.insert("# H\n", plain());
    d.insert(
        "\n",
        attrs(vec![
            ("bold", AttributeValue::Null),
            ("italic", AttributeValue::Bool(true)),
            ("list", AttributeValue::Str("bullet".to_string())),
            ("header", AttributeValue::Int(1)),
        ]),
    );
    d
}

#[test]
fn auto_exit_block_triggers_on_empty_block_line() {
    let d = block_doc();
    let out = AutoExitBlock {}.apply(&d, 0, "\n", 4).unwrap();
    let mut expected = Delta::new();
    expected.retain(4, plain());
    expected.retain(
        1,
        attrs(vec![
            ("bold", AttributeValue::Null),
            ("italic", AttributeValue::Null),
            ("list", AttributeValue::Null),
            ("header", AttributeValue::Int(1)),
        ]),
    );
    assert_eq!(out, expected);
    assert_eq!(out.ops.len(), 2);
    match &out.ops[1] {
        Operation::Retain(r) => {
            assert_eq!(r.n, 1);
            assert_eq!(r.attributes.len(), 4);
            assert_eq!(r.attributes.inner[0].value, AttributeValue::Null);
            assert_eq!(r.attributes.inner[2].value, AttributeValue::Null);
            assert_eq!(r.attributes.inner[3].value, AttributeValue::Int(1));
        },
        _ => panic!("expected a retain"),
    }
}

#[test]
fn auto_exit_block_declines() {
    let d = block_doc();
    let ext = AutoExitBlock {};
    assert_eq!(ext.ext_name(), "AutoExitBlock");
    assert!(ext.apply(&d, 0, "a", 4).is_none());
    assert!(ext.apply(&d, 0, "\n", 2).is_none());
    assert!(ext.apply(&d, 0, "\n", 5).is_none());
    let mut h = Delta::new();
    h.insert("# H\n", plain());
    h.insert("\n", attrs(vec![("header", AttributeValue::Int(1))]));
    assert!(ext.apply(&h, 0, "\n", 4).is_none());
    let mut same = block_doc();
    same.insert("x", plain());
    same.insert("\n", attrs(vec![("list", AttributeValue::Str("bullet".to_string())), ("italic", AttributeValue::Bool(true))]));
    assert!(ext.apply(&same, 0, "\n", 4).is_none());
}

#[test]
fn rev_codes_read_tolerantly() {
    assert_eq!(RevState::from(0), RevState::Local);
    assert_eq!(RevState::from(1), RevState::Acked);
    assert_eq!(RevState::from(7), RevState::Local);
    assert_eq!(RevTableType::from(1), RevTableType::Remote);
    assert_eq!(RevTableType::from(-3), RevTableType::Local);
    assert_eq!(RevState::Acked.value(), 1);
    assert_eq!(RevTableType::Remote.value(), 1);
    assert_eq!(RevState::default(), RevState::Local);
    assert_eq!(RevTableType::default(), RevTableType::Local);
    assert_eq!(RevType::from(RevTableType::Remote), RevType::Remote);
    assert_eq!(RevTableType::from(RevType::Local), RevTableType::Local);
}

#[test]
fn invert_undoes_delete_then_insert() {
    let mut a = Delta::new();
    a.delete(1);
    a.insert("H", plain());
    a.retain(4, plain());
    let edited = a.apply("hello").unwrap();
    assert_eq!(edited, "Hello");
    let inv = a.invert_str("hello").unwrap();
    assert_eq!(inv.base_len, a.target_len);
    assert_eq!(inv.target_len, a.base_len);
    assert_eq!(inv.apply(&edited).unwrap(), "hello");
}

#[test]
fn invert_marks_formatting_removed_on_plain_text() {
    let mut a = Delta::new();
    a.retain(2, attrs(vec![("bold", AttributeValue::Bool(true))]));
    a.delete(2);
    a.insert("xyz", plain());
    let inv = a.invert_str("abcd").unwrap();
    assert_eq!(inv.ops[0], Operation::retain(2, attrs(vec![("bold", AttributeValue::Null)])));
    match &inv.ops[0] {
        Operation::Retain(r) => assert_eq!(r.attributes.inner[0].value, AttributeValue::Null),
        _ => panic!("expected a retain"),
    }
    assert_eq!(inv.ops[1], Operation::insert("cd", plain()));
    assert_eq!(inv.ops[2], Operation::Delete(3));
    assert_eq!(inv.apply(&a.apply("abcd").unwrap()).unwrap(), "abcd");
}

#[test]
fn empty_delta_applies_to_empty_text() {
    let d = Delta::new();
    assert_eq!(d.apply("").unwrap(), "");
    assert_eq!(d.invert_str("").unwrap(), Delta::new());
}

#[test]
fn md5_of_revision_row() {
    let row = RevTable {
        id: 1,
        doc_id: "doc".to_string(),
        base_rev_id: 5,
        rev_id: 6,
        data: Vec::new(),
        state: RevState::Local,
        ty: RevTableType::Remote,
    };
    let rev = Revision::from_table(row);
    assert_eq!(rev.md5, "d41d8cd98f00b204e9800998ecf8427e");
    assert_eq!(rev.ty, RevType::Remote);
    assert_eq!(rev.rev_id, 6);
    assert_eq!(rev.base_rev_id, 5);
    assert_eq!(md5(&b"abc".to_vec()), "900150983cd24fb0d6963f7d28e17f72");
}

#[test]
fn hex_text_of_bytes() {
    assert_eq!(to_hex(&vec![0x00, 0xab, 0x0f]), "00ab0f");
    assert_eq!(to_hex(&Vec::new()), "");
}

#[test]
fn compose_applies_both_edits() {
    let mut a = Delta::new();
    a.retain(1, plain());
    a.insert("XY", plain());
    a.delete(1);
    a.retain(1, plain());
    let mut b = Delta::new();
    b.delete(1);
    b.retain(2, attrs(vec![("bold", AttributeValue::Bool(true))]));
    b.insert("!", plain());
    b.retain(1, plain());
    let c = a.compose(&b).unwrap();
    let doc = "abc";
    let twice = b.apply(&a.apply(doc).unwrap()).unwrap();
    assert_eq!(twice, "XY!c");
    assert_eq!(c.apply(doc).unwrap(), twice);
    assert_eq!(c.base_len, a.base_len);
    assert_eq!(c.target_len, b.target_len);
}

#[test]
fn compose_formats_and_removes_attributes() {
    let mut a = Delta::new();
    a.insert("ab", attrs(vec![("bold", AttributeValue::Bool(true))]));
    let mut b = Delta::new();
    b.retain(1, attrs(vec![("bold", AttributeValue::Null), ("italic", AttributeValue::Bool(true))]));
    let c = a.compose(&b).unwrap();
    assert_eq!(c.ops.len(), 2);
    assert_eq!(c.ops[0], Operation::insert("a", attrs(vec![("italic", AttributeValue::Bool(true))])));
    assert_eq!(c.ops[1], Operation::insert("b", attrs(vec![("bold", AttributeValue::Bool(true))])));
}

#[test]
fn compose_cancels_insert_then_delete() {
    let mut a = Delta::new();
    a.insert("abc", plain());
    let mut b = Delta::new();
    b.retain(1, plain());
    b.delete(2);
    let c = a.compose(&b).unwrap();
    assert_eq!(c.ops, vec![Operation::insert("a", plain())]);
}

#[test]
fn compose_with_empty_delta_is_identity() {
    let mut a = Delta::new();
    a.insert("ab", plain());
    let c = a.compose(&Delta::new()).unwrap();
    assert_eq!(c, a);
    let c2 = Delta::new().compose(&a).unwrap();
    assert_eq!(c2, a);
}

#[test]
fn compose_rejects_longer_second_delta() {
    let mut a = Delta::new();
    a.insert("ab", plain());
    let mut b = Delta::new();
    b.retain(3, plain());
    assert_eq!(a.compose(&b), Err(OTError::ComposeMismatch));
}

#[test]
fn transform_concurrent_inserts_left_first() {
    let mut a = Delta::new();
    a.insert("X", plain());
    let mut b = Delta::new();
    b.insert("Y", plain());
    let (a2, b2) = a.transform(&b).unwrap();
    assert_eq!(a2.ops, vec![Operation::insert("X", plain())]);
    assert_eq!(b2.ops, vec![Operation::retain(1, plain()), Operation::insert("Y", plain())]);
    let left = a.compose(&b2).unwrap();
    let right = b.compose(&a2).unwrap();
    assert_eq!(left.apply("").unwrap(), "XY");
    assert_eq!(right.apply("").unwrap(), "XY");
    assert_eq!(left, right);
}

#[test]
fn transform_delete_against_format() {
    let mut a = Delta::new();
    a.retain(1, plain());
    a.delete(2);
    let mut b = Delta::new();
    b.retain(2, attrs(vec![("bold", AttributeValue::Bool(true))]));
    b.retain(1, plain());
    let (a2, b2) = a.transform(&b).unwrap();
    let doc = "abc";
    let left = b2.apply(&a.apply(doc).unwrap()).unwrap();
    let right = a2.apply(&b.apply(doc).unwrap()).unwrap();
    assert_eq!(left, "a");
    assert_eq!(left, right);
}

#[test]
fn transform_rejects_different_bases() {
    let mut a = Delta::new();
    a.retain(2, plain());
    let mut b = Delta::new();
    b.retain(3, plain());
    assert_eq!(a.transform(&b), Err(OTError::TransformMismatch));
}

#[test]
fn transform_with_empty_delta_changes_nothing() {
    let mut a = Delta::new();
    a.insert("ab", plain());
    let (a2, b2) = a.transform(&Delta::new()).unwrap();
    assert_eq!(a2, a);
    assert_eq!(b2, Delta::new());
    let (e1, e2) = Delta::new().transform(&Delta::new()).unwrap();
    assert_eq!(e1, Delta::new());
    assert_eq!(e2, Delta::new());
}

#[test]
fn json_encoding_of_mixed_delta() {
    let mut d = Delta::new();
    d.retain(3, attrs(vec![("bold", AttributeValue::Bool(true))]));
    d.insert("hi", plain());
    d.delete(2);
    assert_eq!(d.to_json(), r#"[{"retain":3,"attributes":{"bold":true}},{"insert":"hi"},{"delete":2}]"#);
    assert_eq!(d.base_len, 5);
    assert_eq!(d.target_len, 5);
}

#[test]
fn json_encoding_escapes_and_values() {
    let mut d = Delta::new();
    d.insert(
        "a\"b\\\n\u{1}",
        attrs(vec![
            ("header", AttributeValue::Int(-12)),
            ("link", AttributeValue::Str("x\"y".to_string())),
            ("bold", AttributeValue::Null),
            ("italic", AttributeValue::Bool(false)),
        ]),
    );
    assert_eq!(
        d.to_json(),
        r#"[{"insert":"a\"b\\\n\u0001","attributes":{"header":-12,"link":"x\"y","bold":null,"italic":false}}]"#
    );
    assert_eq!(Delta::new().to_json(), "[]");
}

#[test]
fn conversions_build_plain_operations() {
    let r = Retain::from(5);
    assert_eq!(r.n, 5);
    assert!(r.is_plain());
    let op = Operation::Retain(Retain::from(5));
    assert_eq!(op.shrink(Interval::new(3, 10)), Some(Operation::Retain(Retain::from(2))));
    assert_eq!(op.shrink(Interval::new(5, 8)), None);
    let i = Insert::from("ab");
    assert_eq!(i.s, "ab");
    assert!(i.is_plain());
    assert_eq!(Insert::from("x".to_string()), Insert::new("x"));
    assert_eq!(Retain::new(3), Retain::from(3));
}

#[test]
fn setting_attributes_on_delete_is_misuse() {
    let mut d = Operation::delete(2);
    assert_eq!(d.try_set_attributes(attrs(vec![("bold", AttributeValue::Bool(true))])), Err(OTError::AttributeMisuse));
    assert_eq!(d, Operation::Delete(2));
    let mut i = Operation::insert("a", plain());
    assert_eq!(i.try_set_attributes(attrs(vec![("bold", AttributeValue::Bool(true))])), Ok(()));
    assert!(i.has_attribute());
}

#[test]
fn invert_against_document_restores_attributes() {
    let bold = attrs(vec![("bold", AttributeValue::Bool(true))]);
    let mut doc = Delta::new();
    doc.insert("ab", bold.clone());
    let mut a = Delta::new();
    a.retain(1, attrs(vec![("bold", AttributeValue::Null)]));
    a.delete(1);
    let inv = a.invert(&doc).unwrap();
    assert_eq!(inv.ops, vec![Operation::retain(1, bold.clone()), Operation::insert("b", bold.clone())]);
    let edited = doc.compose(&a).unwrap();
    assert_eq!(edited.ops, vec![Operation::insert("a", plain())]);
    let back = edited.compose(&inv).unwrap();
    assert_eq!(back, doc);
    assert_eq!(inv.apply(&a.apply("ab").unwrap()).unwrap(), "ab");
}

#[test]
fn invert_against_document_turns_inserts_into_deletes() {
    let mut doc = Delta::new();
    doc.insert("hello", plain());
    let mut a = Delta::new();
    a.delete(1);
    a.insert("H", plain());
    a.retain(4, plain());
    let inv = a.invert(&doc).unwrap();
    assert_eq!(inv.ops, vec![Operation::insert("h", plain()), Operation::Delete(1), Operation::retain(4, plain())]);
    assert_eq!(inv.apply(&a.apply("hello").unwrap()).unwrap(), "hello");
}
