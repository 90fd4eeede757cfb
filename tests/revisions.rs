use lib_ot::attributes::{AttributeValue, Attributes};
use lib_ot::delta::Delta;
use lib_ot::extensions::insert_edit;
use lib_ot::operation::Operation;
use lib_ot::sync::{PendingRev, RemoteAction, RevisionQueue};

#[test]
fn local_revisions_are_numbered_in_order() {
    let mut q = RevisionQueue::new(5);
    let a = q.record_local();
    let b = q.record_local();
    assert_eq!(a, PendingRev { base_rev_id: 5, rev_id: 6 });
    assert_eq!(b, PendingRev { base_rev_id: 6, rev_id: 7 });
    assert_eq!(q.rev_id, 7);
    assert_eq!(q.pending.len(), 2);
}

#[test]
fn ack_moves_earlier_revisions_out() {
    let mut q = RevisionQueue::new(5);
    q.record_local();
    q.record_local();
    q.record_local();
    let acked = q.ack(7);
    assert_eq!(acked, vec![PendingRev { base_rev_id: 5, rev_id: 6 }, PendingRev { base_rev_id: 6, rev_id: 7 }]);
    assert_eq!(q.pending, vec![PendingRev { base_rev_id: 7, rev_id: 8 }]);
    assert_eq!(q.acked_rev_id, 7);
    assert!(q.ack(3).is_empty());
    assert_eq!(q.ack(8).len(), 1);
    assert!(q.pending.is_empty());
}

#[test]
fn remote_revision_decisions() {
    let mut q = RevisionQueue::new(5);
    assert_eq!(q.on_remote(5, 6), RemoteAction::Compose);
    assert_eq!(q.on_remote(4, 5), RemoteAction::Ignore);
    assert_eq!(q.on_remote(7, 9), RemoteAction::RequestMissing { from: 6, to: 8 });
    q.record_local();
    assert_eq!(q.on_remote(5, 6), RemoteAction::TransformThenCompose);
}

#[test]
fn remote_applied_renumbers_pending_local() {
    let mut q = RevisionQueue::new(5);
    q.record_local();
    q.remote_applied();
    assert_eq!(q.acked_rev_id, 6);
    assert_eq!(q.rev_id, 7);
    assert_eq!(q.pending, vec![PendingRev { base_rev_id: 6, rev_id: 7 }]);
    let acked = q.ack(7);
    assert_eq!(acked, vec![PendingRev { base_rev_id: 6, rev_id: 7 }]);
}

#[test]
fn plain_keystroke_becomes_insertion() {
    let mut doc = Delta::new();
    doc.insert("abc\n", Attributes::new());
    let edit = insert_edit(&doc, 1, "X", 1);
    assert_eq!(edit.ops.len(), 3);
    assert_eq!(edit.ops[0], Operation::retain(1, Attributes::new()));
    assert_eq!(edit.ops[1], Operation::Delete(1));
    assert_eq!(edit.ops[2], Operation::insert("X", Attributes::new()));
    assert_eq!(edit.base_len, 2);
    assert_eq!(edit.apply("ab").unwrap(), "aX");
}

#[test]
fn enter_on_empty_list_line_exits_the_list() {
    let mut doc = Delta::new();
    doc.insert("a\n", Attributes::new());
    let mut list = Attributes::new();
    list.insert("list".to_string(), AttributeValue::Str("bullet".to_string()));
    doc.insert("\n", list);
    let edit = insert_edit(&doc, 0, "\n", 2);
    let mut removed = Attributes::new();
    removed.insert("list".to_string(), AttributeValue::Null);
    assert_eq!(edit.ops.len(), 2);
    assert_eq!(edit.ops[0], Operation::retain(2, Attributes::new()));
    match &edit.ops[1] {
        Operation::Retain(r) => {
            assert_eq!(r.n, 1);
            assert_eq!(r.attributes.inner[0].value, AttributeValue::Null);
        },
        _ => panic!("expected a retain"),
    }
}

#[test]
fn trim_drops_trailing_plain_retain() {
    let mut d = Delta::new();
    d.insert("a", Attributes::new());
    d.retain(3, Attributes::new());
    d.trim();
    assert_eq!(d.ops.len(), 1);
    assert_eq!(d.base_len, 0);
    assert_eq!(d.target_len, 1);
    let mut b = Attributes::new();
    b.insert("bold".to_string(), AttributeValue::Bool(true));
    d.retain(2, b);
    d.trim();
    assert_eq!(d.ops.len(), 2);
}

use lib_ot::document::{reconcile, Document};
use lib_ot::operation::Interval;
use lib_ot::sync::RemoteAction as Action;

fn text_doc(s: &str, rev: i64) -> Document {
    let mut d = Delta::new();
    d.insert(s, Attributes::new());
    Document::new(d, rev)
}

#[test]
fn document_edits_make_one_revision_each() {
    let mut doc = text_doc("hello\n", 0);
    let (_, r1) = doc.insert(5, "!", 0).unwrap();
    assert_eq!(doc.to_text(), "hello!\n");
    assert_eq!(r1, PendingRev { base_rev_id: 0, rev_id: 1 });
    let (_, r2) = doc.delete(Interval::new(0, 1)).unwrap();
    assert_eq!(doc.to_text(), "ello!\n");
    assert_eq!(r2.rev_id, 2);
    let mut bold = Attributes::new();
    bold.insert("bold".to_string(), AttributeValue::Bool(true));
    let (edit, r3) = doc.format(Interval::new(0, 2), bold.clone()).unwrap();
    assert_eq!(edit.ops[0], Operation::retain(2, bold.clone()));
    assert_eq!(r3.rev_id, 3);
    assert_eq!(doc.delta.ops[0], Operation::insert("el", bold));
    assert_eq!(doc.to_text(), "ello!\n");
    assert_eq!(doc.revisions.pending.len(), 3);
}

#[test]
fn document_rejects_edit_past_its_end() {
    let mut doc = text_doc("ab", 4);
    assert_eq!(doc.delete(Interval::new(1, 5)).unwrap_err(), lib_ot::delta::OTError::ComposeMismatch);
    assert_eq!(doc.to_text(), "ab");
    assert_eq!(doc.revisions.rev_id, 4);
}

#[test]
fn remote_revision_reconciled_with_pending_local() {
    let mut doc = text_doc("ab", 5);
    let mut local = Delta::new();
    local.insert("L", Attributes::new());
    local.retain(2, Attributes::new());
    let l = doc.apply_edit(&local).unwrap();
    assert_eq!(l, PendingRev { base_rev_id: 5, rev_id: 6 });
    let mut remote = Delta::new();
    remote.insert("R", Attributes::new());
    remote.retain(2, Attributes::new());
    assert_eq!(doc.revisions.on_remote(5, 6), Action::TransformThenCompose);
    let (remote2, local2) = remote.transform(&local).unwrap();
    doc.delta = doc.delta.compose(&remote2).unwrap();
    doc.revisions.remote_applied();
    assert_eq!(doc.to_text(), "RLab");
    assert_eq!(doc.revisions.acked_rev_id, 6);
    assert_eq!(doc.revisions.pending, vec![PendingRev { base_rev_id: 6, rev_id: 7 }]);
    let server = remote.compose(&local2).unwrap();
    assert_eq!(server.apply("ab").unwrap(), "RLab");
    let acked = doc.revisions.ack(7);
    assert_eq!(acked, vec![PendingRev { base_rev_id: 6, rev_id: 7 }]);
    assert!(doc.revisions.pending.is_empty());
}

#[test]
fn reconcile_sweeps_remote_past_pending_locals() {
    let mut doc = text_doc("ab", 5);
    let mut l1 = Delta::new();
    l1.insert("L", Attributes::new());
    l1.retain(2, Attributes::new());
    doc.apply_edit(&l1).unwrap();
    let mut l2 = Delta::new();
    l2.retain(3, Attributes::new());
    l2.insert("M", Attributes::new());
    doc.apply_edit(&l2).unwrap();
    assert_eq!(doc.to_text(), "LabM");
    let mut remote = Delta::new();
    remote.retain(1, Attributes::new());
    remote.insert("R", Attributes::new());
    remote.retain(1, Attributes::new());
    let mut locals = vec![l1, l2];
    let r2 = reconcile(remote, &mut locals).unwrap();
    doc.apply_remote(&r2).unwrap();
    assert_eq!(doc.to_text(), "LaRbM");
    assert_eq!(doc.revisions.acked_rev_id, 6);
    assert_eq!(doc.revisions.rev_id, 8);
    assert_eq!(locals[0].ops, vec![Operation::insert("L", Attributes::new())]);
    assert_eq!(locals[1].ops, vec![Operation::retain(4, Attributes::new()), Operation::insert("M", Attributes::new())]);
}

#[test]
fn reconcile_fails_on_mismatched_lengths() {
    let mut l = Delta::new();
    l.retain(2, Attributes::new());
    let mut remote = Delta::new();
    remote.retain(3, Attributes::new());
    let mut locals = vec![l];
    assert_eq!(reconcile(remote, &mut locals).unwrap_err(), lib_ot::delta::OTError::TransformMismatch);
    assert_eq!(locals[0].base_len, 2);
}
