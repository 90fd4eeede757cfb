//! A delta: an ordered sequence of operations with the lengths it expects and produces.
use vstd::prelude::*;
use vstd::string::{StrSliceExecFns, StringExecFns};
use crate::attributes::{restore_attrs, untouched_by, compose_attrs, same_entries, Attributes, ValueModel};
use crate::operation::{Insert, Operation, Retain};
use crate::text::{count_units_capped, is_newline, chars_within, count_utf16_code_units, unit_width, code_units, lemma_code_units_concat, sub_str, sub_units};

verus! {

pub type AttrsModel = Seq<(Seq<char>, ValueModel)>;

/// What an operation stands for.
pub enum OpModel {
    Delete(nat),
    Retain(nat, AttrsModel),
    Insert(Seq<char>, AttrsModel),
}

/// Errors of the delta algebra.
#[derive(Clone, Copy, Debug, PartialEq, Eq, Structural)]
pub enum OTError {
    ComposeMismatch,
    ApplyMismatch,
    TransformMismatch,
    AttributeMisuse,
}

impl Operation {
    pub open spec fn model(&self) -> OpModel {
        match self {
            Operation::Delete(n) => OpModel::Delete(*n as nat),
            Operation::Retain(r) => OpModel::Retain(r.n as nat, r.attributes@),
            Operation::Insert(i) => OpModel::Insert(i.s@, i.attributes@),
        }
    }

    /// Replaces the attributes of a retain or an insert; a delete carries none, so it is left
    /// as it is and `AttributeMisuse` comes back.
    pub fn try_set_attributes(&mut self, attributes: Attributes) -> (r: Result<(), OTError>)
        ensures
            *old(self) is Delete <==> r == Err::<(), OTError>(OTError::AttributeMisuse),
            *old(self) is Delete ==> *final(self) == *old(self),
            !(*old(self) is Delete) ==> final(self).model() == match old(self).model() {
                OpModel::Retain(n, _) => OpModel::Retain(n, attributes@),
                OpModel::Insert(t, _) => OpModel::Insert(t, attributes@),
                OpModel::Delete(n) => OpModel::Delete(n),
            },
    {
        if self.is_delete() {
            return Err(OTError::AttributeMisuse);
        }
        self.set_attributes(attributes);
        Ok(())
    }

    /// A copy that stands for the same operation.
    pub fn duplicate(&self) -> (r: Operation)
        ensures
            r.model() == self.model(),
            r.wf() == self.wf(),
    {
        match self {
            Operation::Delete(n) => Operation::Delete(*n),
            Operation::Retain(t) => Operation::Retain(Retain { n: t.n, attributes: t.attributes.duplicate() }),
            Operation::Insert(t) => Operation::Insert(Insert { s: t.s.clone(), attributes: t.attributes.duplicate() }),
        }
    }
}

/// Code units of the document that the operation consumes.
pub open spec fn op_base(o: OpModel) -> nat {
    match o {
        OpModel::Delete(n) => n,
        OpModel::Retain(n, _) => n,
        OpModel::Insert(_, _) => 0,
    }
}

/// Code units that the operation produces.
pub open spec fn op_target(o: OpModel) -> nat {
    match o {
        OpModel::Delete(_) => 0,
        OpModel::Retain(n, _) => n,
        OpModel::Insert(s, _) => code_units(s),
    }
}

pub open spec fn op_len(o: OpModel) -> nat {
    match o {
        OpModel::Delete(n) => n,
        OpModel::Retain(n, _) => n,
        OpModel::Insert(s, _) => code_units(s),
    }
}

pub open spec fn op_attrs(o: OpModel) -> AttrsModel {
    match o {
        OpModel::Delete(_) => Seq::empty(),
        OpModel::Retain(_, a) => a,
        OpModel::Insert(_, a) => a,
    }
}

pub open spec fn op_text(o: OpModel) -> Seq<char> {
    match o {
        OpModel::Insert(s, _) => s,
        _ => Seq::empty(),
    }
}

pub open spec fn base_of(s: Seq<OpModel>) -> nat
    decreases s.len(),
{
    if s.len() == 0 {
        0
    } else {
        base_of(s.drop_last()) + op_base(s.last())
    }
}

pub open spec fn target_of(s: Seq<OpModel>) -> nat
    decreases s.len(),
{
    if s.len() == 0 {
        0
    } else {
        target_of(s.drop_last()) + op_target(s.last())
    }
}

/// Whether `b` folds into a preceding `a`: same variant and the same attribute entries.
/// A tombstone counts: removing a key is not leaving it alone.
pub open spec fn mergeable(a: OpModel, b: OpModel) -> bool {
    match (a, b) {
        (OpModel::Delete(_), OpModel::Delete(_)) => true,
        (OpModel::Retain(_, x), OpModel::Retain(_, y)) => same_entries(y, x),
        (OpModel::Insert(_, x), OpModel::Insert(_, y)) => same_entries(y, x),
        _ => false,
    }
}

/// `a` extended by `b`; the attributes of `a` are kept.
pub open spec fn merged(a: OpModel, b: OpModel) -> OpModel {
    match (a, b) {
        (OpModel::Delete(m), OpModel::Delete(n)) => OpModel::Delete(m + n),
        (OpModel::Retain(m, x), OpModel::Retain(n, _)) => OpModel::Retain(m + n, x),
        (OpModel::Insert(s, x), OpModel::Insert(t, _)) => OpModel::Insert(s + t, x),
        _ => a,
    }
}

/// Appends `o` to `s` the way the builder does: empty operations are dropped and an
/// operation that matches the last one is folded into it.
pub open spec fn push_op(s: Seq<OpModel>, o: OpModel) -> Seq<OpModel> {
    if op_len(o) == 0 {
        s
    } else if s.len() > 0 && mergeable(s.last(), o) {
        s.drop_last().push(merged(s.last(), o))
    } else {
        s.push(o)
    }
}

/// Builds a delta from `s` one operation at a time.
pub open spec fn build(s: Seq<OpModel>) -> Seq<OpModel>
    decreases s.len(),
{
    if s.len() == 0 {
        s
    } else {
        push_op(build(s.drop_last()), s.last())
    }
}

pub proof fn lemma_push_lengths(s: Seq<OpModel>, o: OpModel)
    ensures
        base_of(s.push(o)) == base_of(s) + op_base(o),
        target_of(s.push(o)) == target_of(s) + op_target(o),
{
    assert(s.push(o).drop_last() =~= s);
}

pub proof fn lemma_push_op_lengths(s: Seq<OpModel>, o: OpModel)
    ensures
        base_of(push_op(s, o)) == base_of(s) + op_base(o),
        target_of(push_op(s, o)) == target_of(s) + op_target(o),
{
    if op_len(o) == 0 {
    } else if s.len() > 0 && mergeable(s.last(), o) {
        let p = s.drop_last();
        assert(p.push(s.last()) =~= s);
        lemma_push_lengths(p, s.last());
        lemma_push_lengths(p, merged(s.last(), o));
        if let (OpModel::Insert(a, _), OpModel::Insert(b, _)) = (s.last(), o) {
            lemma_code_units_concat(a, b);
        }
    } else {
        lemma_push_lengths(s, o);
    }
}

/// No empty operation, and no operation that would fold into the one before it.
pub open spec fn canonical(s: Seq<OpModel>) -> bool {
    &&& forall|i: int| 0 <= i < s.len() ==> op_len(#[trigger] s[i]) > 0
    &&& forall|i: int| 0 < i < s.len() ==> !mergeable(s[i - 1], #[trigger] s[i])
}

pub proof fn lemma_build_canonical(s: Seq<OpModel>)
    ensures
        canonical(build(s)),
    decreases s.len(),
{
    if s.len() > 0 {
        let c = build(s.drop_last());
        lemma_build_canonical(s.drop_last());
        let o = s.last();
        if op_len(o) == 0 {
        } else if c.len() > 0 && mergeable(c.last(), o) {
            let r = c.drop_last().push(merged(c.last(), o));
            assert forall|i: int| 0 < i < r.len() implies !mergeable(r[i - 1], #[trigger] r[i]) by {
                if i < r.len() - 1 {
                    assert(r[i] == c[i] && r[i - 1] == c[i - 1]);
                } else {
                    assert(r[i - 1] == c[i - 1]);
                    assert(!mergeable(c[i - 1], c[i]));
                }
            }
            assert forall|i: int| 0 <= i < r.len() implies op_len(#[trigger] r[i]) > 0 by {
                if i < r.len() - 1 {
                    assert(r[i] == c[i]);
                } else {
                    assert(op_len(c[i]) > 0);
                }
            }
        } else {
            let r = c.push(o);
            assert forall|i: int| 0 < i < r.len() implies !mergeable(r[i - 1], #[trigger] r[i]) by {
                if i < r.len() - 1 {
                    assert(r[i] == c[i] && r[i - 1] == c[i - 1]);
                }
            }
            assert forall|i: int| 0 <= i < r.len() implies op_len(#[trigger] r[i]) > 0 by {
                if i < r.len() - 1 {
                    assert(r[i] == c[i]);
                }
            }
        }
    }
}

pub proof fn lemma_build_canonical_fixed(s: Seq<OpModel>)
    requires
        canonical(s),
    ensures
        build(s) == s,
    decreases s.len(),
{
    if s.len() > 0 {
        let p = s.drop_last();
        assert forall|i: int| 0 < i < p.len() implies !mergeable(p[i - 1], #[trigger] p[i]) by {
            assert(p[i] == s[i] && p[i - 1] == s[i - 1]);
        }
        assert forall|i: int| 0 <= i < p.len() implies op_len(#[trigger] p[i]) > 0 by {
            assert(p[i] == s[i]);
        }
        lemma_build_canonical_fixed(p);
        assert(op_len(s[s.len() - 1]) > 0);
        if p.len() > 0 {
            assert(!mergeable(s[s.len() - 2], s[s.len() - 1]));
        }
        assert(p.push(s.last()) =~= s);
    }
}

/// Building a delta and building the result again gives the same operations.
pub proof fn lemma_build_idempotent(s: Seq<OpModel>)
    ensures
        build(build(s)) == build(s),
{
    lemma_build_canonical(s);
    lemma_build_canonical_fixed(build(s));
}

/// The document that `s` produces from `doc`, reading `doc` from code unit `pos` on.
pub open spec fn apply_at(s: Seq<OpModel>, doc: Seq<char>, pos: int) -> Seq<char>
    decreases s.len(),
{
    if s.len() == 0 {
        Seq::empty()
    } else {
        match s[0] {
            OpModel::Retain(n, _) => sub_units(doc, pos, pos + n) + apply_at(s.drop_first(), doc, pos + n),
            OpModel::Insert(t, _) => t + apply_at(s.drop_first(), doc, pos),
            OpModel::Delete(n) => apply_at(s.drop_first(), doc, pos + n),
        }
    }
}

/// The document that `s` produces from `doc`.
pub open spec fn apply_model(s: Seq<OpModel>, doc: Seq<char>) -> Seq<char> {
    apply_at(s, doc, 0)
}

/// Every character of `s` takes one code unit.
pub open spec fn single_units(s: Seq<char>) -> bool {
    forall|i: int| 0 <= i < s.len() ==> unit_width(#[trigger] s[i]) == 1
}

pub proof fn lemma_lengths_front(s: Seq<OpModel>)
    requires
        s.len() > 0,
    ensures
        base_of(s) == op_base(s[0]) + base_of(s.drop_first()),
        target_of(s) == op_target(s[0]) + target_of(s.drop_first()),
    decreases s.len(),
{
    if s.len() > 1 {
        lemma_lengths_front(s.drop_last());
        assert(s.drop_first().drop_last() =~= s.drop_last().drop_first());
        assert(s.drop_last()[0] == s[0]);
        assert(s.drop_first().last() == s.last());
        assert(base_of(s.drop_first()) == base_of(s.drop_first().drop_last()) + op_base(s.drop_first().last()));
        assert(target_of(s.drop_first()) == target_of(s.drop_first().drop_last()) + op_target(s.drop_first().last()));
    } else {
        assert(s.drop_last().len() == 0);
        assert(s.drop_first().len() == 0);
        assert(s.last() == s[0]);
        assert(base_of(s.drop_first()) == 0);
        assert(target_of(s.drop_first()) == 0);
        assert(base_of(s.drop_last()) == 0);
        assert(target_of(s.drop_last()) == 0);
    }
}

pub proof fn lemma_base_prefix(s: Seq<OpModel>, i: int)
    requires
        0 <= i < s.len(),
    ensures
        base_of(s.take(i + 1)) == base_of(s.take(i)) + op_base(s[i]),
        target_of(s.take(i + 1)) == target_of(s.take(i)) + op_target(s[i]),
        base_of(s.take(i + 1)) <= base_of(s),
{
    assert(s.take(i + 1).drop_last() =~= s.take(i));
    lemma_base_prefix_le(s, i + 1);
}

pub proof fn lemma_base_prefix_le(s: Seq<OpModel>, i: int)
    requires
        0 <= i <= s.len(),
    ensures
        base_of(s.take(i)) <= base_of(s),
    decreases s.len() - i,
{
    if i < s.len() {
        assert(s.take(i + 1).drop_last() =~= s.take(i));
        lemma_base_prefix_le(s, i + 1);
    } else {
        assert(s.take(i) =~= s);
    }
}

pub proof fn lemma_single_units(s: Seq<char>)
    requires
        single_units(s),
    ensures
        code_units(s) == s.len(),
        forall|u: int| 0 <= u ==> #[trigger] chars_within(s, u) == if u <= s.len() { u } else { s.len() as int },
    decreases s.len(),
{
    if s.len() > 0 {
        assert(unit_width(s[0]) == 1);
        assert(single_units(s.drop_first())) by {
            assert forall|i: int| 0 <= i < s.drop_first().len() implies unit_width(#[trigger] s.drop_first()[i]) == 1 by {
                assert(s.drop_first()[i] == s[i + 1]);
            }
        }
        lemma_single_units(s.drop_first());
        assert forall|u: int| 0 <= u implies #[trigger] chars_within(s, u) == if u <= s.len() { u } else { s.len() as int } by {
            if u >= 1 {
                assert(chars_within(s, u) == 1 + chars_within(s.drop_first(), u - 1));
            }
        }
    }
}

/// The produced document has the delta's target length, for a document of the
/// delta's base length whose characters each take one code unit.
pub proof fn lemma_apply_length(s: Seq<OpModel>, doc: Seq<char>)
    requires
        single_units(doc),
        code_units(doc) == base_of(s),
    ensures
        code_units(apply_model(s, doc)) == target_of(s),
{
    lemma_single_units(doc);
    lemma_apply_at_length(s, doc, 0);
}

pub proof fn lemma_apply_at_length(s: Seq<OpModel>, doc: Seq<char>, pos: int)
    requires
        single_units(doc),
        0 <= pos,
        pos + base_of(s) == doc.len(),
    ensures
        code_units(apply_at(s, doc, pos)) == target_of(s),
    decreases s.len(),
{
    lemma_single_units(doc);
    if s.len() > 0 {
        lemma_lengths_front(s);
        let rest = s.drop_first();
        match s[0] {
            OpModel::Retain(n, _) => {
                lemma_apply_at_length(rest, doc, pos + n);
                let piece = sub_units(doc, pos, pos + n);
                assert(chars_within(doc, pos) == pos);
                assert(chars_within(doc, pos + n) == pos + n);
                assert(single_units(piece)) by {
                    assert forall|i: int| 0 <= i < piece.len() implies unit_width(#[trigger] piece[i]) == 1 by {
                        assert(piece[i] == doc[pos + i]);
                    }
                }
                lemma_single_units(piece);
                lemma_code_units_concat(piece, apply_at(rest, doc, pos + n));
            },
            OpModel::Insert(t, _) => {
                lemma_apply_at_length(rest, doc, pos);
                lemma_code_units_concat(t, apply_at(rest, doc, pos));
            },
            OpModel::Delete(n) => {
                lemma_apply_at_length(rest, doc, pos + n);
            },
        }
    }
}

/// The operation at position `k` or later that covers code unit `index`, counting
/// `index` from the start of operation `k`; with the offset of `index` within it.
pub open spec fn op_at_from(s: Seq<OpModel>, index: int, k: int) -> Option<(int, int)>
    decreases s.len() - k,
{
    if k < 0 || k >= s.len() {
        None
    } else if index < op_len(s[k]) {
        Some((k, index))
    } else {
        op_at_from(s, index - op_len(s[k]), k + 1)
    }
}

/// The operation that covers code unit `index`, with the offset of `index` within it.
pub open spec fn op_at(s: Seq<OpModel>, index: int) -> Option<(int, int)> {
    op_at_from(s, index, 0)
}

/// The first operation at position `k` or later whose text holds a line break.
pub open spec fn newline_op_from(s: Seq<OpModel>, k: int) -> Option<int>
    decreases s.len() - k,
{
    if k < 0 || k >= s.len() {
        None
    } else if op_text(s[k]).contains('\n') {
        Some(k)
    } else {
        newline_op_from(s, k + 1)
    }
}

/// The document text: all inserted text in order.
pub open spec fn text_of(s: Seq<OpModel>) -> Seq<char>
    decreases s.len(),
{
    if s.len() == 0 {
        Seq::empty()
    } else {
        text_of(s.drop_last()) + op_text(s.last())
    }
}

/// The line at `index` holds nothing before `index`: it is the document's start or follows a line break.
pub open spec fn empty_line_at(s: Seq<OpModel>, index: int) -> bool {
    index == 0 || sub_units(text_of(s), index - 1, index) == seq!['\n']
}

/// The inverse of `s` against the plain text `doc`, read from code unit `pos` on:
/// retains stay and mark the keys they set as removed, since plain text has no attributes;
/// inserts become deletes; deletes become inserts of the removed text.
pub open spec fn invert_at(s: Seq<OpModel>, doc: Seq<char>, pos: int) -> Seq<OpModel>
    decreases s.len(),
{
    if s.len() == 0 {
        Seq::empty()
    } else {
        match s[0] {
            OpModel::Retain(n, al) => seq![OpModel::Retain(n, restore_attrs(al, Seq::empty()))] + invert_at(s.drop_first(), doc, pos + n),
            OpModel::Insert(t, _) => seq![OpModel::Delete(code_units(t))] + invert_at(s.drop_first(), doc, pos),
            OpModel::Delete(n) => seq![OpModel::Insert(sub_units(doc, pos, pos + n), Seq::empty())] + invert_at(
                s.drop_first(),
                doc,
                pos + n,
            ),
        }
    }
}

/// The inverse of `s` against its base text `doc`.
pub open spec fn invert_model(s: Seq<OpModel>, doc: Seq<char>) -> Seq<OpModel> {
    invert_at(s, doc, 0)
}

pub proof fn lemma_concat_lengths(x: Seq<OpModel>, y: Seq<OpModel>)
    ensures
        base_of(x + y) == base_of(x) + base_of(y),
        target_of(x + y) == target_of(x) + target_of(y),
    decreases y.len(),
{
    if y.len() == 0 {
        assert(x + y =~= x);
    } else {
        assert((x + y).drop_last() =~= x + y.drop_last());
        lemma_concat_lengths(x, y.drop_last());
    }
}

pub proof fn lemma_target_prefix_le(s: Seq<OpModel>, i: int)
    requires
        0 <= i <= s.len(),
    ensures
        target_of(s.take(i)) <= target_of(s),
{
    lemma_concat_lengths(s.take(i), s.skip(i));
    assert(s.take(i) + s.skip(i) =~= s);
}

pub proof fn lemma_chars_within_zero(z: Seq<char>)
    ensures
        chars_within(z, 0) == 0,
{
    if z.len() > 0 {
        assert(unit_width(z[0]) >= 1);
    }
}

pub proof fn lemma_chars_within_prefix(p: Seq<char>, z: Seq<char>, u: int)
    requires
        0 <= u,
    ensures
        chars_within(p + z, code_units(p) + u) == p.len() + chars_within(z, u),
    decreases p.len(),
{
    if p.len() == 0 {
        assert(p + z =~= z);
    } else {
        assert((p + z).drop_first() =~= p.drop_first() + z);
        assert((p + z)[0] == p[0]);
        lemma_chars_within_prefix(p.drop_first(), z, u);
    }
}

proof fn lemma_invert_at(a: Seq<OpModel>, d: Seq<char>, p: int, pre: Seq<char>)
    requires
        single_units(d),
        0 <= p,
        p + base_of(a) == d.len(),
    ensures
        apply_at(invert_at(a, d, p), pre + apply_at(a, d, p), code_units(pre) as int) == d.subrange(p, d.len() as int),
    decreases a.len(),
{
    lemma_single_units(d);
    let e = pre + apply_at(a, d, p);
    let q = code_units(pre) as int;
    if a.len() == 0 {
        assert(d.subrange(p, d.len() as int) =~= Seq::<char>::empty());
    } else {
        lemma_lengths_front(a);
        let rest = a.drop_first();
        match a[0] {
            OpModel::Retain(n, al) => {
                let x = sub_units(d, p, p + n);
                let r = apply_at(rest, d, p + n);
                let tail = invert_at(rest, d, p + n);
                let inv = seq![OpModel::Retain(n, restore_attrs(al, Seq::empty()))] + tail;
                assert(inv[0] == OpModel::Retain(n, restore_attrs(al, Seq::empty())));
                assert(inv.drop_first() =~= tail);
                assert(x =~= d.subrange(p, p + n));
                assert(single_units(x)) by {
                    assert forall|i: int| 0 <= i < x.len() implies unit_width(#[trigger] x[i]) == 1 by {
                        assert(x[i] == d[p + i]);
                    }
                }
                lemma_single_units(x);
                assert(e =~= pre + (x + r));
                lemma_chars_within_zero(x + r);
                lemma_chars_within_prefix(pre, x + r, 0);
                lemma_chars_within_prefix(pre, x + r, n as int);
                lemma_chars_within_zero(r);
                lemma_chars_within_prefix(x, r, 0);
                assert(sub_units(e, q, q + n) =~= x);
                lemma_code_units_concat(pre, x);
                assert(e =~= (pre + x) + r);
                lemma_invert_at(rest, d, p + n, pre + x);
                assert(x + d.subrange(p + n, d.len() as int) =~= d.subrange(p, d.len() as int));
            },
            OpModel::Insert(t, _) => {
                let r = apply_at(rest, d, p);
                let tail = invert_at(rest, d, p);
                let inv = seq![OpModel::Delete(code_units(t))] + tail;
                assert(inv[0] == OpModel::Delete(code_units(t)));
                assert(inv.drop_first() =~= tail);
                lemma_code_units_concat(pre, t);
                assert(e =~= (pre + t) + r);
                lemma_invert_at(rest, d, p, pre + t);
            },
            OpModel::Delete(n) => {
                let x = sub_units(d, p, p + n);
                let tail = invert_at(rest, d, p + n);
                let inv = seq![OpModel::Insert(x, Seq::empty())] + tail;
                assert(inv[0] == OpModel::Insert(x, Seq::<(Seq<char>, ValueModel)>::empty()));
                assert(inv.drop_first() =~= tail);
                assert(x =~= d.subrange(p, p + n));
                lemma_invert_at(rest, d, p + n, pre);
                assert(x + d.subrange(p + n, d.len() as int) =~= d.subrange(p, d.len() as int));
            },
        }
    }
}

/// Undo: running a delta and then its inverse against the same base text gives the
/// base text back, for a text whose characters each take one code unit.
pub proof fn lemma_invert_undoes(a: Seq<OpModel>, d: Seq<char>)
    requires
        single_units(d),
        code_units(d) == base_of(a),
    ensures
        apply_model(invert_model(a, d), apply_model(a, d)) == d,
{
    lemma_single_units(d);
    let pre = Seq::<char>::empty();
    assert(pre + apply_at(a, d, 0) =~= apply_at(a, d, 0));
    assert(code_units(pre) == 0);
    lemma_invert_at(a, d, 0, pre);
    assert(d.subrange(0, d.len() as int) =~= d);
}

/// What is left of `o` once its first `k` code units are consumed.
pub open spec fn tail_of(o: OpModel, k: nat) -> OpModel {
    match o {
        OpModel::Delete(n) => OpModel::Delete((n - k) as nat),
        OpModel::Retain(n, a) => OpModel::Retain((n - k) as nat, a),
        OpModel::Insert(s, a) => OpModel::Insert(sub_units(s, k as int, code_units(s) as int), a),
    }
}

/// What one step of composition emits when `k` code units of `o` (a retain or an
/// insert of the first delta) meet `k` code units of `p` (a retain or a delete of the second).
pub open spec fn emitted(o: OpModel, p: OpModel, k: nat) -> Seq<OpModel> {
    match (o, p) {
        (OpModel::Retain(_, a), OpModel::Retain(_, b)) => seq![OpModel::Retain(k, compose_attrs(a, b))],
        (OpModel::Retain(_, _), _) => seq![OpModel::Delete(k)],
        (OpModel::Insert(s, a), OpModel::Retain(_, b)) => seq![OpModel::Insert(sub_units(s, 0, k as int), compose_attrs(a, b))],
        _ => Seq::empty(),
    }
}

/// `x` followed by `y`, one step at a time: deletes of `x` and inserts of `y` pass through;
/// otherwise both heads are consumed by the shorter one's length, an insert of `x` met by a
/// delete of `y` cancels, and attributes compose.
pub open spec fn compose_rec(x: Seq<OpModel>, y: Seq<OpModel>) -> Seq<OpModel>
    decreases x.len() + y.len(),
{
    if x.len() == 0 {
        y
    } else if y.len() == 0 {
        x
    } else if op_len(x[0]) == 0 {
        compose_rec(x.drop_first(), y)
    } else if op_len(y[0]) == 0 {
        compose_rec(x, y.drop_first())
    } else if x[0] is Delete {
        seq![x[0]] + compose_rec(x.drop_first(), y)
    } else if y[0] is Insert {
        seq![y[0]] + compose_rec(x, y.drop_first())
    } else {
        let k = if op_len(x[0]) < op_len(y[0]) { op_len(x[0]) } else { op_len(y[0]) };
        let xr = if op_len(x[0]) > k { seq![tail_of(x[0], k)] + x.drop_first() } else { x.drop_first() };
        let yr = if op_len(y[0]) > k { seq![tail_of(y[0], k)] + y.drop_first() } else { y.drop_first() };
        emitted(x[0], y[0], k) + compose_rec(xr, yr)
    }
}

/// The composition of `a` and `b`, built.
pub open spec fn compose_model(a: Seq<OpModel>, b: Seq<OpModel>) -> Seq<OpModel> {
    build(compose_rec(a, b))
}

pub proof fn lemma_build_lengths(s: Seq<OpModel>)
    ensures
        base_of(build(s)) == base_of(s),
        target_of(build(s)) == target_of(s),
    decreases s.len(),
{
    if s.len() > 0 {
        lemma_build_lengths(s.drop_last());
        lemma_push_op_lengths(build(s.drop_last()), s.last());
    }
}

pub open spec fn head_seq(h: Option<Operation>) -> Seq<OpModel> {
    match h {
        Some(o) => seq![o.model()],
        None => Seq::empty(),
    }
}

/// Two concurrent deltas `x` and `y` made on the same document, rewritten to run after each
/// other: the first result runs after `y`, the second after `x`. At the same position the
/// inserts of `x` come first; where both format the same text, the attributes of `x` win.
pub open spec fn transform_rec(x: Seq<OpModel>, y: Seq<OpModel>) -> (Seq<OpModel>, Seq<OpModel>)
    decreases x.len() + y.len(),
{
    if x.len() == 0 && y.len() == 0 {
        (Seq::empty(), Seq::empty())
    } else if x.len() > 0 && op_len(x[0]) == 0 {
        transform_rec(x.drop_first(), y)
    } else if y.len() > 0 && op_len(y[0]) == 0 {
        transform_rec(x, y.drop_first())
    } else if x.len() > 0 && x[0] is Insert {
        let r = transform_rec(x.drop_first(), y);
        (seq![x[0]] + r.0, seq![OpModel::Retain(op_len(x[0]), Seq::empty())] + r.1)
    } else if y.len() > 0 && y[0] is Insert {
        let r = transform_rec(x, y.drop_first());
        (seq![OpModel::Retain(op_len(y[0]), Seq::empty())] + r.0, seq![y[0]] + r.1)
    } else if x.len() == 0 {
        transform_rec(x, y.drop_first())
    } else if y.len() == 0 {
        transform_rec(x.drop_first(), y)
    } else {
        let k = if op_len(x[0]) < op_len(y[0]) { op_len(x[0]) } else { op_len(y[0]) };
        let xr = if op_len(x[0]) > k { seq![tail_of(x[0], k)] + x.drop_first() } else { x.drop_first() };
        let yr = if op_len(y[0]) > k { seq![tail_of(y[0], k)] + y.drop_first() } else { y.drop_first() };
        let r = transform_rec(xr, yr);
        let e = transformed(x[0], y[0], k);
        (e.0 + r.0, e.1 + r.1)
    }
}

/// What `k` code units of a retain or delete of each side give to each result.
pub open spec fn transformed(o: OpModel, p: OpModel, k: nat) -> (Seq<OpModel>, Seq<OpModel>) {
    match (o, p) {
        (OpModel::Retain(_, a), OpModel::Retain(_, b)) => (
            seq![OpModel::Retain(k, a)],
            seq![OpModel::Retain(k, untouched_by(b, a))],
        ),
        (OpModel::Delete(_), OpModel::Retain(_, _)) => (seq![OpModel::Delete(k)], Seq::empty()),
        (OpModel::Retain(_, _), OpModel::Delete(_)) => (Seq::empty(), seq![OpModel::Delete(k)]),
        _ => (Seq::empty(), Seq::empty()),
    }
}

/// `s` without a trailing retain that carries no attributes.
pub open spec fn trimmed(s: Seq<OpModel>) -> Seq<OpModel> {
    if s.len() > 0 && (s.last() matches OpModel::Retain(_, a) && a.len() == 0) {
        s.drop_last()
    } else {
        s
    }
}

/// The two transformed deltas, built.
pub open spec fn transform_model(a: Seq<OpModel>, b: Seq<OpModel>) -> (Seq<OpModel>, Seq<OpModel>) {
    (build(transform_rec(a, b).0), build(transform_rec(a, b).1))
}

/// A document: only inserts.
pub open spec fn all_inserts(s: Seq<OpModel>) -> bool {
    forall|i: int| 0 <= i < s.len() ==> #[trigger] s[i] is Insert
}

/// The part of the document operation `o`, which starts at code unit `start`, that falls in
/// `[lo, hi)`: with `keep` given, a retain restoring `o`'s attributes for the keys of `keep`;
/// without, an insert of that text with `o`'s attributes.
pub open spec fn doc_piece(o: OpModel, start: int, lo: int, hi: int, keep: Option<AttrsModel>) -> Seq<OpModel> {
    let a = if lo > start { lo } else { start };
    let b = if hi < start + op_len(o) { hi } else { start + op_len(o) };
    if b > a {
        match keep {
            Some(al) => seq![OpModel::Retain((b - a) as nat, restore_attrs(al, op_attrs(o)))],
            None => seq![OpModel::Insert(sub_units(op_text(o), a - start, b - start), op_attrs(o))],
        }
    } else {
        Seq::empty()
    }
}

/// The pieces of the document operations `doc`, the first starting at `start`, in `[lo, hi)`.
pub open spec fn doc_pieces(doc: Seq<OpModel>, start: int, lo: int, hi: int, keep: Option<AttrsModel>) -> Seq<OpModel>
    decreases doc.len(),
{
    if doc.len() == 0 {
        Seq::empty()
    } else {
        doc_piece(doc[0], start, lo, hi, keep) + doc_pieces(doc.drop_first(), start + op_len(doc[0]), lo, hi, keep)
    }
}

/// The inverse of `s` against the document `doc`, reading it from code unit `pos` on:
/// inserts become deletes, deletes put back the removed text with its attributes, and a
/// formatting retain puts back the attributes the document had there.
pub open spec fn invert_doc_at(s: Seq<OpModel>, doc: Seq<OpModel>, pos: int) -> Seq<OpModel>
    decreases s.len(),
{
    if s.len() == 0 {
        Seq::empty()
    } else {
        match s[0] {
            OpModel::Retain(n, al) => (if al.len() == 0 {
                seq![OpModel::Retain(n, Seq::empty())]
            } else {
                doc_pieces(doc, 0, pos, pos + n, Some(al))
            }) + invert_doc_at(s.drop_first(), doc, pos + n),
            OpModel::Insert(t, _) => seq![OpModel::Delete(code_units(t))] + invert_doc_at(s.drop_first(), doc, pos),
            OpModel::Delete(n) => doc_pieces(doc, 0, pos, pos + n, None) + invert_doc_at(s.drop_first(), doc, pos + n),
        }
    }
}

/// An ordered sequence of operations with the document lengths it expects and produces.
#[derive(Debug, PartialEq, Eq)]
pub struct Delta {
    pub ops: Vec<Operation>,
    pub base_len: usize,
    pub target_len: usize,
}

impl View for Delta {
    type V = Seq<OpModel>;

    open spec fn view(&self) -> Seq<OpModel> {
        self.ops@.map_values(|o: Operation| o.model())
    }
}

impl Delta {
    /// Each operation is well formed and the cached lengths are those of the operations.
    pub open spec fn wf(&self) -> bool {
        &&& forall|i: int| 0 <= i < self.ops@.len() ==> (#[trigger] self.ops@[i]).wf()
        &&& self.base_len == base_of(self@)
        &&& self.target_len == target_of(self@)
    }

    pub fn new() -> (r: Delta)
        ensures
            r.wf(),
            r@ == Seq::<OpModel>::empty(),
    {
        let r = Delta { ops: Vec::new(), base_len: 0, target_len: 0 };
        proof {
            assert(r@ =~= Seq::<OpModel>::empty());
        }
        r
    }

    /// Appends `op`, folding it into the last operation where they match.
    pub fn add(&mut self, op: Operation)
        requires
            old(self).wf(),
            op.wf(),
            old(self).base_len + op_base(op.model()) <= usize::MAX,
            old(self).target_len + op_target(op.model()) <= usize::MAX,
        ensures
            final(self).wf(),
            final(self)@ == push_op(old(self)@, op.model()),
    {
        proof {
            lemma_push_op_lengths(self@, op.model());
        }
        if op.is_empty() {
            return;
        }
        let op_b = op_base_len(&op);
        let op_t = op_target_len(&op);
        let ghost before = self@;
        let ghost before_ops = self.ops@;
        let n = self.ops.len();
        if n == 0 {
            self.ops.push(op);
            self.base_len = self.base_len + op_b;
            self.target_len = self.target_len + op_t;
            proof {
                assert(self@ =~= before.push(op.model()));
                assert forall|i: int| 0 <= i < self.ops@.len() implies (#[trigger] self.ops@[i]).wf() by {
                    if i < n {
                        assert(self.ops@[i] == before_ops[i]);
                    }
                }
            }
            return;
        }
        let last = self.ops.pop().unwrap();
        proof {
            assert(self.ops@ =~= before_ops.drop_last());
            assert(self@ =~= before.drop_last());
            assert(before.last() == last.model());
            assert(before_ops[n - 1] == last);
            lemma_push_lengths(before.drop_last(), last.model());
            assert(before.drop_last().push(last.model()) =~= before);
        }
        let ghost prefix_ops = self.ops@;
        match (last, op) {
            (Operation::Delete(a), Operation::Delete(b)) => {
                self.ops.push(Operation::Delete(a + b));
            },
            (Operation::Retain(mut r), Operation::Retain(t)) => {
                match r.merge_or_new(t.n, t.attributes) {
                    None => {
                        self.ops.push(Operation::Retain(r));
                    },
                    Some(o) => {
                        self.ops.push(Operation::Retain(r));
                        self.ops.push(o);
                    },
                }
            },
            (Operation::Insert(mut i), Operation::Insert(t)) => {
                proof {
                    lemma_code_units_concat(i.s@, t.s@);
                }
                match i.merge_or_new_op(t.s.as_str(), t.attributes) {
                    None => {
                        self.ops.push(Operation::Insert(i));
                    },
                    Some(o) => {
                        self.ops.push(Operation::Insert(i));
                        self.ops.push(o);
                    },
                }
            },
            (l, o) => {
                self.ops.push(l);
                self.ops.push(o);
            },
        }
        self.base_len = self.base_len + op_b;
        self.target_len = self.target_len + op_t;
        proof {
            assert forall|i: int| 0 <= i < self.ops@.len() implies (#[trigger] self.ops@[i]).wf() by {
                if i < n - 1 {
                    assert(self.ops@[i] == prefix_ops[i]);
                    assert(prefix_ops[i] == before_ops[i]);
                }
            }
            if self.ops@.len() == n {
                assert(self@ =~= before.drop_last().push(merged(before.last(), op.model())));
            } else {
                assert(self@ =~= before.drop_last().push(before.last()).push(op.model()));
            }
        }
    }

    /// Drops a trailing retain that carries no attributes: it changes nothing.
    pub fn trim(&mut self)
        requires
            old(self).wf(),
        ensures
            final(self).wf(),
            final(self)@ == trimmed(old(self)@),
    {
        let n = self.ops.len();
        if n == 0 {
            return;
        }
        let plain_retain = match &self.ops[n - 1] {
            Operation::Retain(r) => r.is_plain(),
            _ => false,
        };
        if plain_retain {
            let ghost before = self@;
            let ghost before_ops = self.ops@;
            let last = self.ops.pop().unwrap();
            proof {
                assert(before.last() == last.model());
                lemma_push_lengths(before.drop_last(), last.model());
                assert(before.drop_last().push(last.model()) =~= before);
                assert(self@ =~= before.drop_last());
                assert forall|i: int| 0 <= i < self.ops@.len() implies (#[trigger] self.ops@[i]).wf() by {
                    assert(self.ops@[i] == before_ops[i]);
                }
            }
            let m = op_base_len(&last);
            self.base_len = self.base_len - m;
            self.target_len = self.target_len - m;
        }
    }

    /// Appends a retain of `n` code units carrying `attributes`.
    pub fn retain(&mut self, n: usize, attributes: Attributes)
        requires
            old(self).wf(),
            old(self).base_len + n <= usize::MAX,
            old(self).target_len + n <= usize::MAX,
        ensures
            final(self).wf(),
            final(self)@ == push_op(old(self)@, OpModel::Retain(n as nat, attributes@)),
    {
        self.add(Operation::Retain(Retain { n, attributes }));
    }

    /// Appends an insert of `s` carrying `attributes`.
    pub fn insert(&mut self, s: &str, attributes: Attributes)
        requires
            old(self).wf(),
            old(self).target_len + code_units(s@) <= usize::MAX,
        ensures
            final(self).wf(),
            final(self)@ == push_op(old(self)@, OpModel::Insert(s@, attributes@)),
    {
        self.add(Operation::Insert(Insert { s: s.to_owned(), attributes }));
    }

    /// Appends a delete of `n` code units.
    pub fn delete(&mut self, n: usize)
        requires
            old(self).wf(),
            old(self).base_len + n <= usize::MAX,
        ensures
            final(self).wf(),
            final(self)@ == push_op(old(self)@, OpModel::Delete(n as nat)),
    {
        self.add(Operation::Delete(n));
    }

    /// Runs the delta on `doc`.
    pub fn apply(&self, doc: &str) -> (r: Result<String, OTError>)
        requires
            self.wf(),
            code_units(doc@) <= usize::MAX,
        ensures
            code_units(doc@) != self.base_len ==> r == Err::<String, OTError>(OTError::ApplyMismatch),
            code_units(doc@) == self.base_len ==> (r matches Ok(out) && out@ == apply_model(self@, doc@)),
    {
        let doc_len = count_utf16_code_units(doc);
        if doc_len != self.base_len {
            return Err(OTError::ApplyMismatch);
        }
        let mut out = String::new();
        let mut pos: usize = 0;
        let mut i: usize = 0;
        let n = self.ops.len();
        proof {
            assert(self@.skip(0) =~= self@);
            assert(self@.take(0).len() == 0);
            assert(out@ + apply_at(self@, doc@, 0) =~= apply_at(self@, doc@, 0));
        }
        while i < n
            invariant
                self.wf(),
                n == self.ops@.len(),
                i <= n,
                pos == base_of(self@.take(i as int)),
                apply_at(self@, doc@, 0) == out@ + apply_at(self@.skip(i as int), doc@, pos as int),
            decreases n - i,
        {
            proof {
                lemma_base_prefix(self@, i as int);
                assert(self@.skip(i as int).drop_first() =~= self@.skip(i + 1));
                assert(self@.skip(i as int)[0] == self@[i as int]);
                assert(self@[i as int] == self.ops@[i as int].model());
            }
            let ghost prev = out@;
            match &self.ops[i] {
                Operation::Retain(r) => {
                    let piece = sub_str(doc, pos, pos + r.n);
                    out.append(piece.as_str());
                    pos = pos + r.n;
                    proof {
                        assert(prev + (piece@ + apply_at(self@.skip(i + 1), doc@, pos as int)) =~= out@ + apply_at(self@.skip(i + 1), doc@, pos as int));
                    }
                },
                Operation::Insert(t) => {
                    out.append(t.s.as_str());
                    proof {
                        assert(prev + (t.s@ + apply_at(self@.skip(i + 1), doc@, pos as int)) =~= out@ + apply_at(self@.skip(i + 1), doc@, pos as int));
                    }
                },
                Operation::Delete(d) => {
                    pos = pos + *d;
                },
            }
            i = i + 1;
        }
        proof {
            assert(self@.skip(n as int).len() == 0);
            assert(out@ + Seq::<char>::empty() =~= out@);
        }
        Ok(out)
    }

    /// The operation that covers code unit `index`, with the offset of `index` within it.
    pub fn op_at(&self, index: usize) -> (r: Option<(usize, usize)>)
        requires
            self.wf(),
        ensures
            match r {
                Some((k, off)) => op_at(self@, index as int) == Some((k as int, off as int)) && k
                    < self@.len() && off < op_len(self@[k as int]),
                None => op_at(self@, index as int) is None,
            },
    {
        let n = self.ops.len();
        let mut i: usize = 0;
        let mut rem: usize = index;
        while i < n
            invariant
                self.wf(),
                n == self.ops@.len(),
                i <= n,
                op_at(self@, index as int) == op_at_from(self@, rem as int, i as int),
            decreases n - i,
        {
            proof {
                assert(self@[i as int] == self.ops@[i as int].model());
            }
            let len = self.ops[i].len();
            if rem < len {
                return Some((i, rem));
            }
            rem = rem - len;
            i = i + 1;
        }
        None
    }

    /// The first operation at position `k` or later whose text holds a line break.
    pub fn newline_op_from(&self, k: usize) -> (r: Option<usize>)
        ensures
            match r {
                Some(j) => newline_op_from(self@, k as int) == Some(j as int) && j < self@.len(),
                None => newline_op_from(self@, k as int) is None,
            },
    {
        let n = self.ops.len();
        let mut i: usize = k;
        if i > n {
            return None;
        }
        while i < n
            invariant
                n == self.ops@.len(),
                k <= i <= n,
                newline_op_from(self@, k as int) == newline_op_from(self@, i as int),
            decreases n - i,
        {
            proof {
                assert(self@[i as int] == self.ops@[i as int].model());
            }
            if has_newline(self.ops[i].get_data()) {
                return Some(i);
            }
            i = i + 1;
        }
        None
    }

    /// All inserted text, in order.
    pub fn to_text(&self) -> (r: String)
        ensures
            r@ == text_of(self@),
    {
        let n = self.ops.len();
        let mut out = String::new();
        let mut i: usize = 0;
        while i < n
            invariant
                n == self.ops@.len(),
                i <= n,
                out@ == text_of(self@.take(i as int)),
            decreases n - i,
        {
            proof {
                assert(self@.take(i + 1).drop_last() =~= self@.take(i as int));
                assert(self@[i as int] == self.ops@[i as int].model());
            }
            out.append(self.ops[i].get_data());
            i = i + 1;
        }
        proof {
            assert(self@.take(n as int) =~= self@);
        }
        out
    }

    /// Whether the line at `index` holds nothing before `index`.
    pub fn is_empty_line_at_index(&self, index: usize) -> (r: bool)
        ensures
            r == empty_line_at(self@, index as int),
    {
        if index == 0 {
            return true;
        }
        let text = self.to_text();
        let before = sub_str(text.as_str(), index - 1, index);
        is_newline(before.as_str())
    }

    /// The delta that undoes this one on the plain text `doc` it was made for; `None`
    /// when the inverse's output length does not fit a `usize`.
    pub fn invert_str(&self, doc: &str) -> (r: Option<Delta>)
        requires
            self.wf(),
        ensures
            match r {
                Some(d) => d.wf() && d@ == invert_model(self@, doc@),
                None => target_of(invert_model(self@, doc@)) > usize::MAX,
            },
    {
        let mut out: Vec<Operation> = Vec::new();
        let mut base: usize = 0;
        let mut target: usize = 0;
        let mut pos: usize = 0;
        let mut i: usize = 0;
        let n = self.ops.len();
        proof {
            assert(self@.skip(0) =~= self@);
            assert(self@.take(0).len() == 0);
            assert(out@.map_values(|o: Operation| o.model()) + invert_at(self@, doc@, 0) =~= invert_at(self@, doc@, 0));
        }
        while i < n
            invariant
                self.wf(),
                n == self.ops@.len(),
                i <= n,
                pos == base_of(self@.take(i as int)),
                base == base_of(out@.map_values(|o: Operation| o.model())),
                base == target_of(self@.take(i as int)),
                target == target_of(out@.map_values(|o: Operation| o.model())),
                forall|j: int| 0 <= j < out@.len() ==> (#[trigger] out@[j]).wf(),
                invert_at(self@, doc@, 0) == out@.map_values(|o: Operation| o.model()) + invert_at(
                    self@.skip(i as int),
                    doc@,
                    pos as int,
                ),
            decreases n - i,
        {
            let ghost done = out@.map_values(|o: Operation| o.model());
            let ghost rest = invert_at(self@.skip(i + 1), doc@, pos as int);
            proof {
                lemma_base_prefix(self@, i as int);
                lemma_target_prefix_le(self@, i + 1);
                assert(self@.skip(i as int).drop_first() =~= self@.skip(i + 1));
                assert(self@.skip(i as int)[0] == self@[i as int]);
                assert(self@[i as int] == self.ops@[i as int].model());
            }
            let ghost pos0 = pos as int;
            let (op, ob, ot) = match &self.ops[i] {
                Operation::Retain(r) => {
                    pos = pos + r.n;
                    (Operation::Retain(Retain { n: r.n, attributes: r.attributes.restore_from(&Attributes::new()) }), r.n, Some(r.n))
                },
                Operation::Insert(t) => {
                    let c = t.count_of_code_units();
                    (Operation::Delete(c), c, Some(0))
                },
                Operation::Delete(d) => {
                    let piece = sub_str(doc, pos, pos + *d);
                    pos = pos + *d;
                    let c = count_units_capped(piece.as_str());
                    (Operation::Insert(Insert { s: piece, attributes: Attributes::new() }), 0, c)
                },
            };
            let ghost m = op.model();
            let ghost after = invert_at(self@.skip(i + 1), doc@, pos as int);
            proof {
                assert(invert_at(self@.skip(i as int), doc@, pos0) == seq![m] + after);
                lemma_push_lengths(done, m);
                assert(done + (seq![m] + after) =~= done.push(m) + after);
                lemma_concat_lengths(done.push(m), after);
            }
            let ot = match ot {
                None => {
                    return None;
                },
                Some(ot) => ot,
            };
            match target.checked_add(ot) {
                None => {
                    return None;
                },
                Some(t) => {
                    target = t;
                },
            }
            base = base + ob;
            out.push(op);
            proof {
                assert(out@.map_values(|o: Operation| o.model()) =~= done.push(m));
            }
            i = i + 1;
        }
        proof {
            assert(self@.skip(n as int).len() == 0);
            assert(self@.take(n as int) =~= self@);
            assert(out@.map_values(|o: Operation| o.model()) + Seq::<OpModel>::empty() =~= out@.map_values(|o: Operation| o.model()));
        }
        Some(Delta { ops: out, base_len: base, target_len: target })
    }

    /// Makes sure a head is held while operations remain, taking the next one when needed.
    fn load_head(&self, h: Option<Operation>, i: usize) -> (r: (Option<Operation>, usize))
        requires
            self.wf(),
            i <= self.ops@.len(),
            h matches Some(o) ==> o.wf(),
        ensures
            head_seq(r.0) + self@.skip(r.1 as int) == head_seq(h) + self@.skip(i as int),
            r.1 <= self.ops@.len(),
            r.0 is None ==> r.1 == self.ops@.len(),
            r.0 matches Some(o) ==> o.wf(),
            (if r.0 is Some { 1int } else { 0int }) - r.1 == (if h is Some { 1int } else { 0int }) - i,
    {
        if h.is_none() && i < self.ops.len() {
            proof {
                assert(self@[i as int] == self.ops@[i as int].model());
                assert(self@.skip(i as int) =~= seq![self@[i as int]] + self@.skip(i + 1));
                assert(head_seq(h) + self@.skip(i as int) =~= self@.skip(i as int));
            }
            let o = self.ops[i].duplicate();
            proof {
                assert(head_seq(Some(o)) =~= seq![self@[i as int]]);
            }
            (Some(o), i + 1)
        } else {
            (h, i)
        }
    }

    /// Rewrites this delta and `other`, made concurrently on the same document, so that
    /// each runs after the other: the first result after `other`, the second after this
    /// one. As the builder does, a trailing retain without attributes is dropped. Fails
    /// when the two expect documents of different lengths, or when a result's lengths do
    /// not fit a `usize`.
    pub fn transform(&self, other: &Delta) -> (r: Result<(Delta, Delta), OTError>)
        requires
            self.wf(),
            other.wf(),
        ensures
            self.base_len != other.base_len ==> r == Err::<(Delta, Delta), OTError>(OTError::TransformMismatch),
            self.base_len == other.base_len ==> match r {
                Ok((a1, b1)) => a1.wf() && b1.wf() && a1@ == trimmed(transform_model(self@, other@).0)
                    && b1@ == trimmed(transform_model(self@, other@).1) && ({
                    let t = transform_rec(self@, other@);
                    base_of(t.0) <= usize::MAX && target_of(t.0) <= usize::MAX && base_of(t.1) <= usize::MAX
                        && target_of(t.1) <= usize::MAX
                }),
                Err(e) => e == OTError::TransformMismatch && ({
                    let t = transform_rec(self@, other@);
                    base_of(t.0) > usize::MAX || target_of(t.0) > usize::MAX || base_of(t.1) > usize::MAX
                        || target_of(t.1) > usize::MAX
                }),
            },
    {
        if self.base_len != other.base_len {
            return Err(OTError::TransformMismatch);
        }
        let mut out0 = Delta::new();
        let mut out1 = Delta::new();
        let na = self.ops.len();
        let nb = other.ops.len();
        let mut ia: usize = 0;
        let mut ib: usize = 0;
        let mut ah: Option<Operation> = None;
        let mut bh: Option<Operation> = None;
        let ghost mut em0: Seq<OpModel> = Seq::empty();
        let ghost mut em1: Seq<OpModel> = Seq::empty();
        proof {
            assert(head_seq(ah) + self@.skip(0) =~= self@);
            assert(head_seq(bh) + other@.skip(0) =~= other@);
            assert(em0 + transform_rec(self@, other@).0 =~= transform_rec(self@, other@).0);
            assert(em1 + transform_rec(self@, other@).1 =~= transform_rec(self@, other@).1);
            assert(build(em0) =~= Seq::<OpModel>::empty());
        }
        loop
            invariant
                self.wf(),
                other.wf(),
                out0.wf(),
                out1.wf(),
                na == self.ops@.len(),
                nb == other.ops@.len(),
                ia <= na,
                ib <= nb,
                ah matches Some(o) ==> o.wf(),
                bh matches Some(o) ==> o.wf(),
                out0@ == build(em0),
                out1@ == build(em1),
                transform_rec(self@, other@).0 == em0 + transform_rec(
                    head_seq(ah) + self@.skip(ia as int),
                    head_seq(bh) + other@.skip(ib as int),
                ).0,
                transform_rec(self@, other@).1 == em1 + transform_rec(
                    head_seq(ah) + self@.skip(ia as int),
                    head_seq(bh) + other@.skip(ib as int),
                ).1,
            ensures
                out0.wf(),
                out1.wf(),
                out0@ == build(em0),
                out1@ == build(em1),
                transform_rec(self@, other@).0 == em0,
                transform_rec(self@, other@).1 == em1,
            decreases (if ah is Some { 1int } else { 0int }) + na - ia + (if bh is Some { 1int } else { 0int }) + nb - ib,
        {
            let (h1, i1) = self.load_head(ah, ia);
            ah = h1;
            ia = i1;
            let (h2, i2) = other.load_head(bh, ib);
            bh = h2;
            ib = i2;
            let ghost x = head_seq(ah) + self@.skip(ia as int);
            let ghost y = head_seq(bh) + other@.skip(ib as int);
            if ah.is_none() && bh.is_none() {
                proof {
                    assert(x =~= Seq::<OpModel>::empty());
                    assert(y =~= Seq::<OpModel>::empty());
                    assert(em0 + transform_rec(x, y).0 =~= em0);
                    assert(em1 + transform_rec(x, y).1 =~= em1);
                }
                break;
            }
            let (e0, e1, na2, nb2) = transform_step(ah, bh, Ghost(self@.skip(ia as int)), Ghost(other@.skip(ib as int)));
            ah = na2;
            bh = nb2;
            let ghost u = transform_rec(head_seq(ah) + self@.skip(ia as int), head_seq(bh) + other@.skip(ib as int));
            let ghost t = transform_rec(self@, other@);
            proof {
                assert(em0 + (head_seq(e0) + u.0) =~= (em0 + head_seq(e0)) + u.0);
                assert(em1 + (head_seq(e1) + u.1) =~= (em1 + head_seq(e1)) + u.1);
            }
            if !out0.emit_tracked(e0, Ghost(em0), Ghost(u.0)) {
                return Err(OTError::TransformMismatch);
            }
            if !out1.emit_tracked(e1, Ghost(em1), Ghost(u.1)) {
                return Err(OTError::TransformMismatch);
            }
            proof {
                em0 = em0 + head_seq(e0);
                em1 = em1 + head_seq(e1);
            }
        }
        proof {
            lemma_build_lengths(em0);
            lemma_build_lengths(em1);
        }
        out0.trim();
        out1.trim();
        Ok((out0, out1))
    }

    /// Appends the pieces of the document `doc` in `[lo, hi)`, given the operations `em`
    /// emitted so far and `rest` still to come; says whether the lengths still fit.
    fn pieces_into(&mut self, doc: &Delta, lo: usize, hi: usize, keep: Option<&Attributes>, Ghost(em): Ghost<Seq<OpModel>>, Ghost(rest): Ghost<Seq<OpModel>>) -> (ok: bool)
        requires
            old(self).wf(),
            old(self)@ == build(em),
            doc.wf(),
            all_inserts(doc@),
        ensures
            ({
                let p = doc_pieces(doc@, 0, lo as int, hi as int, match keep { Some(a) => Some(a@), None => None });
                &&& ok ==> final(self).wf() && final(self)@ == build(em + p)
                &&& !ok ==> base_of(em + p + rest) > usize::MAX || target_of(em + p + rest) > usize::MAX
            }),
    {
        let ghost km: Option<AttrsModel> = match keep { Some(a) => Some(a@), None => None };
        let ghost p = doc_pieces(doc@, 0, lo as int, hi as int, km);
        let n = doc.ops.len();
        let mut j: usize = 0;
        let mut start: usize = 0;
        let ghost mut cur = em;
        proof {
            assert(doc@.skip(0) =~= doc@);
            assert(doc@.take(0).len() == 0);
            assert(em + p =~= cur + doc_pieces(doc@.skip(0), 0, lo as int, hi as int, km));
        }
        while j < n
            invariant
                self.wf(),
                self@ == build(cur),
                doc.wf(),
                all_inserts(doc@),
                n == doc.ops@.len(),
                j <= n,
                start == target_of(doc@.take(j as int)),
                km == (match keep { Some(a) => Some(a@), None => None::<AttrsModel> }),
                p == doc_pieces(doc@, 0, lo as int, hi as int, km),
                em + p == cur + doc_pieces(doc@.skip(j as int), start as int, lo as int, hi as int, km),
            decreases n - j,
        {
            let o = &doc.ops[j];
            proof {
                assert(doc@[j as int] == o.model());
                assert(doc@.skip(j as int)[0] == doc@[j as int]);
                assert(doc@.skip(j as int).drop_first() =~= doc@.skip(j + 1));
                lemma_base_prefix(doc@, j as int);
                lemma_target_prefix_le(doc@, j + 1);
                assert(doc@[j as int] is Insert);
            }
            let l = o.len();
            let a = if lo > start { lo } else { start };
            let b = if hi < start + l { hi } else { start + l };
            let piece: Option<Operation> = if b > a {
                match keep {
                    Some(al) => Some(Operation::Retain(Retain { n: b - a, attributes: al.restore_from(&o.get_attributes()) })),
                    None => {
                        let t = sub_str(o.get_data(), a - start, b - start);
                        proof {
                            crate::operation::lemma_sub_units_fits(o.data(), (a - start) as int, (b - start) as int);
                        }
                        Some(Operation::Insert(Insert { s: t, attributes: o.get_attributes() }))
                    },
                }
            } else {
                None
            };
            let ghost later = doc_pieces(doc@.skip(j + 1), (start + l) as int, lo as int, hi as int, km);
            proof {
                let om = doc@[j as int];
                assert(op_len(om) == l);
                if b > a {
                    assert(piece is Some);
                    match keep {
                        Some(al) => {
                            assert(km == Some(al@));
                            assert(piece->Some_0.model() == OpModel::Retain((b - a) as nat, restore_attrs(al@, op_attrs(om))));
                            assert(doc_piece(om, start as int, lo as int, hi as int, km) == seq![OpModel::Retain((b - a) as nat, restore_attrs(al@, op_attrs(om)))]);
                        },
                        None => {
                            assert(km is None);
                            assert(op_text(om) == o.data());
                            assert(piece->Some_0.model() == OpModel::Insert(sub_units(op_text(om), a - start, b - start), op_attrs(om)));
                            assert(doc_piece(om, start as int, lo as int, hi as int, km) == seq![OpModel::Insert(sub_units(op_text(om), a - start, b - start), op_attrs(om))]);
                        },
                    }
                    assert(head_seq(piece) =~= seq![piece->Some_0.model()]);
                } else {
                    assert(head_seq(piece) =~= Seq::<OpModel>::empty());
                }
                assert(head_seq(piece) =~= doc_piece(doc@[j as int], start as int, lo as int, hi as int, km));
                assert(cur + (head_seq(piece) + later) + rest =~= (cur + head_seq(piece)) + (later + rest));
            }
            if !self.emit_tracked(piece, Ghost(cur), Ghost(later + rest)) {
                return false;
            }
            proof {
                assert(cur + (head_seq(piece) + later) =~= (cur + head_seq(piece)) + later);
                cur = cur + head_seq(piece);
            }
            start = start + l;
            j = j + 1;
        }
        proof {
            assert(doc@.skip(n as int).len() == 0);
            assert(cur + Seq::<OpModel>::empty() =~= cur);
        }
        true
    }

    /// The delta that undoes this one on the document `doc` it was made for; `None` when the
    /// inverse's lengths do not fit a `usize`.
    pub fn invert(&self, doc: &Delta) -> (r: Option<Delta>)
        requires
            self.wf(),
            doc.wf(),
            all_inserts(doc@),
        ensures
            match r {
                Some(d) => d.wf() && d@ == build(invert_doc_at(self@, doc@, 0)),
                None => base_of(invert_doc_at(self@, doc@, 0)) > usize::MAX || target_of(invert_doc_at(self@, doc@, 0)) > usize::MAX,
            },
    {
        let ghost m = invert_doc_at(self@, doc@, 0);
        let mut out = Delta::new();
        let mut pos: usize = 0;
        let mut i: usize = 0;
        let n = self.ops.len();
        let ghost mut em: Seq<OpModel> = Seq::empty();
        proof {
            assert(self@.skip(0) =~= self@);
            assert(self@.take(0).len() == 0);
            assert(em + m =~= m);
            assert(build(em) =~= Seq::<OpModel>::empty());
        }
        while i < n
            invariant
                self.wf(),
                doc.wf(),
                all_inserts(doc@),
                out.wf(),
                out@ == build(em),
                n == self.ops@.len(),
                i <= n,
                pos == base_of(self@.take(i as int)),
                m == invert_doc_at(self@, doc@, 0),
                m == em + invert_doc_at(self@.skip(i as int), doc@, pos as int),
            decreases n - i,
        {
            proof {
                lemma_base_prefix(self@, i as int);
                assert(self@.skip(i as int).drop_first() =~= self@.skip(i + 1));
                assert(self@.skip(i as int)[0] == self@[i as int]);
                assert(self@[i as int] == self.ops@[i as int].model());
            }
            let ghost p0 = pos as int;
            match &self.ops[i] {
                Operation::Retain(r) => {
                    pos = pos + r.n;
                    let ghost later = invert_doc_at(self@.skip(i + 1), doc@, pos as int);
                    proof {
                        assert(invert_doc_at(self@.skip(i as int), doc@, p0) == (if r.attributes@.len() == 0 {
                            seq![OpModel::Retain(r.n as nat, Seq::empty())]
                        } else {
                            doc_pieces(doc@, 0, p0, pos as int, Some(r.attributes@))
                        }) + later);
                    }
                    if r.attributes.is_empty() {
                        let op = Operation::Retain(Retain { n: r.n, attributes: Attributes::new() });
                        proof {
                            assert(head_seq(Some(op)) =~= seq![OpModel::Retain(r.n as nat, Seq::empty())]);
                            assert(em + (head_seq(Some(op)) + later) =~= (em + head_seq(Some(op))) + later);
                        }
                        if !out.emit_tracked(Some(op), Ghost(em), Ghost(later)) {
                            return None;
                        }
                        proof {
                            em = em + head_seq(Some(op));
                        }
                    } else {
                        let ghost pc = doc_pieces(doc@, 0, p0, pos as int, Some(r.attributes@));
                        proof {
                            assert(em + (pc + later) =~= (em + pc) + later);
                        }
                        if !out.pieces_into(doc, pos - r.n, pos, Some(&r.attributes), Ghost(em), Ghost(later)) {
                            return None;
                        }
                        proof {
                            em = em + pc;
                        }
                    }
                },
                Operation::Insert(t) => {
                    let op = Operation::Delete(t.count_of_code_units());
                    let ghost later = invert_doc_at(self@.skip(i + 1), doc@, pos as int);
                    proof {
                        assert(invert_doc_at(self@.skip(i as int), doc@, p0) == seq![OpModel::Delete(code_units(t.s@))] + later);
                        assert(head_seq(Some(op)) =~= seq![OpModel::Delete(code_units(t.s@))]);
                        assert(em + (head_seq(Some(op)) + later) =~= (em + head_seq(Some(op))) + later);
                    }
                    if !out.emit_tracked(Some(op), Ghost(em), Ghost(later)) {
                        return None;
                    }
                    proof {
                        em = em + head_seq(Some(op));
                    }
                },
                Operation::Delete(d) => {
                    pos = pos + *d;
                    let ghost later = invert_doc_at(self@.skip(i + 1), doc@, pos as int);
                    let ghost pc = doc_pieces(doc@, 0, p0, pos as int, None);
                    proof {
                        assert(invert_doc_at(self@.skip(i as int), doc@, p0) == pc + later);
                        assert(em + (pc + later) =~= (em + pc) + later);
                    }
                    if !out.pieces_into(doc, pos - *d, pos, None, Ghost(em), Ghost(later)) {
                        return None;
                    }
                    proof {
                        em = em + pc;
                    }
                },
            }
            i = i + 1;
        }
        proof {
            assert(self@.skip(n as int).len() == 0);
            assert(em + Seq::<OpModel>::empty() =~= em);
        }
        Some(out)
    }

    /// Appends what a step emitted, given the operations `em` emitted so far and the
    /// operations `rest` still to come; says whether the lengths still fit.
    fn emit_tracked(&mut self, e: Option<Operation>, Ghost(em): Ghost<Seq<OpModel>>, Ghost(rest): Ghost<Seq<OpModel>>) -> (ok: bool)
        requires
            old(self).wf(),
            old(self)@ == build(em),
            e matches Some(o) ==> o.wf(),
        ensures
            ok ==> final(self).wf() && final(self)@ == build(em + head_seq(e)),
            !ok ==> base_of(em + head_seq(e) + rest) > usize::MAX || target_of(em + head_seq(e) + rest) > usize::MAX,
    {
        match e {
            None => {
                proof {
                    assert(em + head_seq(e) =~= em);
                }
                true
            },
            Some(op) => {
                let ghost m = op.model();
                proof {
                    assert(em + head_seq(Some(op)) =~= em.push(m));
                    assert(em.push(m).drop_last() =~= em);
                    lemma_build_lengths(em);
                    lemma_concat_lengths(em.push(m), rest);
                    lemma_push_lengths(em, m);
                }
                self.emit(op)
            },
        }
    }

    /// Appends `op` when the lengths still fit a `usize`; says whether it did.
    fn emit(&mut self, op: Operation) -> (ok: bool)
        requires
            old(self).wf(),
            op.wf(),
        ensures
            ok ==> final(self).wf() && final(self)@ == push_op(old(self)@, op.model()),
            !ok ==> old(self).base_len + op_base(op.model()) > usize::MAX || old(self).target_len + op_target(
                op.model(),
            ) > usize::MAX,
    {
        let b = op_base_len(&op);
        let t = op_target_len(&op);
        if b > usize::MAX - self.base_len || t > usize::MAX - self.target_len {
            return false;
        }
        self.add(op);
        true
    }

    /// The delta with the effect of this one followed by `other`. Fails when `other`
    /// expects a longer document than this one produces, or when the result's lengths
    /// do not fit a `usize`.
    #[verifier::rlimit(60)]
    pub fn compose(&self, other: &Delta) -> (r: Result<Delta, OTError>)
        requires
            self.wf(),
            other.wf(),
        ensures
            other.base_len > self.target_len ==> r == Err::<Delta, OTError>(OTError::ComposeMismatch),
            other.base_len <= self.target_len ==> match r {
                Ok(d) => d.wf() && d@ == compose_model(self@, other@),
                Err(e) => e == OTError::ComposeMismatch && (base_of(compose_rec(self@, other@)) > usize::MAX
                    || target_of(compose_rec(self@, other@)) > usize::MAX),
            },
    {
        if other.base_len > self.target_len {
            return Err(OTError::ComposeMismatch);
        }
        let mut out = Delta::new();
        let na = self.ops.len();
        let nb = other.ops.len();
        let mut ia: usize = 0;
        let mut ib: usize = 0;
        let mut ah: Option<Operation> = None;
        let mut bh: Option<Operation> = None;
        let ghost mut em: Seq<OpModel> = Seq::empty();
        proof {
            assert(self@.skip(0) =~= self@);
            assert(other@.skip(0) =~= other@);
            assert(head_seq(ah) + self@.skip(0) =~= self@);
            assert(head_seq(bh) + other@.skip(0) =~= other@);
            assert(em + compose_rec(self@, other@) =~= compose_rec(self@, other@));
            assert(build(em) =~= Seq::<OpModel>::empty());
        }
        loop
            invariant
                self.wf(),
                other.wf(),
                out.wf(),
                na == self.ops@.len(),
                nb == other.ops@.len(),
                ia <= na,
                ib <= nb,
                ah matches Some(o) ==> o.wf(),
                bh matches Some(o) ==> o.wf(),
                out@ == build(em),
                compose_rec(self@, other@) == em + compose_rec(
                    head_seq(ah) + self@.skip(ia as int),
                    head_seq(bh) + other@.skip(ib as int),
                ),
            ensures
                out.wf(),
                out@ == build(em),
                compose_rec(self@, other@) == em,
            decreases (if ah is Some { 1int } else { 0int }) + na - ia + (if bh is Some { 1int } else { 0int }) + nb - ib,
        {
            let (h1, i1) = self.load_head(ah, ia);
            ah = h1;
            ia = i1;
            let (h2, i2) = other.load_head(bh, ib);
            bh = h2;
            ib = i2;
            let ghost x = head_seq(ah) + self@.skip(ia as int);
            let ghost y = head_seq(bh) + other@.skip(ib as int);
            if ah.is_none() && bh.is_none() {
                proof {
                    assert(x =~= Seq::<OpModel>::empty());
                    assert(y =~= Seq::<OpModel>::empty());
                    assert(em + compose_rec(x, y) =~= em);
                    assert(compose_rec(self@, other@) == em);
                }
                break;
            }
            let (e, na2, nb2) = compose_step(ah, bh, Ghost(self@.skip(ia as int)), Ghost(other@.skip(ib as int)));
            ah = na2;
            bh = nb2;
            let ghost rest = compose_rec(head_seq(ah) + self@.skip(ia as int), head_seq(bh) + other@.skip(ib as int));
            proof {
                assert(em + (head_seq(e) + rest) =~= (em + head_seq(e)) + rest);
            }
            if !out.emit_tracked(e, Ghost(em), Ghost(rest)) {
                return Err(OTError::ComposeMismatch);
            }
            proof {
                em = em + head_seq(e);
            }
        }
        Ok(out)
    }
}

/// Whether `s` holds a line break.
pub fn has_newline(s: &str) -> (r: bool)
    ensures
        r == s@.contains('\n'),
{
    let n = s.unicode_len();
    let mut i: usize = 0;
    while i < n
        invariant
            n == s@.len(),
            i <= n,
            forall|j: int| 0 <= j < i ==> s@[j] != '\n',
        decreases n - i,
    {
        if s.get_char(i) == '\n' {
            return true;
        }
        i = i + 1;
    }
    false


}

/// One step of transformation on the heads `ph` and `qh`, in front of the rests `xs` and
/// `ys`: what each result receives and the new heads.
#[verifier::rlimit(80)]
fn transform_step(ph: Option<Operation>, qh: Option<Operation>, Ghost(xs): Ghost<Seq<OpModel>>, Ghost(ys): Ghost<Seq<OpModel>>) -> (r: (Option<Operation>, Option<Operation>, Option<Operation>, Option<Operation>))
    requires
        ph is Some || qh is Some,
        ph is None ==> xs.len() == 0,
        qh is None ==> ys.len() == 0,
        ph matches Some(o) ==> o.wf(),
        qh matches Some(o) ==> o.wf(),
    ensures
        ({
            let t = transform_rec(head_seq(ph) + xs, head_seq(qh) + ys);
            let u = transform_rec(head_seq(r.2) + xs, head_seq(r.3) + ys);
            t.0 == head_seq(r.0) + u.0 && t.1 == head_seq(r.1) + u.1
        }),
        r.0 matches Some(o) ==> o.wf(),
        r.1 matches Some(o) ==> o.wf(),
        r.2 matches Some(o) ==> o.wf(),
        r.3 matches Some(o) ==> o.wf(),
        (if r.2 is Some { 1int } else { 0int }) + (if r.3 is Some { 1int } else { 0int }) < (if ph is Some { 1int } else { 0int }) + (if qh is Some { 1int } else { 0int }),
{
    let ghost x = head_seq(ph) + xs;
    let ghost y = head_seq(qh) + ys;
    proof {
        if ph is Some {
            assert(x[0] == ph->Some_0.model());
            assert(x.drop_first() =~= xs);
        } else {
            assert(x =~= Seq::<OpModel>::empty());
        }
        if qh is Some {
            assert(y[0] == qh->Some_0.model());
            assert(y.drop_first() =~= ys);
        } else {
            assert(y =~= Seq::<OpModel>::empty());
        }
    }
    let pl: usize = match &ph {
        Some(p) => p.len(),
        None => 0,
    };
    let ql: usize = match &qh {
        Some(q) => q.len(),
        None => 0,
    };
    let p_ins = match &ph {
        Some(p) => p.is_insert(),
        None => false,
    };
    let q_ins = match &qh {
        Some(q) => q.is_insert(),
        None => false,
    };
    if ph.is_some() && pl == 0 {
        proof {
            assert(head_seq(None) + xs =~= xs);
        }
        return (None, None, None, qh);
    }
    if qh.is_some() && ql == 0 {
        proof {
            assert(head_seq(None) + ys =~= ys);
        }
        return (None, None, ph, None);
    }
    if p_ins {
        let p = ph.unwrap();
        let t = Operation::Retain(Retain { n: pl, attributes: Attributes::new() });
        proof {
            assert(head_seq(None) + xs =~= xs);
            assert(head_seq(Some(t)) =~= seq![OpModel::Retain(op_len(x[0]), Seq::empty())]);
            assert(head_seq(Some(p)) =~= seq![x[0]]);
        }
        return (Some(p), Some(t), None, qh);
    }
    if q_ins {
        let q = qh.unwrap();
        let t = Operation::Retain(Retain { n: ql, attributes: Attributes::new() });
        proof {
            assert(head_seq(None) + ys =~= ys);
            assert(head_seq(Some(t)) =~= seq![OpModel::Retain(op_len(y[0]), Seq::empty())]);
            assert(head_seq(Some(q)) =~= seq![y[0]]);
        }
        return (Some(t), Some(q), ph, None);
    }
    if ph.is_none() {
        proof {
            assert(head_seq(None) + ys =~= ys);
            assert(head_seq(None) + xs =~= xs);
        }
        return (None, None, None, None);
    }
    if qh.is_none() {
        proof {
            assert(head_seq(None) + ys =~= ys);
            assert(head_seq(None) + xs =~= xs);
        }
        return (None, None, None, None);
    }
    let p = ph.unwrap();
    let q = qh.unwrap();
    let k = if pl < ql { pl } else { ql };
    let (e0, e1) = match (&p, &q) {
        (Operation::Retain(a), Operation::Retain(b)) => (
            Some(Operation::Retain(Retain { n: k, attributes: a.attributes.duplicate() })),
            Some(Operation::Retain(Retain { n: k, attributes: b.attributes.untouched_by(&a.attributes) })),
        ),
        (Operation::Delete(_), Operation::Retain(_)) => (Some(Operation::Delete(k)), None),
        (Operation::Retain(_), Operation::Delete(_)) => (None, Some(Operation::Delete(k))),
        _ => (None, None),
    };
    let pt = if pl > k { split_back(&p, k) } else { None };
    let qt = if ql > k { split_back(&q, k) } else { None };
    proof {
        let xr = if op_len(x[0]) > k { seq![tail_of(x[0], k as nat)] + x.drop_first() } else { x.drop_first() };
        let yr = if op_len(y[0]) > k { seq![tail_of(y[0], k as nat)] + y.drop_first() } else { y.drop_first() };
        assert(head_seq(pt) + xs =~= xr);
        assert(head_seq(qt) + ys =~= yr);
        let e = transformed(x[0], y[0], k as nat);
        if e0 is Some {
            assert(head_seq(e0) =~= e.0);
        } else {
            assert(head_seq(e0) =~= e.0);
        }
        if e1 is Some {
            assert(head_seq(e1) =~= e.1);
        } else {
            assert(head_seq(e1) =~= e.1);
        }
        if pt is Some {
            assert(head_seq(pt).len() == 1);
        }
        if qt is Some {
            assert(head_seq(qt).len() == 1);
        }
    }
    (e0, e1, pt, qt)
}

/// One step of composition on the heads `p` and `q`, in front of the rest `xs` and `ys`:
/// what is emitted and the new heads.
#[verifier::rlimit(50)]
fn compose_step(ph: Option<Operation>, qh: Option<Operation>, Ghost(xs): Ghost<Seq<OpModel>>, Ghost(ys): Ghost<Seq<OpModel>>) -> (r: (Option<Operation>, Option<Operation>, Option<Operation>))
    requires
        ph is Some || qh is Some,
        ph is None ==> xs.len() == 0,
        qh is None ==> ys.len() == 0,
        ph matches Some(o) ==> o.wf(),
        qh matches Some(o) ==> o.wf(),
    ensures
        compose_rec(head_seq(ph) + xs, head_seq(qh) + ys) == head_seq(r.0) + compose_rec(head_seq(r.1) + xs, head_seq(r.2) + ys),
        r.0 matches Some(o) ==> o.wf(),
        r.1 matches Some(o) ==> o.wf(),
        r.2 matches Some(o) ==> o.wf(),
        (if r.1 is Some { 1int } else { 0int }) + (if r.2 is Some { 1int } else { 0int }) < (if ph is Some { 1int } else { 0int }) + (if qh is Some { 1int } else { 0int }),
{
    let ghost x = head_seq(ph) + xs;
    let ghost y = head_seq(qh) + ys;
    proof {
        if ph is Some {
            assert(x[0] == ph->Some_0.model());
            assert(x.drop_first() =~= xs);
        } else {
            assert(x =~= Seq::<OpModel>::empty());
        }
        if qh is Some {
            assert(y[0] == qh->Some_0.model());
            assert(y.drop_first() =~= ys);
        } else {
            assert(y =~= Seq::<OpModel>::empty());
        }
    }
    let mut ah: Option<Operation> = None;
    let mut bh: Option<Operation> = None;
    let mut e: Option<Operation> = None;
    match (ph, qh) {
        (None, None) => {},
        (None, Some(q)) => {
            ah = None;
            bh = None;
            e = Some(q);
            proof {
                assert(compose_rec(x, y) == y);
                assert(compose_rec(Seq::empty(), y.drop_first()) == y.drop_first());
                assert(y =~= seq![q.model()] + y.drop_first());
                assert(head_seq(ah) + xs =~= Seq::<OpModel>::empty());
                assert(head_seq(bh) + ys =~= y.drop_first());
            }
        },
        (Some(p), None) => {
            ah = None;
            bh = None;
            e = Some(p);
            proof {
                assert(compose_rec(x, y) == x);
                if x.drop_first().len() > 0 {
                    assert(compose_rec(x.drop_first(), Seq::empty()) == x.drop_first());
                } else {
                    assert(compose_rec(x.drop_first(), Seq::empty()) =~= x.drop_first());
                }
                assert(x =~= seq![p.model()] + x.drop_first());
                assert(head_seq(ah) + xs =~= x.drop_first());
                assert(head_seq(bh) + ys =~= Seq::<OpModel>::empty());
            }
        },
        (Some(p), Some(q)) => {
            let pl = p.len();
            let ql = q.len();
            if pl == 0 {
                proof {
                    assert(head_seq(Some(q)) + ys =~= y);
                    assert(head_seq(None) + xs =~= x.drop_first());
                }
                ah = None;
                bh = Some(q);
            } else if ql == 0 {
                proof {
                    assert(head_seq(Some(p)) + xs =~= x);
                    assert(head_seq(None) + ys =~= y.drop_first());
                }
                ah = Some(p);
                bh = None;
            } else if p.is_delete() {
                proof {
                    assert(head_seq(Some(q)) + ys =~= y);
                    assert(head_seq(None) + xs =~= x.drop_first());
                    assert(head_seq(Some(p)) =~= seq![x[0]]);
                }
                ah = None;
                bh = Some(q);
                e = Some(p);
            } else if q.is_insert() {
                proof {
                    assert(head_seq(Some(p)) + xs =~= x);
                    assert(head_seq(None) + ys =~= y.drop_first());
                    assert(head_seq(Some(q)) =~= seq![y[0]]);
                }
                ah = Some(p);
                bh = None;
                e = Some(q);
            } else {
                let k = if pl < ql { pl } else { ql };
                let (emit_op, pt) = split_front(&p, &q, k);
                let qt = if ql > k { split_back(&q, k) } else { None };
                proof {
                    let xr = if op_len(x[0]) > k { seq![tail_of(x[0], k as nat)] + x.drop_first() } else { x.drop_first() };
                    let yr = if op_len(y[0]) > k { seq![tail_of(y[0], k as nat)] + y.drop_first() } else { y.drop_first() };
                    assert(head_seq(pt) + xs =~= xr);
                    assert(head_seq(qt) + ys =~= yr);
                    if pl > k {
                        assert(qt is None);
                    }
                    if pt is Some {
                        assert(head_seq(pt).len() == 1);
                    }
                }
                ah = pt;
                bh = qt;
                e = emit_op;
            }
        },
    }
    proof {
        assert(compose_rec(x, y) == head_seq(e) + compose_rec(head_seq(ah) + xs, head_seq(bh) + ys));
    }
    (e, ah, bh)
}

/// One step of composition where `k` code units of `p` (a retain or an insert) meet `k`
/// code units of `q` (a retain or a delete): what is emitted, and what is left of `p`.
fn split_front(p: &Operation, q: &Operation, k: usize) -> (r: (Option<Operation>, Option<Operation>))
    requires
        p.wf(),
        q.wf(),
        !(p is Delete),
        !(q is Insert),
        0 < k <= op_len(p.model()),
        k <= op_len(q.model()),
    ensures
        head_seq(r.0) == emitted(p.model(), q.model(), k as nat),
        head_seq(r.1) == (if op_len(p.model()) > k { seq![tail_of(p.model(), k as nat)] } else { Seq::empty() }),
        r.0 matches Some(o) ==> o.wf(),
        r.1 matches Some(o) ==> o.wf(),
{
    let out = match (p, q) {
        (Operation::Retain(a), Operation::Retain(b)) => Some(Operation::Retain(Retain { n: k, attributes: a.attributes.compose(&b.attributes) })),
        (Operation::Retain(_), _) => Some(Operation::Delete(k)),
        (Operation::Insert(a), Operation::Retain(b)) => {
            let s = sub_str(a.s.as_str(), 0, k);
            proof {
                crate::operation::lemma_sub_units_fits(a.s@, 0, k as int);
            }
            Some(Operation::Insert(Insert { s, attributes: a.attributes.compose(&b.attributes) }))
        },
        _ => None,
    };
    let rest = if p.len() > k { split_back(p, k) } else { None };
    proof {
        if out is Some {
            assert(head_seq(out) =~= seq![out->Some_0.model()]);
        } else {
            assert(head_seq(out) =~= Seq::<OpModel>::empty());
        }
    }
    (out, rest)
}

/// What is left of `q` once its first `k` code units are consumed.
fn split_back(q: &Operation, k: usize) -> (r: Option<Operation>)
    requires
        q.wf(),
        k < op_len(q.model()),
    ensures
        head_seq(r) == seq![tail_of(q.model(), k as nat)],
        r matches Some(o) ==> o.wf(),
{
    let t = match q {
        Operation::Delete(n) => Operation::Delete(*n - k),
        Operation::Retain(a) => Operation::Retain(Retain { n: a.n - k, attributes: a.attributes.duplicate() }),
        Operation::Insert(a) => {
            let total = a.count_of_code_units();
            let s = sub_str(a.s.as_str(), k, total);
            proof {
                crate::operation::lemma_sub_units_fits(a.s@, k as int, total as int);
            }
            Operation::Insert(Insert { s, attributes: a.attributes.duplicate() })
        },
    };
    proof {
        assert(head_seq(Some(t)) =~= seq![t.model()]);
    }
    Some(t)
}

fn op_base_len(op: &Operation) -> (r: usize)
    requires
        op.wf(),
    ensures
        r == op_base(op.model()),
{
    match op {
        Operation::Insert(_) => 0,
        _ => op.len(),
    }
}

fn op_target_len(op: &Operation) -> (r: usize)
    requires
        op.wf(),
    ensures
        r == op_target(op.model()),
{
    match op {
        Operation::Delete(_) => 0,
        _ => op.len(),
    }
}

} // verus!
