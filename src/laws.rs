//! The composition law: running a composed delta is running both in turn.
use vstd::prelude::*;
use crate::delta::{
    apply_at, apply_model, base_of, build, compose_model, compose_rec, lemma_build_lengths,
    lemma_apply_at_length, lemma_lengths_front, lemma_push_lengths, lemma_single_units, merged, mergeable, op_base, op_len,
    push_op, single_units, tail_of, target_of, transform_model, transform_rec, transformed, trimmed, OpModel, emitted, op_target,
};
use crate::text::{chars_within, code_units, lemma_chars_within_mono, sub_units, unit_width};

verus! {

/// Every inserted text of `s` is made of characters of one code unit each.
pub open spec fn single_unit_inserts(s: Seq<OpModel>) -> bool {
    forall|i: int| 0 <= i < s.len() ==> (#[trigger] s[i] matches OpModel::Insert(t, _) ==> single_units(t))
}

proof fn lemma_no_units(s: Seq<char>)
    requires
        code_units(s) == 0,
    ensures
        s =~= Seq::<char>::empty(),
{
    if s.len() > 0 {
        assert(unit_width(s[0]) >= 1);
    }
}

proof fn lemma_sub_units_join(d: Seq<char>, a: int, b: int, c: int)
    requires
        0 <= a <= b <= c,
    ensures
        sub_units(d, a, b) + sub_units(d, b, c) == sub_units(d, a, c),
{
    lemma_chars_within_mono(d, a, b);
    lemma_chars_within_mono(d, b, c);
    crate::text::lemma_chars_within_bound(d, c);
    assert(d.subrange(chars_within(d, a) as int, chars_within(d, b) as int) + d.subrange(
        chars_within(d, b) as int,
        chars_within(d, c) as int,
    ) =~= d.subrange(chars_within(d, a) as int, chars_within(d, c) as int));
}

proof fn lemma_apply_one(o: OpModel, d: Seq<char>, p: int)
    ensures
        apply_at(seq![o], d, p) == match o {
            OpModel::Retain(n, _) => sub_units(d, p, p + n),
            OpModel::Insert(t, _) => t,
            OpModel::Delete(_) => Seq::<char>::empty(),
        },
{
    let s = seq![o];
    assert(s.drop_first() =~= Seq::<OpModel>::empty());
    assert(s[0] == o);
    assert(apply_at(Seq::<OpModel>::empty(), d, p) == Seq::<char>::empty());
    assert(apply_at(Seq::<OpModel>::empty(), d, p + op_base(o)) == Seq::<char>::empty());
    match o {
        OpModel::Retain(n, _) => assert(sub_units(d, p, p + n) + Seq::<char>::empty() =~= sub_units(d, p, p + n)),
        OpModel::Insert(t, _) => assert(t + Seq::<char>::empty() =~= t),
        OpModel::Delete(_) => {},
    }
}

proof fn lemma_apply_push(s: Seq<OpModel>, o: OpModel, d: Seq<char>, p: int)
    ensures
        apply_at(s.push(o), d, p) == apply_at(s, d, p) + apply_at(seq![o], d, p + base_of(s)),
    decreases s.len(),
{
    if s.len() == 0 {
        assert(s.push(o) =~= seq![o]);
        assert(apply_at(s, d, p) + apply_at(seq![o], d, p) =~= apply_at(seq![o], d, p));
    } else {
        lemma_lengths_front(s);
        assert(s.push(o).drop_first() =~= s.drop_first().push(o));
        assert(s.push(o)[0] == s[0]);
        let q = p + op_base(s[0]);
        lemma_apply_push(s.drop_first(), o, d, q);
        match s[0] {
            OpModel::Retain(n, _) => {
                assert(sub_units(d, p, p + n) + (apply_at(s.drop_first(), d, q) + apply_at(seq![o], d, q + base_of(s.drop_first())))
                    =~= (sub_units(d, p, p + n) + apply_at(s.drop_first(), d, q)) + apply_at(seq![o], d, q + base_of(s.drop_first())));
            },
            OpModel::Insert(t, _) => {
                assert(t + (apply_at(s.drop_first(), d, q) + apply_at(seq![o], d, q + base_of(s.drop_first())))
                    =~= (t + apply_at(s.drop_first(), d, q)) + apply_at(seq![o], d, q + base_of(s.drop_first())));
            },
            OpModel::Delete(_) => {},
        }
    }
}

proof fn lemma_apply_push_op(s: Seq<OpModel>, o: OpModel, d: Seq<char>, p: int)
    requires
        0 <= p,
    ensures
        apply_at(push_op(s, o), d, p) == apply_at(s.push(o), d, p),
{
    lemma_apply_push(s, o, d, p);
    lemma_apply_one(o, d, p + base_of(s));
    if op_len(o) == 0 {
        match o {
            OpModel::Retain(n, _) => {
                let q = p + base_of(s);
                assert(n == 0);
                crate::text::lemma_chars_within_bound(d, q);
                assert(sub_units(d, q, q + n) =~= Seq::<char>::empty());
            },
            OpModel::Insert(t, _) => lemma_no_units(t),
            OpModel::Delete(_) => {},
        }
        assert(apply_at(s, d, p) + apply_at(seq![o], d, p + base_of(s)) =~= apply_at(s, d, p));
    } else if s.len() > 0 && mergeable(s.last(), o) {
        let r = s.drop_last();
        let l = s.last();
        assert(r.push(l) =~= s);
        lemma_apply_push(r, l, d, p);
        lemma_apply_push(r, merged(l, o), d, p);
        lemma_push_lengths(r, l);
        let q = p + base_of(r);
        lemma_apply_one(l, d, q);
        lemma_apply_one(merged(l, o), d, q);
        match (l, o) {
            (OpModel::Retain(m, _), OpModel::Retain(n, _)) => {
                lemma_sub_units_join(d, q, q + m, q + m + n);
            },
            _ => {},
        }
        assert(apply_at(r, d, p) + apply_at(seq![merged(l, o)], d, q) =~= apply_at(r, d, p) + apply_at(seq![l], d, q)
            + apply_at(seq![o], d, q + op_base(l)));
    }
}

proof fn lemma_apply_build(s: Seq<OpModel>, d: Seq<char>, p: int)
    requires
        0 <= p,
    ensures
        apply_at(build(s), d, p) == apply_at(s, d, p),
    decreases s.len(),
{
    if s.len() > 0 {
        let r = s.drop_last();
        assert(r.push(s.last()) =~= s);
        lemma_apply_build(r, d, p);
        lemma_build_lengths(r);
        lemma_apply_push_op(build(r), s.last(), d, p);
        lemma_apply_push(build(r), s.last(), d, p);
        lemma_apply_push(r, s.last(), d, p);
    }
}

proof fn lemma_apply_cons(e: OpModel, c: Seq<OpModel>, d: Seq<char>, p: int)
    ensures
        apply_at(seq![e] + c, d, p) == match e {
            OpModel::Retain(n, _) => sub_units(d, p, p + n) + apply_at(c, d, p + n),
            OpModel::Insert(t, _) => t + apply_at(c, d, p),
            OpModel::Delete(n) => apply_at(c, d, p + n),
        },
{
    assert((seq![e] + c)[0] == e);
    assert((seq![e] + c).drop_first() =~= c);
}

proof fn lemma_apply_zero_base(y: Seq<OpModel>, d1: Seq<char>, q1: int, d2: Seq<char>, q2: int)
    requires
        base_of(y) == 0,
        0 <= q1,
        0 <= q2,
    ensures
        apply_at(y, d1, q1) == apply_at(y, d2, q2),
    decreases y.len(),
{
    if y.len() > 0 {
        lemma_lengths_front(y);
        lemma_apply_zero_base(y.drop_first(), d1, q1, d2, q2);
        if let OpModel::Retain(n, _) = y[0] {
            crate::text::lemma_chars_within_bound(d1, q1);
            crate::text::lemma_chars_within_bound(d2, q2);
            assert(sub_units(d1, q1, q1 + n) =~= Seq::<char>::empty());
            assert(sub_units(d2, q2, q2 + n) =~= Seq::<char>::empty());
        }
    }
}

proof fn lemma_single_skip(x: Seq<char>, j: int)
    requires
        single_units(x),
        0 <= j <= x.len(),
    ensures
        single_units(x.skip(j)),
        single_units(x.subrange(0, j)),
{
    assert forall|i: int| 0 <= i < x.skip(j).len() implies unit_width(#[trigger] x.skip(j)[i]) == 1 by {
        assert(x.skip(j)[i] == x[j + i]);
    }
    assert forall|i: int| 0 <= i < j implies unit_width(#[trigger] x.subrange(0, j)[i]) == 1 by {
        assert(x.subrange(0, j)[i] == x[i]);
    }
}

proof fn lemma_sub_units_single(x: Seq<char>, a: int, b: int)
    requires
        single_units(x),
        0 <= a <= b <= x.len(),
    ensures
        sub_units(x, a, b) == x.subrange(a, b),
{
    lemma_single_units(x);
    assert(chars_within(x, a) == a);
    assert(chars_within(x, b) == b);
}

proof fn lemma_apply_shift(y: Seq<OpModel>, x: Seq<char>, q: int, j: int)
    requires
        single_units(x),
        0 <= j <= q,
        j <= x.len(),
    ensures
        apply_at(y, x, q) == apply_at(y, x.skip(j), q - j),
    decreases y.len(),
{
    if y.len() > 0 {
        lemma_lengths_front(y);
        let n = op_base(y[0]) as int;
        lemma_apply_shift(y.drop_first(), x, q + n, j);
        if let OpModel::Retain(m, _) = y[0] {
            lemma_single_skip(x, j);
            lemma_single_units(x);
            lemma_single_units(x.skip(j));
            let u1 = chars_within(x, q);
            let u2 = chars_within(x, q + m);
            assert(chars_within(x.skip(j), q - j) == u1 - j);
            assert(chars_within(x.skip(j), q - j + m) == u2 - j);
            assert(sub_units(x, q, q + m) =~= sub_units(x.skip(j), q - j, q - j + m));
        }
    }
}

proof fn lemma_apply_single(x: Seq<OpModel>, d: Seq<char>, p: int)
    requires
        single_units(d),
        single_unit_inserts(x),
        0 <= p,
    ensures
        single_units(apply_at(x, d, p)),
    decreases x.len(),
{
    if x.len() > 0 {
        let r = x.drop_first();
        assert(single_unit_inserts(r)) by {
            assert forall|i: int| 0 <= i < r.len() implies (#[trigger] r[i] matches OpModel::Insert(t, _) ==> single_units(t)) by {
                assert(r[i] == x[i + 1]);
            }
        }
        lemma_apply_single(r, d, p + op_base(x[0]));
        let rest = apply_at(r, d, p + op_base(x[0]));
        let head = match x[0] {
            OpModel::Retain(n, _) => sub_units(d, p, p + n),
            OpModel::Insert(t, _) => t,
            OpModel::Delete(_) => Seq::<char>::empty(),
        };
        assert(x[0] matches OpModel::Insert(t, _) ==> single_units(t));
        if let OpModel::Retain(n, _) = x[0] {
            lemma_chars_within_mono(d, p, p + n);
            crate::text::lemma_chars_within_bound(d, p + n);
            assert forall|i: int| 0 <= i < head.len() implies unit_width(#[trigger] head[i]) == 1 by {
                assert(head[i] == d[chars_within(d, p) + i]);
            }
        }
        assert forall|i: int| 0 <= i < (head + rest).len() implies unit_width(#[trigger] (head + rest)[i]) == 1 by {
            if i < head.len() {
                assert((head + rest)[i] == head[i]);
            } else {
                assert((head + rest)[i] == rest[i - head.len()]);
            }
        }
        assert(apply_at(x, d, p) == head + rest);
    }
}

proof fn lemma_inserts_rest(x: Seq<OpModel>)
    requires
        x.len() > 0,
        single_unit_inserts(x),
    ensures
        single_unit_inserts(x.drop_first()),
        x[0] matches OpModel::Insert(t, _) ==> single_units(t),
{
    let r = x.drop_first();
    assert forall|i: int| 0 <= i < r.len() implies (#[trigger] r[i] matches OpModel::Insert(t, _) ==> single_units(t)) by {
        assert(r[i] == x[i + 1]);
    }
}

proof fn lemma_inserts_cons(o: OpModel, x: Seq<OpModel>)
    requires
        single_unit_inserts(x),
        o matches OpModel::Insert(t, _) ==> single_units(t),
    ensures
        single_unit_inserts(seq![o] + x),
{
    let r = seq![o] + x;
    assert forall|i: int| 0 <= i < r.len() implies (#[trigger] r[i] matches OpModel::Insert(t, _) ==> single_units(t)) by {
        if i > 0 {
            assert(r[i] == x[i - 1]);
        }
    }
}

#[verifier::rlimit(100)]
proof fn lemma_compose_rec_apply(x: Seq<OpModel>, y: Seq<OpModel>, d: Seq<char>, p: int)
    requires
        single_units(d),
        single_unit_inserts(x),
        0 <= p,
        p + base_of(x) == d.len(),
        target_of(x) >= base_of(y),
    ensures
        apply_at(compose_rec(x, y), d, p) == apply_at(y, apply_at(x, d, p), 0) + apply_at(x, d, p).skip(base_of(y) as int),
    decreases x.len() + y.len(),
{
    let xx = apply_at(x, d, p);
    lemma_single_units(d);
    lemma_apply_single(x, d, p);
    lemma_apply_at_length(x, d, p);
    lemma_single_units(xx);
    if x.len() == 0 {
        lemma_apply_zero_base(y, d, p, xx, 0);
        lemma_no_units(xx);
        assert(apply_at(y, xx, 0) + xx.skip(base_of(y) as int) =~= apply_at(y, xx, 0));
    } else if y.len() == 0 {
        assert(apply_at(y, xx, 0) + xx.skip(base_of(y) as int) =~= xx);
    } else {
        lemma_lengths_front(x);
        lemma_lengths_front(y);
        lemma_inserts_rest(x);
        let x1 = x.drop_first();
        let y1 = y.drop_first();
        if op_len(x[0]) == 0 {
            lemma_compose_rec_apply(x1, y, d, p);
            match x[0] {
                OpModel::Retain(n, _) => {
                    crate::text::lemma_chars_within_bound(d, p);
                    assert(sub_units(d, p, p + n) =~= Seq::<char>::empty());
                    assert(Seq::<char>::empty() + apply_at(x1, d, p) =~= apply_at(x1, d, p));
                },
                OpModel::Insert(t, _) => {
                    lemma_no_units(t);
                    assert(t + apply_at(x1, d, p) =~= apply_at(x1, d, p));
                },
                OpModel::Delete(_) => {},
            }
        } else if op_len(y[0]) == 0 {
            lemma_compose_rec_apply(x, y1, d, p);
            match y[0] {
                OpModel::Retain(n, _) => {
                    crate::text::lemma_chars_within_bound(xx, 0);
                    assert(sub_units(xx, 0, n as int) =~= Seq::<char>::empty());
                    assert(Seq::<char>::empty() + apply_at(y1, xx, 0) =~= apply_at(y1, xx, 0));
                },
                OpModel::Insert(t, _) => {
                    lemma_no_units(t);
                    assert(t + apply_at(y1, xx, 0) =~= apply_at(y1, xx, 0));
                },
                OpModel::Delete(_) => {},
            }
        } else if x[0] is Delete {
            let n = op_base(x[0]) as int;
            lemma_compose_rec_apply(x1, y, d, p + n);
            lemma_apply_cons(x[0], compose_rec(x1, y), d, p);
        } else if y[0] is Insert {
            lemma_compose_rec_apply(x, y1, d, p);
            lemma_apply_cons(y[0], compose_rec(x, y1), d, p);
            if let OpModel::Insert(t, _) = y[0] {
                assert(t + (apply_at(y1, xx, 0) + xx.skip(base_of(y1) as int)) =~= (t + apply_at(y1, xx, 0)) + xx.skip(base_of(y) as int));
            }
        } else {
            let n = op_len(x[0]) as int;
            let m = op_len(y[0]) as int;
            let k = if n < m { n } else { m };
            let xr = if n > k { seq![tail_of(x[0], k as nat)] + x1 } else { x1 };
            let yr = if m > k { seq![tail_of(y[0], k as nat)] + y1 } else { y1 };
            let c = if x[0] is Retain { k } else { 0 };
            // what the first delta leaves after its first k code units of output
            assert(xx.len() >= k);
            let tail_x = xx.skip(k);
            assert(apply_at(xr, d, p + c) == tail_x) by {
                match x[0] {
                    OpModel::Retain(_, _) => {
                        lemma_sub_units_single(d, p, p + n);
                        if n > k {
                            lemma_apply_cons(xr[0], x1, d, p + k);
                            assert(xr.drop_first() =~= x1);
                            lemma_sub_units_single(d, p + k, p + n);
                        }
                        assert(d.subrange(p, p + n) + apply_at(x1, d, p + n) == xx);
                    },
                    OpModel::Insert(t, _) => {
                        lemma_single_units(t);
                        if n > k {
                            lemma_apply_cons(xr[0], x1, d, p);
                            lemma_sub_units_single(t, k, n);
                        }
                    },
                    OpModel::Delete(_) => {},
                }
                assert(apply_at(xr, d, p + c) =~= tail_x);
            }
            assert(single_unit_inserts(xr)) by {
                if n > k {
                    if let OpModel::Insert(t, _) = x[0] {
                        lemma_single_units(t);
                        lemma_sub_units_single(t, k, n);
                        lemma_single_skip(t.subrange(k, n), 0);
                        assert(t.subrange(k, n).skip(0) =~= t.subrange(k, n));
                        assert forall|i: int| 0 <= i < t.subrange(k, n).len() implies unit_width(#[trigger] t.subrange(k, n)[i]) == 1 by {
                            assert(t.subrange(k, n)[i] == t[k + i]);
                        }
                    }
                    lemma_inserts_cons(tail_of(x[0], k as nat), x1);
                }
            }
            assert(base_of(xr) + p + c == d.len() && target_of(xr) >= base_of(yr) && base_of(yr) == base_of(y) - k) by {
                if n > k {
                    lemma_lengths_front(xr);
                    assert(xr.drop_first() =~= x1);
                    if let OpModel::Insert(t, _) = x[0] {
                        lemma_single_units(t);
                        lemma_sub_units_single(t, k, n);
                        let u = t.subrange(k, n);
                        assert forall|i: int| 0 <= i < u.len() implies unit_width(#[trigger] u[i]) == 1 by {
                            assert(u[i] == t[k + i]);
                        }
                        lemma_single_units(u);
                    }
                }
                if m > k {
                    lemma_lengths_front(yr);
                    assert(yr.drop_first() =~= y1);
                }
            }
            lemma_compose_rec_apply(xr, yr, d, p + c);
            // what the second delta does with that output
            let head_x = xx.subrange(0, k);
            lemma_single_skip(xx, k);
            assert(apply_at(y, xx, 0) == (if y[0] is Retain { head_x } else { Seq::<char>::empty() }) + apply_at(yr, tail_x, 0)) by {
                lemma_apply_shift(y1, xx, m, k);
                lemma_sub_units_single(xx, 0, k);
                if m > k {
                    lemma_apply_cons(yr[0], y1, tail_x, 0);
                    assert(yr.drop_first() =~= y1);
                    lemma_apply_shift(y1, xx, m, k);
                    lemma_single_units(tail_x);
                    if y[0] is Retain {
                        lemma_sub_units_single(xx, 0, m);
                        lemma_sub_units_single(tail_x, 0, m - k);
                        assert(xx.subrange(0, m) =~= head_x + tail_x.subrange(0, m - k));
                    }
                } else {
                    if y[0] is Retain {
                        lemma_sub_units_single(xx, 0, m);
                    }
                }
                if y[0] is Retain {
                    assert(sub_units(xx, 0, m) + apply_at(y1, xx, m) == apply_at(y, xx, 0));
                }
                assert(apply_at(y, xx, 0) =~= (if y[0] is Retain { head_x } else { Seq::<char>::empty() }) + apply_at(yr, tail_x, 0));
            }
            // what the composed delta emits
            let em = emitted(x[0], y[0], k as nat);
            let rest = compose_rec(xr, yr);
            assert(compose_rec(x, y) == em + rest);
            assert(tail_x.skip(base_of(yr) as int) =~= xx.skip(base_of(y) as int));
            let tl = xx.skip(base_of(y) as int);
            let lhs_core = apply_at(yr, tail_x, 0);
            match (x[0], y[0]) {
                (OpModel::Retain(_, _), OpModel::Retain(_, _)) => {
                    lemma_apply_cons(em[0], rest, d, p);
                    assert(seq![em[0]] + rest =~= em + rest);
                    lemma_sub_units_single(d, p, p + k);
                    lemma_sub_units_single(d, p, p + n);
                    assert(head_x =~= d.subrange(p, p + k));
                    assert(head_x + (lhs_core + tl) =~= (head_x + lhs_core) + tl);
                },
                (OpModel::Retain(_, _), _) => {
                    lemma_apply_cons(em[0], rest, d, p);
                    assert(seq![em[0]] + rest =~= em + rest);
                },
                (OpModel::Insert(t, _), OpModel::Retain(_, _)) => {
                    lemma_apply_cons(em[0], rest, d, p);
                    assert(seq![em[0]] + rest =~= em + rest);
                    lemma_single_units(t);
                    lemma_sub_units_single(t, 0, k);
                    assert(head_x =~= t.subrange(0, k));
                    assert(head_x + (lhs_core + tl) =~= (head_x + lhs_core) + tl);
                },
                _ => {
                    assert(em + rest =~= rest);
                },
            }
            assert(Seq::<char>::empty() + lhs_core =~= lhs_core);
        }
    }
}

/// Running the composition of `a` and `b` on a text is running `a` and then `b`, for a
/// text and inserted texts whose characters each take one code unit. Where `b` expects
/// less than `a` produces, the rest of `a`'s output is kept as it is.
pub proof fn lemma_compose_apply(a: Seq<OpModel>, b: Seq<OpModel>, d: Seq<char>)
    requires
        single_units(d),
        single_unit_inserts(a),
        code_units(d) == base_of(a),
        base_of(b) <= target_of(a),
    ensures
        apply_model(compose_model(a, b), d) == apply_model(b, apply_model(a, d)) + apply_model(a, d).skip(
            base_of(b) as int,
        ),
        base_of(b) == target_of(a) ==> apply_model(compose_model(a, b), d) == apply_model(b, apply_model(a, d)),
{
    lemma_single_units(d);
    lemma_apply_build(compose_rec(a, b), d, 0);
    lemma_compose_rec_apply(a, b, d, 0);
    lemma_apply_at_length(a, d, 0);
    lemma_apply_single(a, d, 0);
    lemma_single_units(apply_model(a, d));
    if base_of(b) == target_of(a) {
        assert(apply_model(b, apply_model(a, d)) + apply_model(a, d).skip(base_of(b) as int) =~= apply_model(b, apply_model(a, d)));
    }
}

/// Consuming the first `k` code units of a leading retain or delete of `x`.
proof fn lemma_consume_head(x: Seq<OpModel>, d: Seq<char>, p: int, k: int)
    requires
        single_units(d),
        single_unit_inserts(x),
        x.len() > 0,
        !(x[0] is Insert),
        0 < k <= op_len(x[0]),
        0 <= p,
        p + base_of(x) == d.len(),
    ensures
        ({
            let xr = if op_len(x[0]) > k { seq![tail_of(x[0], k as nat)] + x.drop_first() } else { x.drop_first() };
            &&& apply_at(x, d, p) == (if x[0] is Retain { d.subrange(p, p + k) } else { Seq::<char>::empty() })
                + apply_at(xr, d, p + k)
            &&& base_of(xr) == base_of(x) - k
            &&& target_of(xr) == target_of(x) - (if x[0] is Retain { k } else { 0 })
            &&& single_unit_inserts(xr)
        }),
{
    let x1 = x.drop_first();
    let n = op_len(x[0]) as int;
    let xr = if n > k { seq![tail_of(x[0], k as nat)] + x1 } else { x1 };
    lemma_lengths_front(x);
    lemma_inserts_rest(x);
    if n > k {
        lemma_lengths_front(xr);
        assert(xr.drop_first() =~= x1);
        assert(xr[0] == tail_of(x[0], k as nat));
        lemma_inserts_cons(tail_of(x[0], k as nat), x1);
        lemma_apply_cons(tail_of(x[0], k as nat), x1, d, p + k);
    }
    if x[0] is Retain {
        lemma_sub_units_single(d, p, p + n);
        if n > k {
            lemma_sub_units_single(d, p + k, p + n);
        }
        assert(apply_at(x, d, p) =~= d.subrange(p, p + k) + apply_at(xr, d, p + k));
    } else {
        assert(apply_at(x, d, p) =~= Seq::<char>::empty() + apply_at(xr, d, p + k));
    }
}

#[verifier::rlimit(100)]
proof fn lemma_transform_rec(x: Seq<OpModel>, y: Seq<OpModel>, d: Seq<char>, p: int)
    requires
        single_units(d),
        single_unit_inserts(x),
        single_unit_inserts(y),
        0 <= p,
        p + base_of(x) == d.len(),
        base_of(x) == base_of(y),
    ensures
        ({
            let t = transform_rec(x, y);
            &&& apply_at(t.1, apply_at(x, d, p), 0) == apply_at(t.0, apply_at(y, d, p), 0)
            &&& base_of(t.1) == target_of(x)
            &&& base_of(t.0) == target_of(y)
            &&& single_unit_inserts(t.0)
            &&& single_unit_inserts(t.1)
        }),
    decreases x.len() + y.len(),
{
    let xx = apply_at(x, d, p);
    let yy = apply_at(y, d, p);
    lemma_single_units(d);
    lemma_apply_single(x, d, p);
    lemma_apply_single(y, d, p);
    lemma_apply_at_length(x, d, p);
    lemma_apply_at_length(y, d, p);
    lemma_single_units(xx);
    lemma_single_units(yy);
    let t = transform_rec(x, y);
    if x.len() == 0 && y.len() == 0 {
        assert(single_unit_inserts(t.0));
        assert(single_unit_inserts(t.1));
    } else if x.len() > 0 && op_len(x[0]) == 0 {
        lemma_lengths_front(x);
        lemma_inserts_rest(x);
        let x1 = x.drop_first();
        lemma_transform_rec(x1, y, d, p);
        match x[0] {
            OpModel::Retain(n, _) => {
                crate::text::lemma_chars_within_bound(d, p);
                assert(sub_units(d, p, p + n) =~= Seq::<char>::empty());
                assert(Seq::<char>::empty() + apply_at(x1, d, p) =~= apply_at(x1, d, p));
            },
            OpModel::Insert(s, _) => {
                lemma_no_units(s);
                assert(s + apply_at(x1, d, p) =~= apply_at(x1, d, p));
            },
            OpModel::Delete(_) => {},
        }
    } else if y.len() > 0 && op_len(y[0]) == 0 {
        lemma_lengths_front(y);
        lemma_inserts_rest(y);
        let y1 = y.drop_first();
        lemma_transform_rec(x, y1, d, p);
        match y[0] {
            OpModel::Retain(n, _) => {
                crate::text::lemma_chars_within_bound(d, p);
                assert(sub_units(d, p, p + n) =~= Seq::<char>::empty());
                assert(Seq::<char>::empty() + apply_at(y1, d, p) =~= apply_at(y1, d, p));
            },
            OpModel::Insert(s, _) => {
                lemma_no_units(s);
                assert(s + apply_at(y1, d, p) =~= apply_at(y1, d, p));
            },
            OpModel::Delete(_) => {},
        }
    } else if x.len() > 0 && x[0] is Insert {
        lemma_lengths_front(x);
        lemma_inserts_rest(x);
        let x1 = x.drop_first();
        let r = transform_rec(x1, y);
        lemma_transform_rec(x1, y, d, p);
        if let OpModel::Insert(s, _) = x[0] {
            let n = s.len() as int;
            lemma_single_units(s);
            let x1d = apply_at(x1, d, p);
            assert(xx == s + x1d);
            let rt = OpModel::Retain(n as nat, Seq::empty());
            lemma_apply_cons(rt, r.1, xx, 0);
            lemma_apply_cons(x[0], r.0, yy, 0);
            lemma_single_skip(xx, n);
            lemma_sub_units_single(xx, 0, n);
            assert(xx.subrange(0, n) =~= s);
            assert(xx.skip(n) =~= x1d);
            lemma_apply_shift(r.1, xx, n, n);
            lemma_lengths_front(t.0);
            lemma_lengths_front(t.1);
            assert(t.0.drop_first() =~= r.0);
            assert(t.1.drop_first() =~= r.1);
            lemma_inserts_cons(x[0], r.0);
            lemma_inserts_cons(rt, r.1);
        }
    } else if y.len() > 0 && y[0] is Insert {
        lemma_lengths_front(y);
        lemma_inserts_rest(y);
        let y1 = y.drop_first();
        let r = transform_rec(x, y1);
        lemma_transform_rec(x, y1, d, p);
        if let OpModel::Insert(s, _) = y[0] {
            let n = s.len() as int;
            lemma_single_units(s);
            let y1d = apply_at(y1, d, p);
            assert(yy == s + y1d);
            let rt = OpModel::Retain(n as nat, Seq::empty());
            lemma_apply_cons(rt, r.0, yy, 0);
            lemma_apply_cons(y[0], r.1, xx, 0);
            lemma_single_skip(yy, n);
            lemma_sub_units_single(yy, 0, n);
            assert(yy.subrange(0, n) =~= s);
            assert(yy.skip(n) =~= y1d);
            lemma_apply_shift(r.0, yy, n, n);
            lemma_lengths_front(t.0);
            lemma_lengths_front(t.1);
            assert(t.0.drop_first() =~= r.0);
            assert(t.1.drop_first() =~= r.1);
            lemma_inserts_cons(y[0], r.1);
            lemma_inserts_cons(rt, r.0);
        }
    } else if x.len() == 0 {
        lemma_lengths_front(y);
    } else if y.len() == 0 {
        lemma_lengths_front(x);
    } else {
        let n = op_len(x[0]) as int;
        let m = op_len(y[0]) as int;
        let k = if n < m { n } else { m };
        let xr = if n > k { seq![tail_of(x[0], k as nat)] + x.drop_first() } else { x.drop_first() };
        let yr = if m > k { seq![tail_of(y[0], k as nat)] + y.drop_first() } else { y.drop_first() };
        lemma_consume_head(x, d, p, k);
        lemma_consume_head(y, d, p, k);
        lemma_transform_rec(xr, yr, d, p + k);
        let r = transform_rec(xr, yr);
        let e = transformed(x[0], y[0], k as nat);
        let xd = apply_at(xr, d, p + k);
        let yd = apply_at(yr, d, p + k);
        let h = d.subrange(p, p + k);
        assert(t.0 == e.0 + r.0 && t.1 == e.1 + r.1);
        if x[0] is Retain {
            lemma_single_skip(xx, k);
            assert(xx.skip(k) =~= xd);
            lemma_sub_units_single(xx, 0, k);
            assert(xx.subrange(0, k) =~= h);
        }
        if y[0] is Retain {
            lemma_single_skip(yy, k);
            assert(yy.skip(k) =~= yd);
            lemma_sub_units_single(yy, 0, k);
            assert(yy.subrange(0, k) =~= h);
        }
        match (x[0], y[0]) {
            (OpModel::Retain(_, _), OpModel::Retain(_, _)) => {
                lemma_apply_cons(e.1[0], r.1, xx, 0);
                lemma_apply_cons(e.0[0], r.0, yy, 0);
                assert(seq![e.1[0]] + r.1 =~= t.1);
                assert(seq![e.0[0]] + r.0 =~= t.0);
                lemma_apply_shift(r.1, xx, k, k);
                lemma_apply_shift(r.0, yy, k, k);
                lemma_lengths_front(t.0);
                lemma_lengths_front(t.1);
                assert(t.0.drop_first() =~= r.0);
                assert(t.1.drop_first() =~= r.1);
                lemma_inserts_cons(e.0[0], r.0);
                lemma_inserts_cons(e.1[0], r.1);
            },
            (OpModel::Delete(_), OpModel::Retain(_, _)) => {
                lemma_apply_cons(e.0[0], r.0, yy, 0);
                assert(seq![e.0[0]] + r.0 =~= t.0);
                assert(e.1 + r.1 =~= r.1);
                lemma_apply_shift(r.0, yy, k, k);
                lemma_lengths_front(t.0);
                assert(t.0.drop_first() =~= r.0);
                lemma_inserts_cons(e.0[0], r.0);
            },
            (OpModel::Retain(_, _), OpModel::Delete(_)) => {
                lemma_apply_cons(e.1[0], r.1, xx, 0);
                assert(seq![e.1[0]] + r.1 =~= t.1);
                assert(e.0 + r.0 =~= r.0);
                lemma_apply_shift(r.1, xx, k, k);
                lemma_lengths_front(t.1);
                assert(t.1.drop_first() =~= r.1);
                lemma_inserts_cons(e.1[0], r.1);
            },
            _ => {
                assert(e.0 + r.0 =~= r.0);
                assert(e.1 + r.1 =~= r.1);
            },
        }
    }
}

/// Convergence: two concurrent deltas, each followed by the other's transformed form,
/// leave a text in the same state, for a text and inserted texts whose characters each
/// take one code unit.
pub proof fn lemma_transform_converges(a: Seq<OpModel>, b: Seq<OpModel>, d: Seq<char>)
    requires
        single_units(d),
        single_unit_inserts(a),
        single_unit_inserts(b),
        code_units(d) == base_of(a),
        base_of(a) == base_of(b),
    ensures
        apply_model(compose_model(a, transform_model(a, b).1), d) == apply_model(
            compose_model(b, transform_model(a, b).0),
            d,
        ),
{
    lemma_single_units(d);
    let t = transform_rec(a, b);
    lemma_transform_rec(a, b, d, 0);
    lemma_build_lengths(t.0);
    lemma_build_lengths(t.1);
    lemma_compose_apply(a, build(t.1), d);
    lemma_compose_apply(b, build(t.0), d);
    lemma_apply_build(t.1, apply_model(a, d), 0);
    lemma_apply_build(t.0, apply_model(b, d), 0);
}

/// Dropping a trailing plain retain keeps what a delta does, once the text past its end is kept.
proof fn lemma_trimmed_apply(s: Seq<OpModel>, x: Seq<char>)
    requires
        single_units(x),
        base_of(s) == x.len(),
    ensures
        base_of(trimmed(s)) <= base_of(s),
        apply_at(trimmed(s), x, 0) + x.skip(base_of(trimmed(s)) as int) == apply_at(s, x, 0),
{
    if s.len() > 0 && (s.last() matches OpModel::Retain(_, al) && al.len() == 0) {
        let r = s.drop_last();
        assert(r.push(s.last()) =~= s);
        lemma_push_lengths(r, s.last());
        lemma_apply_push(r, s.last(), x, 0);
        lemma_apply_one(s.last(), x, base_of(r) as int);
        lemma_sub_units_single(x, base_of(r) as int, x.len() as int);
        assert(x.subrange(base_of(r) as int, x.len() as int) =~= x.skip(base_of(r) as int));
    } else {
        assert(apply_at(s, x, 0) + x.skip(base_of(s) as int) =~= apply_at(s, x, 0));
    }
}

/// Convergence of what `transform` returns: each delta followed by the other's transformed
/// and trimmed form leaves a text in the same state, for a text and inserted texts whose
/// characters each take one code unit.
pub proof fn lemma_transform_results_converge(a: Seq<OpModel>, b: Seq<OpModel>, d: Seq<char>)
    requires
        single_units(d),
        single_unit_inserts(a),
        single_unit_inserts(b),
        code_units(d) == base_of(a),
        base_of(a) == base_of(b),
    ensures
        apply_model(compose_model(a, trimmed(transform_model(a, b).1)), d) == apply_model(
            compose_model(b, trimmed(transform_model(a, b).0)),
            d,
        ),
{
    lemma_single_units(d);
    let t = transform_rec(a, b);
    let tm = transform_model(a, b);
    lemma_transform_rec(a, b, d, 0);
    lemma_build_lengths(t.0);
    lemma_build_lengths(t.1);
    let xa = apply_model(a, d);
    let xb = apply_model(b, d);
    lemma_apply_at_length(a, d, 0);
    lemma_apply_at_length(b, d, 0);
    lemma_apply_single(a, d, 0);
    lemma_apply_single(b, d, 0);
    lemma_single_units(xa);
    lemma_single_units(xb);
    lemma_apply_build(t.1, xa, 0);
    lemma_apply_build(t.0, xb, 0);
    lemma_trimmed_apply(tm.1, xa);
    lemma_trimmed_apply(tm.0, xb);
    lemma_compose_apply(a, trimmed(tm.1), d);
    lemma_compose_apply(b, trimmed(tm.0), d);
}

} // verus!
