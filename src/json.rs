//! The JSON form of a delta: an array of `{"retain": n, "attributes": {..}}`,
//! `{"insert": "text", "attributes": {..}}` and `{"delete": n}` objects, with
//! `attributes` left out when there are none.
use vstd::prelude::*;
use vstd::string::{StrSliceExecFns, StringExecFns};
use crate::attributes::{AttributeValue, Attributes, ValueModel};
use crate::delta::{Delta, OpModel};
use crate::operation::Operation;
use crate::rev::{hex_char, hex_digit};

verus! {

pub open spec fn escape_char(c: char) -> Seq<char> {
    if c == '"' {
        seq!['\\', '"']
    } else if c == '\\' {
        seq!['\\', '\\']
    } else if c == '\n' {
        seq!['\\', 'n']
    } else if c == '\r' {
        seq!['\\', 'r']
    } else if c == '\t' {
        seq!['\\', 't']
    } else if (c as u32) < 0x20 {
        seq!['\\', 'u', '0', '0', hex_digit((c as u32) as int / 16), hex_digit((c as u32) as int % 16)]
    } else {
        seq![c]
    }
}

pub open spec fn escaped(s: Seq<char>) -> Seq<char>
    decreases s.len(),
{
    if s.len() == 0 {
        Seq::empty()
    } else {
        escaped(s.drop_last()) + escape_char(s.last())
    }
}

/// A JSON string literal holding `s`.
pub open spec fn json_str(s: Seq<char>) -> Seq<char> {
    seq!['"'] + escaped(s) + seq!['"']
}

pub open spec fn digit(n: nat) -> char {
    (('0' as int) + n) as char
}

/// Decimal digits of `n`.
pub open spec fn decimal(n: nat) -> Seq<char>
    decreases n,
{
    if n < 10 {
        seq![digit(n)]
    } else {
        decimal(n / 10) + seq![digit(n % 10)]
    }
}

pub open spec fn json_int(i: int) -> Seq<char> {
    if i < 0 {
        seq!['-'] + decimal((-i) as nat)
    } else {
        decimal(i as nat)
    }
}

pub open spec fn json_value(v: ValueModel) -> Seq<char> {
    match v {
        ValueModel::Null => seq!['n', 'u', 'l', 'l'],
        ValueModel::Bool(b) => if b { seq!['t', 'r', 'u', 'e'] } else { seq!['f', 'a', 'l', 's', 'e'] },
        ValueModel::Int(i) => json_int(i),
        ValueModel::Str(s) => json_str(s),
    }
}

/// The members `"key":value` of the entries, separated by commas.
pub open spec fn json_members(a: Seq<(Seq<char>, ValueModel)>) -> Seq<char>
    decreases a.len(),
{
    if a.len() == 0 {
        Seq::empty()
    } else {
        let e = json_str(a.last().0) + seq![':'] + json_value(a.last().1);
        if a.len() == 1 {
            e
        } else {
            json_members(a.drop_last()) + seq![','] + e
        }
    }
}

/// `,"attributes":{..}`, or nothing when there are no attributes.
pub open spec fn json_attributes_field(a: Seq<(Seq<char>, ValueModel)>) -> Seq<char> {
    if a.len() == 0 {
        Seq::empty()
    } else {
        ",\"attributes\":{"@ + json_members(a) + seq!['}']
    }
}

pub open spec fn json_op(o: OpModel) -> Seq<char> {
    match o {
        OpModel::Retain(n, a) => "{\"retain\":"@ + decimal(n) + json_attributes_field(a) + seq!['}'],
        OpModel::Insert(s, a) => "{\"insert\":"@ + json_str(s) + json_attributes_field(a) + seq!['}'],
        OpModel::Delete(n) => "{\"delete\":"@ + decimal(n) + seq!['}'],
    }
}

pub open spec fn json_ops(s: Seq<OpModel>) -> Seq<char>
    decreases s.len(),
{
    if s.len() == 0 {
        Seq::empty()
    } else if s.len() == 1 {
        json_op(s[0])
    } else {
        json_ops(s.drop_last()) + seq![','] + json_op(s.last())
    }
}

/// The JSON text of the operations `s`.
pub open spec fn json_delta(s: Seq<OpModel>) -> Seq<char> {
    seq!['['] + json_ops(s) + seq![']']
}

fn push_str(out: &mut String, lit: &str)
    ensures
        final(out)@ == old(out)@ + lit@,
{
    out.append(lit);
}

fn escape_into(out: &mut String, s: &str)
    ensures
        final(out)@ == old(out)@ + escaped(s@),
{
    let n = s.unicode_len();
    let mut i: usize = 0;
    let ghost start = out@;
    proof {
        assert(s@.take(0) =~= Seq::<char>::empty());
        assert(start + escaped(s@.take(0)) =~= start);
    }
    while i < n
        invariant
            n == s@.len(),
            i <= n,
            out@ == start + escaped(s@.take(i as int)),
        decreases n - i,
    {
        let c = s.get_char(i);
        let ghost before = out@;
        proof {
            reveal_strlit("\\\"");
            reveal_strlit("\\\\");
            reveal_strlit("\\n");
            reveal_strlit("\\r");
            reveal_strlit("\\t");
            reveal_strlit("\\u00");
        }
        if c == '"' {
            push_str(out, "\\\"");
        } else if c == '\\' {
            push_str(out, "\\\\");
        } else if c == '\n' {
            push_str(out, "\\n");
        } else if c == '\r' {
            push_str(out, "\\r");
        } else if c == '\t' {
            push_str(out, "\\t");
        } else if (c as u32) < 0x20 {
            push_str(out, "\\u00");
            let v = (c as u32) as u8;
            let hi = hex_char(v / 16);
            let lo = hex_char(v % 16);
            out.append(hi.as_str());
            out.append(lo.as_str());
        } else {
            out.append(s.substring_char(i, i + 1));
            proof {
                assert(s@.subrange(i as int, i + 1) =~= seq![c]);
            }
        }
        proof {
            assert(s@.take(i + 1).drop_last() =~= s@.take(i as int));
            assert(s@.take(i + 1).last() == c);
            assert(out@ =~= before + escape_char(c));
        }
        i = i + 1;
    }
    proof {
        assert(s@.take(n as int) =~= s@);
    }
}

fn digit_str(n: u64) -> (r: String)
    requires
        n < 10,
    ensures
        r@ == seq![digit(n as nat)],
{
    let digits = "0123456789";
    proof {
        reveal_strlit("0123456789");
    }
    let r = digits.substring_char(n as usize, n as usize + 1).to_owned();
    proof {
        assert(digits@[n as int] == digit(n as nat));
        assert(r@ =~= seq![digit(n as nat)]);
    }
    r
}

fn decimal_into(out: &mut String, n: u64)
    ensures
        final(out)@ == old(out)@ + decimal(n as nat),
    decreases n,
{
    if n < 10 {
        let d = digit_str(n);
        out.append(d.as_str());
    } else {
        decimal_into(out, n / 10);
        let d = digit_str(n % 10);
        out.append(d.as_str());
        proof {
            assert(out@ =~= old(out)@ + (decimal((n / 10) as nat) + seq![digit((n % 10) as nat)]));
        }
    }
}

fn value_into(out: &mut String, v: &AttributeValue)
    ensures
        final(out)@ == old(out)@ + json_value(v@),
{
    proof {
        reveal_strlit("null");
        reveal_strlit("true");
        reveal_strlit("false");
        reveal_strlit("-");
        reveal_strlit("\"");
    }
    match v {
        AttributeValue::Null => push_str(out, "null"),
        AttributeValue::Bool(b) => {
            if *b {
                push_str(out, "true");
            } else {
                push_str(out, "false");
            }
        },
        AttributeValue::Int(i) => {
            if *i < 0 {
                push_str(out, "-");
                let m = (-(*i as i128)) as u64;
                decimal_into(out, m);
                proof {
                    assert(out@ =~= old(out)@ + (seq!['-'] + decimal((-(*i as int)) as nat)));
                }
            } else {
                decimal_into(out, *i as u64);
            }
        },
        AttributeValue::Str(s) => {
            push_str(out, "\"");
            escape_into(out, s.as_str());
            push_str(out, "\"");
            proof {
                assert(out@ =~= old(out)@ + json_str(s@));
            }
        },
    }
}

fn members_into(out: &mut String, a: &Attributes)
    ensures
        final(out)@ == old(out)@ + json_members(a@),
{
    let n = a.inner.len();
    let mut i: usize = 0;
    let ghost start = out@;
    proof {
        assert(a@.take(0) =~= Seq::<(Seq<char>, ValueModel)>::empty());
        assert(start + json_members(a@.take(0)) =~= start);
    }
    while i < n
        invariant
            n == a.inner@.len(),
            i <= n,
            out@ == start + json_members(a@.take(i as int)),
        decreases n - i,
    {
        let e = &a.inner[i];
        let ghost before = out@;
        proof {
            reveal_strlit(",");
            reveal_strlit("\"");
            reveal_strlit(":");
        }
        if i > 0 {
            push_str(out, ",");
        }
        push_str(out, "\"");
        escape_into(out, e.key.as_str());
        push_str(out, "\"");
        push_str(out, ":");
        value_into(out, &e.value);
        proof {
            let t = a@.take(i + 1);
            assert(t.drop_last() =~= a@.take(i as int));
            assert(t.last() == e.model());
            let m = json_str(e.key@) + seq![':'] + json_value(e.value@);
            if i > 0 {
                assert(out@ =~= before + (seq![','] + m));
            } else {
                assert(out@ =~= before + m);
            }
        }
        i = i + 1;
    }
    proof {
        assert(a@.take(n as int) =~= a@);
    }
}

fn attributes_into(out: &mut String, a: &Attributes)
    ensures
        final(out)@ == old(out)@ + json_attributes_field(a@),
{
    if a.is_empty() {
        proof {
            assert(old(out)@ + json_attributes_field(a@) =~= old(out)@);
        }
        return;
    }
    proof {
        reveal_strlit(",\"attributes\":{");
        reveal_strlit("}");
    }
    push_str(out, ",\"attributes\":{");
    members_into(out, a);
    push_str(out, "}");
    proof {
        assert(out@ =~= old(out)@ + json_attributes_field(a@));
    }
}

fn op_into(out: &mut String, op: &Operation)
    ensures
        final(out)@ == old(out)@ + json_op(op.model()),
{
    proof {
        reveal_strlit("{\"retain\":");
        reveal_strlit("{\"insert\":");
        reveal_strlit("{\"delete\":");
        reveal_strlit("}");
        reveal_strlit("\"");
    }
    match op {
        Operation::Retain(r) => {
            push_str(out, "{\"retain\":");
            decimal_into(out, r.n as u64);
            attributes_into(out, &r.attributes);
            push_str(out, "}");
            proof {
                assert(out@ =~= old(out)@ + json_op(op.model()));
            }
        },
        Operation::Insert(t) => {
            push_str(out, "{\"insert\":");
            push_str(out, "\"");
            escape_into(out, t.s.as_str());
            push_str(out, "\"");
            attributes_into(out, &t.attributes);
            push_str(out, "}");
            proof {
                assert(out@ =~= old(out)@ + json_op(op.model()));
            }
        },
        Operation::Delete(n) => {
            push_str(out, "{\"delete\":");
            decimal_into(out, *n as u64);
            push_str(out, "}");
            proof {
                assert(out@ =~= old(out)@ + json_op(op.model()));
            }
        },
    }
}

impl Delta {
    /// The JSON text of this delta.
    pub fn to_json(&self) -> (r: String)
        ensures
            r@ == json_delta(self@),
    {
        let mut out = String::new();
        proof {
            reveal_strlit("[");
            reveal_strlit("]");
            reveal_strlit(",");
        }
        push_str(&mut out, "[");
        let ghost start = out@;
        let n = self.ops.len();
        let mut i: usize = 0;
        proof {
            assert(self@.take(0) =~= Seq::<OpModel>::empty());
            assert(start + json_ops(self@.take(0)) =~= start);
        }
        while i < n
            invariant
                n == self.ops@.len(),
                i <= n,
                out@ == start + json_ops(self@.take(i as int)),
                start == seq!['['],
            decreases n - i,
        {
            let ghost before = out@;
            proof {
                reveal_strlit(",");
            }
            if i > 0 {
                push_str(&mut out, ",");
            }
            op_into(&mut out, &self.ops[i]);
            proof {
                let t = self@.take(i + 1);
                assert(t.drop_last() =~= self@.take(i as int));
                assert(t.last() == self.ops@[i as int].model());
                if i > 0 {
                    assert(out@ =~= before + (seq![','] + json_op(t.last())));
                } else {
                    assert(t.len() == 1);
                    assert(t[0] == t.last());
                    assert(out@ =~= before + json_op(t.last()));
                }
            }
            i = i + 1;
        }
        push_str(&mut out, "]");
        proof {
            assert(self@.take(n as int) =~= self@);
            assert(out@ =~= json_delta(self@));
        }
        out
    }
}

} // verus!
