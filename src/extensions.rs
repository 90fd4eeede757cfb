//! Rewriting rules run on a keystroke before it becomes an edit.
use vstd::prelude::*;
use crate::attributes::{equivalent, header, header_key, without_key, Attributes, ValueModel};
use crate::delta::{
    empty_line_at, newline_op_from, op_at, op_attrs, op_len, push_op, AttrsModel, Delta, OpModel,
};
use crate::text::{code_units, is_newline};

verus! {

/// Every value of `a` turned into a tombstone, except that of `keep`.
pub open spec fn removed_except(a: AttrsModel, keep: Seq<char>) -> AttrsModel {
    a.map_values(|e: (Seq<char>, ValueModel)| if e.0 == keep { e } else { (e.0, ValueModel::Null) })
}

/// Typing a line break on an empty line at the end of a block (a list item, a quote, a
/// code block) leaves the block: the break keeps only its heading.
pub open spec fn auto_exit_block(s: Seq<OpModel>, replace_len: nat, text: Seq<char>, index: nat) -> Option<
    Seq<OpModel>,
> {
    if text != seq!['\n'] || !empty_line_at(s, index as int) {
        None
    } else {
        match op_at(s, index as int) {
            None => None,
            Some((k, off)) => {
                let attrs = op_attrs(s[k]);
                let block = without_key(attrs, header_key());
                let same_block_follows = match newline_op_from(s, k + 1) {
                    Some(j) => equivalent(without_key(op_attrs(s[j]), header_key()), block),
                    None => false,
                };
                if block.len() == 0 || op_len(s[k]) - off > 1 || same_block_follows {
                    None
                } else {
                    Some(
                        push_op(
                            push_op(Seq::empty(), OpModel::Retain(index + replace_len, Seq::empty())),
                            OpModel::Retain(1, removed_except(attrs, header_key())),
                        ),
                    )
                }
            },
        }
    }
}

pub struct AutoExitBlock {}

impl AutoExitBlock {
    pub fn ext_name(&self) -> &'static str {
        "AutoExitBlock"
    }

    pub fn apply(&self, delta: &Delta, replace_len: usize, text: &str, index: usize) -> (r: Option<Delta>)
        requires
            delta.wf(),
            index + replace_len < usize::MAX,
        ensures
            match r {
                Some(d) => d.wf() && auto_exit_block(delta@, replace_len as nat, text@, index as nat)
                    == Some(d@),
                None => auto_exit_block(delta@, replace_len as nat, text@, index as nat) is None,
            },
    {
        if !is_newline(text) {
            return None;
        }
        if !delta.is_empty_line_at_index(index) {
            return None;
        }
        let (k, off) = match delta.op_at(index) {
            Some(p) => p,
            None => return None,
        };
        let count = delta.ops.len();
        let next = &delta.ops[k];
        proof {
            assert(delta@[k as int] == next.model());
            assert(k < delta.ops@.len());
        }
        let mut attributes = next.get_attributes();
        let block_attributes = attributes.without(&header());
        if block_attributes.is_empty() {
            return None;
        }
        if next.len() - off > 1 {
            return None;
        }
        match delta.newline_op_from(k + 1) {
            None => {},
            Some(j) => {
                proof {
                    assert(delta@[j as int] == delta.ops@[j as int].model());
                }
                let newline_attributes = delta.ops[j].get_attributes().without(&header());
                if block_attributes.equivalent_to(&newline_attributes) {
                    return None;
                }
            },
        }
        let ghost before = attributes@;
        attributes.mark_all_as_removed_except(Some(header()));
        proof {
            assert(attributes@ =~= removed_except(before, header_key()));
        }
        let mut d = Delta::new();
        d.retain(index + replace_len, Attributes::new());
        proof {
            crate::delta::lemma_push_op_lengths(Seq::empty(), OpModel::Retain((index + replace_len) as nat, Seq::empty()));
        }
        d.retain(1, attributes);
        Some(d)
    }
}

/// The edit for typing `text` at `index` over `replace_len` selected code units when no
/// rule applies: keep what precedes, drop the selection, insert the text.
pub open spec fn plain_insert(replace_len: nat, text: Seq<char>, index: nat) -> Seq<OpModel> {
    push_op(
        push_op(push_op(Seq::empty(), OpModel::Retain(index, Seq::empty())), OpModel::Delete(replace_len)),
        OpModel::Insert(text, Seq::empty()),
    )
}

/// The edit for a keystroke: the rules are tried in order and the first that rewrites
/// the keystroke wins; when none does, a plain insertion.
pub fn insert_edit(delta: &Delta, replace_len: usize, text: &str, index: usize) -> (r: Delta)
    requires
        delta.wf(),
        index + replace_len < usize::MAX,
        index + code_units(text@) <= usize::MAX,
    ensures
        r.wf(),
        r@ == match auto_exit_block(delta@, replace_len as nat, text@, index as nat) {
            Some(d) => d,
            None => plain_insert(replace_len as nat, text@, index as nat),
        },
{
    match (AutoExitBlock {}).apply(delta, replace_len, text, index) {
        Some(d) => d,
        None => {
            let mut d = Delta::new();
            d.retain(index, Attributes::new());
            proof {
                crate::delta::lemma_push_op_lengths(Seq::empty(), OpModel::Retain(index as nat, Seq::empty()));
            }
            proof {
                crate::delta::lemma_push_op_lengths(d@, OpModel::Delete(replace_len as nat));
            }
            d.delete(replace_len);
            d.insert(text, Attributes::new());
            d
        },
    }
}

} // verus!
