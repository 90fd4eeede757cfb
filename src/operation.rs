//! The three edit operations: retain, insert and delete.
use vstd::prelude::*;
use vstd::string::StringExecFns;
use crate::attributes::{lookup, same_entries, Attribute, Attributes, ValueModel};
use crate::text::{chars_within, code_units, count_utf16_code_units, lemma_chars_within_all, lemma_chars_within_bound, sub_str, sub_units};

verus! {

/// A half-open range `[start, end)` of code units.
#[derive(Clone, Copy, Debug, PartialEq, Eq)]
pub struct Interval {
    pub start: usize,
    pub end: usize,
}

impl Interval {
    pub fn new(start: usize, end: usize) -> (r: Interval)
        ensures
            r.start == start,
            r.end == end,
    {
        Interval { start, end }
    }

    pub open spec fn spec_size(&self) -> nat {
        if self.end >= self.start {
            (self.end - self.start) as nat
        } else {
            0
        }
    }

    /// Number of code units covered; an inverted range covers none.
    pub fn size(&self) -> (r: usize)
        ensures
            r == self.spec_size(),
    {
        if self.end >= self.start {
            self.end - self.start
        } else {
            0
        }
    }
}

#[derive(Debug, PartialEq, Eq)]
pub struct Retain {
    pub n: usize,
    pub attributes: Attributes,
}

#[derive(Debug, PartialEq, Eq)]
pub struct Insert {
    pub s: String,
    pub attributes: Attributes,
}

#[derive(Debug, PartialEq, Eq)]
pub enum Operation {
    Delete(usize),
    Retain(Retain),
    Insert(Insert),
}

pub open spec fn no_attributes() -> Seq<(Seq<char>, ValueModel)> {
    Seq::empty()
}

impl Insert {
    /// Its length in code units fits a `usize`.
    pub open spec fn wf(&self) -> bool {
        code_units(self.s@) <= usize::MAX
    }

    pub fn count_of_code_units(&self) -> (r: usize)
        requires
            self.wf(),
        ensures
            r == code_units(self.s@),
    {
        count_utf16_code_units(self.s.as_str())
    }

    /// Appends `s` when the attributes hold the same entries, tombstones included; otherwise returns a new insert of `s`.
    pub fn merge_or_new_op(&mut self, s: &str, attributes: Attributes) -> (r: Option<Operation>)
        ensures
            same_entries(attributes@, old(self).attributes@) ==> r is None && final(self).s@ == old(self).s@ + s@
                && final(self).attributes == old(self).attributes,
            !same_entries(attributes@, old(self).attributes@) ==> *final(self) == *old(self) && (r matches Some(
                Operation::Insert(i),
            ) && i.s@ == s@ && i.attributes == attributes),
    {
        if self.attributes.same_entries_as(&attributes) {
            self.s.append(s);
            None
        } else {
            Some(Operation::Insert(Insert { s: s.to_owned(), attributes }))
        }
    }

    pub fn is_plain(&self) -> (r: bool)
        ensures
            r == (self.attributes@.len() == 0),
    {
        self.attributes.is_empty()
    }
}

impl Retain {
    /// Extends this retain when the attributes hold the same entries; otherwise returns a new retain.
    /// Unlike `==` on attributes, tombstones count here: a retain that removes a key must not
    /// fold into one that leaves the key alone.
    pub fn merge_or_new(&mut self, n: usize, attributes: Attributes) -> (r: Option<Operation>)
        requires
            old(self).n + n <= usize::MAX,
        ensures
            same_entries(attributes@, old(self).attributes@) ==> r is None && final(self).n == old(self).n + n
                && final(self).attributes == old(self).attributes,
            !same_entries(attributes@, old(self).attributes@) ==> *final(self) == *old(self) && (r matches Some(
                Operation::Retain(t),
            ) && t.n == n && t.attributes == attributes),
    {
        if self.attributes.same_entries_as(&attributes) {
            self.n = self.n + n;
            None
        } else {
            Some(Operation::Retain(Retain { n, attributes }))
        }
    }

    pub fn is_plain(&self) -> (r: bool)
        ensures
            r == (self.attributes@.len() == 0),
    {
        self.attributes.is_empty()
    }
}

impl Operation {
    pub open spec fn wf(&self) -> bool {
        match self {
            Operation::Insert(i) => i.wf(),
            _ => true,
        }
    }

    /// Length in code units.
    pub open spec fn spec_len(&self) -> nat {
        match self {
            Operation::Delete(n) => *n as nat,
            Operation::Retain(r) => r.n as nat,
            Operation::Insert(i) => code_units(i.s@),
        }
    }

    /// The attributes carried; a delete carries none.
    pub open spec fn attrs(&self) -> Seq<(Seq<char>, ValueModel)> {
        match self {
            Operation::Delete(_) => no_attributes(),
            Operation::Retain(r) => r.attributes@,
            Operation::Insert(i) => i.attributes@,
        }
    }

    /// The inserted text; empty for the other variants.
    pub open spec fn data(&self) -> Seq<char> {
        match self {
            Operation::Insert(i) => i.s@,
            _ => Seq::empty(),
        }
    }

    pub fn delete(n: usize) -> (r: Operation)
        ensures
            r == Operation::Delete(n),
    {
        Operation::Delete(n)
    }

    pub fn retain(n: usize, attributes: Attributes) -> (r: Operation)
        ensures
            r matches Operation::Retain(t) && t.n == n && t.attributes == attributes,
    {
        Operation::Retain(Retain { n, attributes })
    }

    pub fn insert(s: &str, attributes: Attributes) -> (r: Operation)
        ensures
            r matches Operation::Insert(i) && i.s@ == s@ && i.attributes == attributes,
    {
        Operation::Insert(Insert { s: s.to_owned(), attributes })
    }

    pub fn get_data(&self) -> (r: &str)
        ensures
            r@ == self.data(),
    {
        match self {
            Operation::Insert(insert) => insert.s.as_str(),
            _ => {
                proof {
                    reveal_strlit("");
                }
                ""
            },
        }
    }

    pub fn get_attributes(&self) -> (r: Attributes)
        ensures
            r@ == self.attrs(),
    {
        match self {
            Operation::Delete(_) => Attributes::new(),
            Operation::Retain(retain) => retain.attributes.duplicate(),
            Operation::Insert(insert) => insert.attributes.duplicate(),
        }
    }

    /// Replaces the attributes of a retain or an insert; a delete carries none and stays as it is.
    pub fn set_attributes(&mut self, attributes: Attributes)
        ensures
            match *old(self) {
                Operation::Delete(n) => *final(self) == Operation::Delete(n),
                Operation::Retain(r) => *final(self) matches Operation::Retain(t) && t.n == r.n
                    && t.attributes == attributes,
                Operation::Insert(i) => *final(self) matches Operation::Insert(t) && t.s == i.s
                    && t.attributes == attributes,
            },
    {
        match self {
            Operation::Delete(_) => {},
            Operation::Retain(retain) => retain.attributes = attributes,
            Operation::Insert(insert) => insert.attributes = attributes,
        }
    }

    pub fn has_attribute(&self) -> (r: bool)
        ensures
            r == (self.attrs().len() != 0),
    {
        !self.get_attributes().is_empty()
    }

    pub fn contain_attribute(&self, attribute: &Attribute) -> (r: bool)
        ensures
            r == lookup(self.attrs(), attribute.key@).is_some(),
    {
        self.get_attributes().contains_key(&attribute.key)
    }

    pub fn len(&self) -> (r: usize)
        requires
            self.wf(),
        ensures
            r == self.spec_len(),
    {
        match self {
            Operation::Delete(n) => *n,
            Operation::Retain(r) => r.n,
            Operation::Insert(i) => i.count_of_code_units(),
        }
    }

    pub fn is_empty(&self) -> (r: bool)
        requires
            self.wf(),
        ensures
            r == (self.spec_len() == 0),
    {
        self.len() == 0
    }

    /// Splits at code unit `index` into two operations of the same variant.
    pub fn split(&self, index: usize) -> (r: (Option<Operation>, Option<Operation>))
        requires
            self.wf(),
            0 < index < self.spec_len(),
        ensures
            match (*self, r.0, r.1) {
                (Operation::Delete(n), Some(Operation::Delete(a)), Some(Operation::Delete(b))) => a
                    == index && b == n - index,
                (Operation::Retain(t), Some(Operation::Retain(a)), Some(Operation::Retain(b))) => a.n
                    == index && b.n == t.n - index && a.attributes@ == t.attributes@
                    && b.attributes@ == t.attributes@,
                (Operation::Insert(t), Some(Operation::Insert(a)), Some(Operation::Insert(b))) => a.s@
                    == sub_units(t.s@, 0, index as int) && b.s@ == sub_units(
                    t.s@,
                    index as int,
                    code_units(t.s@) as int,
                ) && a.s@ + b.s@ == t.s@ && a.attributes@ == t.attributes@ && b.attributes@
                    == t.attributes@,
                _ => false,
            },
    {
        match self {
            Operation::Delete(n) => (Some(Operation::Delete(index)), Some(Operation::Delete(*n - index))),
            Operation::Retain(retain) => (
                Some(Operation::Retain(Retain { n: index, attributes: retain.attributes.duplicate() })),
                Some(Operation::Retain(Retain { n: retain.n - index, attributes: retain.attributes.duplicate() })),
            ),
            Operation::Insert(insert) => {
                let total = insert.count_of_code_units();
                let left = sub_str(insert.s.as_str(), 0, index);
                let right = sub_str(insert.s.as_str(), index, total);
                proof {
                    let s = insert.s@;
                    lemma_chars_within_all(s, total as int);
                    lemma_chars_within_bound(s, index as int);
                    assert(chars_within(s, 0) == 0);
                    assert(left@ + right@ =~= s);
                }
                (
                    Some(Operation::Insert(Insert { s: left, attributes: insert.attributes.duplicate() })),
                    Some(Operation::Insert(Insert { s: right, attributes: insert.attributes.duplicate() })),
                )
            },
        }
    }

    /// The part of this operation that falls within `interval`, or `None` when that part is empty.
    pub fn shrink(&self, interval: Interval) -> (r: Option<Operation>)
        requires
            self.wf(),
        ensures
            match *self {
                Operation::Delete(n) => {
                    let m = overlap(n as nat, interval);
                    if m == 0 { r is None } else { r == Some(Operation::Delete(m as usize)) }
                },
                Operation::Retain(t) => {
                    let m = overlap(t.n as nat, interval);
                    if m == 0 { r is None } else { r matches Some(Operation::Retain(u)) && u.n == m
                        && u.attributes@ == t.attributes@ }
                },
                Operation::Insert(t) => {
                    let piece = if interval.start > code_units(t.s@) {
                        Seq::empty()
                    } else {
                        sub_units(t.s@, interval.start as int, interval.end as int)
                    };
                    if piece.len() == 0 { r is None } else { r matches Some(Operation::Insert(u))
                        && u.s@ == piece && u.attributes@ == t.attributes@ }
                },
            },
            r matches Some(op) ==> op.wf(),
    {
        match self {
            Operation::Delete(n) => {
                let m = overlap_len(*n, interval);
                if m == 0 { None } else { Some(Operation::Delete(m)) }
            },
            Operation::Retain(retain) => {
                let m = overlap_len(retain.n, interval);
                if m == 0 {
                    None
                } else {
                    Some(Operation::Retain(Retain { n: m, attributes: retain.attributes.duplicate() }))
                }
            },
            Operation::Insert(insert) => {
                if interval.start > insert.count_of_code_units() {
                    None
                } else {
                    let s = sub_str(insert.s.as_str(), interval.start, interval.end);
                    proof {
                        lemma_sub_units_fits(insert.s@, interval.start as int, interval.end as int);
                    }
                    if s.as_str().unicode_len() == 0 {
                        None
                    } else {
                        Some(Operation::Insert(Insert { s, attributes: insert.attributes.duplicate() }))
                    }
                }
            },
        }
    }

    pub fn is_delete(&self) -> (r: bool)
        ensures
            r == self is Delete,
    {
        if let Operation::Delete(_) = self {
            return true;
        }
        false
    }

    pub fn is_insert(&self) -> (r: bool)
        ensures
            r == self is Insert,
    {
        if let Operation::Insert(_) = self {
            return true;
        }
        false
    }

    pub fn is_retain(&self) -> (r: bool)
        ensures
            r == self is Retain,
    {
        if let Operation::Retain(_) = self {
            return true;
        }
        false
    }

    /// Plain means without attributes; a delete is always plain.
    pub fn is_plain(&self) -> (r: bool)
        ensures
            r == (self.attrs().len() == 0),
    {
        match self {
            Operation::Delete(_) => true,
            Operation::Retain(retain) => retain.is_plain(),
            Operation::Insert(insert) => insert.is_plain(),
        }
    }
}

impl Retain {
    /// A retain of `n` code units without attributes.
    pub fn new(n: usize) -> (r: Retain)
        ensures
            r.n == n,
            r.attributes@.len() == 0,
    {
        Retain { n, attributes: Attributes::new() }
    }
}

impl Insert {
    /// An insert of `s` without attributes.
    pub fn new(s: &str) -> (r: Insert)
        ensures
            r.s@ == s@,
            r.attributes@.len() == 0,
    {
        Insert { s: s.to_owned(), attributes: Attributes::new() }
    }
}

impl From<usize> for Retain {
    fn from(n: usize) -> (r: Retain)
        ensures
            r.n == n,
            r.attributes@.len() == 0,
    {
        Retain::new(n)
    }
}

impl vstd::std_specs::convert::FromSpecImpl<usize> for Retain {
    /// A value holding a vector has no spec form to compare against; `Retain::new` states the result.
    open spec fn obeys_from_spec() -> bool {
        false
    }

    open spec fn from_spec(n: usize) -> Retain {
        vstd::pervasive::arbitrary()
    }
}

impl From<String> for Insert {
    fn from(s: String) -> (r: Insert)
        ensures
            r.s@ == s@,
            r.attributes@.len() == 0,
    {
        Insert { s, attributes: Attributes::new() }
    }
}

impl vstd::std_specs::convert::FromSpecImpl<String> for Insert {
    /// A value holding a vector has no spec form to compare against; `Insert::new` states the result.
    open spec fn obeys_from_spec() -> bool {
        false
    }

    open spec fn from_spec(s: String) -> Insert {
        vstd::pervasive::arbitrary()
    }
}

impl From<&str> for Insert {
    fn from(s: &str) -> (r: Insert)
        ensures
            r.s@ == s@,
            r.attributes@.len() == 0,
    {
        Insert::new(s)
    }
}

impl vstd::std_specs::convert::FromSpecImpl<&str> for Insert {
    /// A value holding a vector has no spec form to compare against; `Insert::new` states the result.
    open spec fn obeys_from_spec() -> bool {
        false
    }

    open spec fn from_spec(s: &str) -> Insert {
        vstd::pervasive::arbitrary()
    }
}

/// How many of the code units `[0, n)` fall within `interval`.
pub open spec fn overlap(n: nat, interval: Interval) -> nat {
    let hi = if n <= interval.end { n } else { interval.end as nat };
    if hi > interval.start { (hi - interval.start) as nat } else { 0 }
}

fn overlap_len(n: usize, interval: Interval) -> (r: usize)
    ensures
        r == overlap(n as nat, interval),
{
    let hi = if n <= interval.end { n } else { interval.end };
    if hi > interval.start { hi - interval.start } else { 0 }
}

/// A slice of a string never has more code units than the string.
pub proof fn lemma_sub_units_fits(s: Seq<char>, start: int, end: int)
    ensures
        code_units(sub_units(s, start, end)) <= code_units(s),
{
    let a = chars_within(s, start);
    let b = chars_within(s, end);
    lemma_chars_within_bound(s, start);
    lemma_chars_within_bound(s, end);
    if a <= b {
        crate::text::lemma_code_units_concat(s.subrange(0, a as int), s.subrange(a as int, b as int));
        crate::text::lemma_code_units_concat(s.subrange(0, b as int), s.subrange(b as int, s.len() as int));
        assert(s.subrange(0, a as int) + s.subrange(a as int, b as int) =~= s.subrange(0, b as int));
        assert(s.subrange(0, b as int) + s.subrange(b as int, s.len() as int) =~= s);
    } else {
        assert(code_units(Seq::<char>::empty()) == 0);
    }
}

} // verus!
