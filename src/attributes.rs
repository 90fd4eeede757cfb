//! Attribute maps: formatting keys to values, where a `Null` value is a
//! tombstone that removes the key when composed.
use vstd::prelude::*;
use vstd::string::StringExecFns;

verus! {

/// What an attribute value stands for.
pub enum ValueModel {
    Null,
    Bool(bool),
    Int(int),
    Str(Seq<char>),
}

#[derive(Clone, Debug, PartialEq, Eq)]
pub enum AttributeValue {
    Null,
    Bool(bool),
    Int(i64),
    Str(String),
}

impl View for AttributeValue {
    type V = ValueModel;

    open spec fn view(&self) -> ValueModel {
        match self {
            AttributeValue::Null => ValueModel::Null,
            AttributeValue::Bool(b) => ValueModel::Bool(*b),
            AttributeValue::Int(i) => ValueModel::Int(*i as int),
            AttributeValue::Str(s) => ValueModel::Str(s@),
        }
    }
}

impl AttributeValue {
    pub fn is_null(&self) -> (r: bool)
        ensures
            r == (self@ == ValueModel::Null),
    {
        match self {
            AttributeValue::Null => true,
            _ => false,
        }
    }

    pub fn same_as(&self, other: &AttributeValue) -> (r: bool)
        ensures
            r == (self@ == other@),
    {
        match (self, other) {
            (AttributeValue::Null, AttributeValue::Null) => true,
            (AttributeValue::Bool(a), AttributeValue::Bool(b)) => *a == *b,
            (AttributeValue::Int(a), AttributeValue::Int(b)) => *a == *b,
            (AttributeValue::Str(a), AttributeValue::Str(b)) => *a == *b,
            _ => false,
        }
    }

    pub fn duplicate(&self) -> (r: AttributeValue)
        ensures
            r@ == self@,
    {
        match self {
            AttributeValue::Null => AttributeValue::Null,
            AttributeValue::Bool(b) => AttributeValue::Bool(*b),
            AttributeValue::Int(i) => AttributeValue::Int(*i),
            AttributeValue::Str(s) => AttributeValue::Str(s.clone()),
        }
    }
}

/// One key and its value.
#[derive(Clone, Debug, PartialEq, Eq)]
pub struct Attribute {
    pub key: String,
    pub value: AttributeValue,
}

impl Attribute {
    pub open spec fn model(&self) -> (Seq<char>, ValueModel) {
        (self.key@, self.value@)
    }
}

/// The key that marks a heading line.
pub open spec fn header_key() -> Seq<char> {
    seq!['h', 'e', 'a', 'd', 'e', 'r']
}

/// The value of `k` in `s`: the first entry with that key wins.
pub open spec fn lookup(s: Seq<(Seq<char>, ValueModel)>, k: Seq<char>) -> Option<ValueModel>
    decreases s.len(),
{
    if s.len() == 0 {
        None
    } else if s[0].0 == k {
        Some(s[0].1)
    } else {
        lookup(s.drop_first(), k)
    }
}

/// The value of `k` in `s` when it is set to something other than the tombstone.
pub open spec fn present(s: Seq<(Seq<char>, ValueModel)>, k: Seq<char>) -> Option<ValueModel> {
    match lookup(s, k) {
        Some(ValueModel::Null) => None,
        o => o,
    }
}

/// Two attribute maps are equal when their non-null projections coincide.
pub open spec fn equivalent(a: Seq<(Seq<char>, ValueModel)>, b: Seq<(Seq<char>, ValueModel)>) -> bool {
    forall|k: Seq<char>| #[trigger] present(a, k) == present(b, k)
}

/// No key occurs twice.
pub open spec fn keys_unique(s: Seq<(Seq<char>, ValueModel)>) -> bool {
    forall|i: int, j: int| 0 <= i < j < s.len() ==> (#[trigger] s[i]).0 != (#[trigger] s[j]).0
}

/// Two attribute maps hold the same entries, tombstones included, in any order.
pub open spec fn same_entries(a: Seq<(Seq<char>, ValueModel)>, b: Seq<(Seq<char>, ValueModel)>) -> bool {
    forall|k: Seq<char>| #[trigger] lookup(a, k) == lookup(b, k)
}

pub proof fn lemma_lookup_some(s: Seq<(Seq<char>, ValueModel)>, k: Seq<char>)
    requires
        lookup(s, k).is_some(),
    ensures
        exists|j: int| 0 <= j < s.len() && #[trigger] s[j].0 == k,
    decreases s.len(),
{
    if s[0].0 != k {
        lemma_lookup_some(s.drop_first(), k);
        let j = choose|j: int| 0 <= j < s.len() - 1 && #[trigger] s.drop_first()[j].0 == k;
        assert(s[j + 1].0 == k);
    }
}

pub proof fn lemma_lookup_index(s: Seq<(Seq<char>, ValueModel)>, j: int)
    requires
        0 <= j < s.len(),
    ensures
        lookup(s, s[j].0).is_some(),
    decreases s.len(),
{
    if j > 0 && s[0].0 != s[j].0 {
        assert(s.drop_first()[j - 1] == s[j]);
        lemma_lookup_index(s.drop_first(), j - 1);
    }
}

pub proof fn lemma_lookup_push(s: Seq<(Seq<char>, ValueModel)>, e: (Seq<char>, ValueModel), k: Seq<char>)
    ensures
        lookup(s.push(e), k) == (if lookup(s, k).is_some() {
            lookup(s, k)
        } else if e.0 == k {
            Some(e.1)
        } else {
            None
        }),
    decreases s.len(),
{
    if s.len() == 0 {
        assert(s.push(e).drop_first() =~= Seq::<(Seq<char>, ValueModel)>::empty());
    } else {
        assert(s.push(e).drop_first() =~= s.drop_first().push(e));
        lemma_lookup_push(s.drop_first(), e, k);
    }
}

pub proof fn lemma_lookup_update(s: Seq<(Seq<char>, ValueModel)>, i: int, e: (Seq<char>, ValueModel), k: Seq<char>)
    requires
        0 <= i < s.len(),
        s[i].0 == e.0,
        forall|j: int| 0 <= j < i ==> s[j].0 != e.0,
    ensures
        lookup(s.update(i, e), k) == (if k == e.0 {
            Some(e.1)
        } else {
            lookup(s, k)
        }),
    decreases i,
{
    if i > 0 {
        assert(s.update(i, e).drop_first() =~= s.drop_first().update(i - 1, e));
        assert forall|j: int| 0 <= j < i - 1 implies s.drop_first()[j].0 != e.0 by {
            assert(s.drop_first()[j] == s[j + 1]);
        }
        lemma_lookup_update(s.drop_first(), i - 1, e, k);
    } else {
        assert(s.update(i, e).drop_first() =~= s.drop_first());
    }
}

/// The entries of `s` whose key is not `k`, in order.
pub open spec fn without_key(s: Seq<(Seq<char>, ValueModel)>, k: Seq<char>) -> Seq<(Seq<char>, ValueModel)>
    decreases s.len(),
{
    if s.len() == 0 {
        s
    } else {
        let rest = without_key(s.drop_last(), k);
        if s.last().0 != k {
            rest.push(s.last())
        } else {
            rest
        }
    }
}

/// The entries of `s` that are not tombstones, in order.
pub open spec fn set_entries(s: Seq<(Seq<char>, ValueModel)>) -> Seq<(Seq<char>, ValueModel)>
    decreases s.len(),
{
    if s.len() == 0 {
        s
    } else {
        let rest = set_entries(s.drop_last());
        if s.last().1 != ValueModel::Null {
            rest.push(s.last())
        } else {
            rest
        }
    }
}

/// The entries of `s` whose key `over` does not mention, in order.
pub open spec fn untouched_by(s: Seq<(Seq<char>, ValueModel)>, over: Seq<(Seq<char>, ValueModel)>) -> Seq<(Seq<char>, ValueModel)>
    decreases s.len(),
{
    if s.len() == 0 {
        s
    } else {
        let rest = untouched_by(s.drop_last(), over);
        if lookup(over, s.last().0) is None {
            rest.push(s.last())
        } else {
            rest
        }
    }
}

/// `a` followed by `b`: the keys that `b` sets take its values, those it marks removed
/// go, the others keep the values of `a`.
pub open spec fn compose_attrs(a: Seq<(Seq<char>, ValueModel)>, b: Seq<(Seq<char>, ValueModel)>) -> Seq<(Seq<char>, ValueModel)> {
    set_entries(b) + untouched_by(a, b)
}

/// The keys of `a`, each with the value it has in `prior`, or a tombstone where `prior`
/// does not hold it: applied after `a`, these put back what `a` changed.
pub open spec fn restore_attrs(a: Seq<(Seq<char>, ValueModel)>, prior: Seq<(Seq<char>, ValueModel)>) -> Seq<(Seq<char>, ValueModel)> {
    a.map_values(|e: (Seq<char>, ValueModel)| (e.0, match lookup(prior, e.0) {
        Some(v) => v,
        None => ValueModel::Null,
    }))
}

/// A map from attribute keys to values.
#[derive(Clone, Debug)]
pub struct Attributes {
    pub inner: Vec<Attribute>,
}

impl View for Attributes {
    type V = Seq<(Seq<char>, ValueModel)>;

    open spec fn view(&self) -> Seq<(Seq<char>, ValueModel)> {
        self.inner@.map_values(|a: Attribute| a.model())
    }
}

impl PartialEq for Attributes {
    fn eq(&self, other: &Attributes) -> (r: bool) {
        self.equivalent_to(other)
    }
}

impl vstd::std_specs::cmp::PartialEqSpecImpl for Attributes {
    open spec fn obeys_eq_spec() -> bool {
        true
    }

    open spec fn eq_spec(&self, other: &Attributes) -> bool {
        equivalent(self@, other@)
    }
}

impl Eq for Attributes {

}

impl Attributes {
    /// Each key is held once. The lookup model reads the first entry of a key; the JSON form
    /// writes every entry, so the operations below keep keys unique.
    pub open spec fn wf(&self) -> bool {
        keys_unique(self@)
    }

    pub fn new() -> (r: Attributes)
        ensures
            r@ == Seq::<(Seq<char>, ValueModel)>::empty(),
            r.wf(),
    {
        Attributes { inner: Vec::new() }
    }

    pub fn len(&self) -> (r: usize)
        ensures
            r == self@.len(),
    {
        self.inner.len()
    }

    /// Whether no key is recorded, tombstones included.
    pub fn is_empty(&self) -> (r: bool)
        ensures
            r == (self@.len() == 0),
    {
        self.inner.len() == 0
    }

    /// Index of the entry that holds `key`.
    pub fn find(&self, key: &String) -> (r: Option<usize>)
        ensures
            match r {
                Some(i) => {
                    &&& i < self@.len()
                    &&& self@[i as int].0 == key@
                    &&& forall|j: int| 0 <= j < i ==> self@[j].0 != key@
                    &&& lookup(self@, key@) == Some(self@[i as int].1)
                },
                None => lookup(self@, key@).is_none(),
            },
    {
        let n = self.inner.len();
        let mut i: usize = 0;
        proof {
            assert(self@.subrange(0, n as int) =~= self@);
        }
        while i < n
            invariant
                n == self@.len(),
                n == self.inner@.len(),
                i <= n,
                lookup(self@, key@) == lookup(self@.subrange(i as int, n as int), key@),
                forall|j: int| 0 <= j < i ==> self@[j].0 != key@,
            decreases n - i,
        {
            proof {
                assert(self@.subrange(i as int, n as int).drop_first() =~= self@.subrange(i + 1, n as int));
            }
            if self.inner[i].key == *key {
                return Some(i);
            }
            i = i + 1;
        }
        None
    }

    pub fn contains_key(&self, key: &String) -> (r: bool)
        ensures
            r == lookup(self@, key@).is_some(),
    {
        self.find(key).is_some()
    }

    /// Whether `key` holds the same non-null value in both maps (or in neither).
    pub fn agrees_on(&self, other: &Attributes, key: &String) -> (r: bool)
        ensures
            r == (present(self@, key@) == present(other@, key@)),
    {
        let a = self.find(key);
        let b = other.find(key);
        match (a, b) {
            (None, None) => true,
            (Some(i), None) => self.inner[i].value.is_null(),
            (None, Some(j)) => other.inner[j].value.is_null(),
            (Some(i), Some(j)) => {
                let va = &self.inner[i].value;
                let vb = &other.inner[j].value;
                if va.is_null() {
                    vb.is_null()
                } else {
                    va.same_as(vb)
                }
            },
        }
    }

    fn agrees_on_own_keys(&self, other: &Attributes) -> (r: bool)
        ensures
            r == (forall|j: int| 0 <= j < self@.len() ==> present(self@, #[trigger] self@[j].0) == present(other@, self@[j].0)),
    {
        let n = self.inner.len();
        let mut i: usize = 0;
        while i < n
            invariant
                n == self@.len(),
                n == self.inner@.len(),
                i <= n,
                forall|j: int| 0 <= j < i ==> present(self@, #[trigger] self@[j].0) == present(other@, self@[j].0),
            decreases n - i,
        {
            if !self.agrees_on(other, &self.inner[i].key) {
                proof {
                    assert(self@[i as int].0 == self.inner@[i as int].key@);
                }
                return false;
            }
            i = i + 1;
        }
        true
    }

    /// Equality that ignores order and tombstones.
    pub fn equivalent_to(&self, other: &Attributes) -> (r: bool)
        ensures
            r == equivalent(self@, other@),
    {
        let a = self.agrees_on_own_keys(other);
        let b = other.agrees_on_own_keys(self);
        proof {
            if a && b {
                assert forall|k: Seq<char>| #[trigger] present(self@, k) == present(other@, k) by {
                    if lookup(self@, k).is_some() {
                        lemma_lookup_some(self@, k);
                    } else if lookup(other@, k).is_some() {
                        lemma_lookup_some(other@, k);
                    }
                }
            }
            if !a {
                let j = choose|j: int| 0 <= j < self@.len() && present(self@, #[trigger] self@[j].0) != present(other@, self@[j].0);
                assert(present(self@, self@[j].0) != present(other@, self@[j].0));
            }
            if !b {
                let j = choose|j: int| 0 <= j < other@.len() && present(other@, #[trigger] other@[j].0) != present(self@, other@[j].0);
                assert(present(self@, other@[j].0) != present(other@, other@[j].0));
            }
        }
        a && b
    }

    /// Whether `key` holds the same value in both maps, tombstones included (or is in neither).
    pub fn matches_on(&self, other: &Attributes, key: &String) -> (r: bool)
        ensures
            r == (lookup(self@, key@) == lookup(other@, key@)),
    {
        match (self.find(key), other.find(key)) {
            (None, None) => true,
            (Some(i), Some(j)) => self.inner[i].value.same_as(&other.inner[j].value),
            _ => false,
        }
    }

    fn matches_on_own_keys(&self, other: &Attributes) -> (r: bool)
        ensures
            r == (forall|j: int| 0 <= j < self@.len() ==> lookup(self@, #[trigger] self@[j].0) == lookup(other@, self@[j].0)),
    {
        let n = self.inner.len();
        let mut i: usize = 0;
        while i < n
            invariant
                n == self@.len(),
                n == self.inner@.len(),
                i <= n,
                forall|j: int| 0 <= j < i ==> lookup(self@, #[trigger] self@[j].0) == lookup(other@, self@[j].0),
            decreases n - i,
        {
            if !self.matches_on(other, &self.inner[i].key) {
                proof {
                    assert(self@[i as int].0 == self.inner@[i as int].key@);
                }
                return false;
            }
            i = i + 1;
        }
        true
    }

    /// Equality that ignores order but not tombstones.
    pub fn same_entries_as(&self, other: &Attributes) -> (r: bool)
        ensures
            r == same_entries(self@, other@),
    {
        let a = self.matches_on_own_keys(other);
        let b = other.matches_on_own_keys(self);
        proof {
            if a && b {
                assert forall|k: Seq<char>| #[trigger] lookup(self@, k) == lookup(other@, k) by {
                    if lookup(self@, k).is_some() {
                        lemma_lookup_some(self@, k);
                    } else if lookup(other@, k).is_some() {
                        lemma_lookup_some(other@, k);
                    }
                }
            }
            if !a {
                let j = choose|j: int| 0 <= j < self@.len() && lookup(self@, #[trigger] self@[j].0) != lookup(other@, self@[j].0);
                assert(lookup(self@, self@[j].0) != lookup(other@, self@[j].0));
            }
            if !b {
                let j = choose|j: int| 0 <= j < other@.len() && lookup(other@, #[trigger] other@[j].0) != lookup(self@, other@[j].0);
                assert(lookup(self@, other@[j].0) != lookup(other@, other@[j].0));
            }
        }
        a && b
    }

    /// These attributes followed by `other`.
    pub fn compose(&self, other: &Attributes) -> (r: Attributes)
        ensures
            r@ == compose_attrs(self@, other@),
    {
        let mut out = Attributes::new();
        let n = other.inner.len();
        let mut i: usize = 0;
        while i < n
            invariant
                n == other.inner@.len(),
                i <= n,
                out@ == set_entries(other@.take(i as int)),
            decreases n - i,
        {
            let a = &other.inner[i];
            proof {
                assert(other@.take(i + 1).drop_last() =~= other@.take(i as int));
                assert(other@[i as int] == a.model());
            }
            if !a.value.is_null() {
                let ghost prev = out@;
                out.inner.push(Attribute { key: a.key.clone(), value: a.value.duplicate() });
                proof {
                    assert(out@ =~= prev.push(a.model()));
                }
            }
            i = i + 1;
        }
        proof {
            assert(other@.take(n as int) =~= other@);
        }
        let ghost first = out@;
        let m = self.inner.len();
        let mut j: usize = 0;
        proof {
            assert(first + untouched_by(self@.take(0), other@) =~= first);
        }
        while j < m
            invariant
                m == self.inner@.len(),
                j <= m,
                out@ == first + untouched_by(self@.take(j as int), other@),
            decreases m - j,
        {
            let a = &self.inner[j];
            proof {
                assert(self@.take(j + 1).drop_last() =~= self@.take(j as int));
                assert(self@[j as int] == a.model());
            }
            if !other.contains_key(&a.key) {
                let ghost prev = out@;
                out.inner.push(Attribute { key: a.key.clone(), value: a.value.duplicate() });
                proof {
                    assert(out@ =~= prev.push(a.model()));
                    assert(first + untouched_by(self@.take(j + 1), other@) =~= (first + untouched_by(self@.take(j as int), other@)).push(a.model()));
                }
            }
            j = j + 1;
        }
        proof {
            assert(self@.take(m as int) =~= self@);
        }
        out
    }

    /// The entries of these attributes whose key `other` does not mention, in order.
    pub fn untouched_by(&self, other: &Attributes) -> (r: Attributes)
        ensures
            r@ == untouched_by(self@, other@),
    {
        let mut out = Attributes::new();
        let m = self.inner.len();
        let mut j: usize = 0;
        while j < m
            invariant
                m == self.inner@.len(),
                j <= m,
                out@ == untouched_by(self@.take(j as int), other@),
            decreases m - j,
        {
            let a = &self.inner[j];
            proof {
                assert(self@.take(j + 1).drop_last() =~= self@.take(j as int));
                assert(self@[j as int] == a.model());
            }
            if !other.contains_key(&a.key) {
                let ghost prev = out@;
                out.inner.push(Attribute { key: a.key.clone(), value: a.value.duplicate() });
                proof {
                    assert(out@ =~= prev.push(a.model()));
                }
            }
            j = j + 1;
        }
        proof {
            assert(self@.take(m as int) =~= self@);
        }
        out
    }

    /// The keys of these attributes with the values `prior` gives them, tombstones where it has none.
    pub fn restore_from(&self, prior: &Attributes) -> (r: Attributes)
        ensures
            r@ == restore_attrs(self@, prior@),
    {
        let n = self.inner.len();
        let mut out = Attributes::new();
        let mut i: usize = 0;
        while i < n
            invariant
                n == self.inner@.len(),
                i <= n,
                out@ == restore_attrs(self@.take(i as int), prior@),
            decreases n - i,
        {
            let a = &self.inner[i];
            let v = match prior.find(&a.key) {
                Some(j) => {
                    proof {
                        assert(prior@[j as int] == prior.inner@[j as int].model());
                    }
                    prior.inner[j].value.duplicate()
                },
                None => AttributeValue::Null,
            };
            let ghost before = out@;
            let ghost vm = v@;
            out.inner.push(Attribute { key: a.key.clone(), value: v });
            proof {
                assert(self@[i as int] == a.model());
                assert(out@ =~= before.push((a.key@, vm)));
                assert(restore_attrs(self@.take(i + 1), prior@) =~= restore_attrs(self@.take(i as int), prior@).push(out@.last()));
            }
            i = i + 1;
        }
        proof {
            assert(self@.take(n as int) =~= self@);
        }
        out
    }

    /// Sets `key` to `value`, replacing what it held.
    pub fn insert(&mut self, key: String, value: AttributeValue)
        ensures
            old(self).wf() ==> final(self).wf(),
            forall|k: Seq<char>| #[trigger] lookup(final(self)@, k) == (if k == key@ {
                Some(value@)
            } else {
                lookup(old(self)@, k)
            }),
    {
        let e = Attribute { key, value };
        match self.find(&e.key) {
            Some(i) => {
                proof {
                    assert forall|k: Seq<char>| #[trigger] lookup(self@.update(i as int, e.model()), k) == (if k == e.key@ {
                        Some(e.value@)
                    } else {
                        lookup(self@, k)
                    }) by {
                        lemma_lookup_update(self@, i as int, e.model(), k);
                    }
                }
                let ghost before = self@;
                self.inner.set(i, e);
                proof {
                    assert(self@ =~= before.update(i as int, e.model()));
                }
            },
            None => {
                let ghost before = self@;
                proof {
                    assert forall|k: Seq<char>| #[trigger] lookup(before.push(e.model()), k) == (if k == e.key@ {
                        Some(e.value@)
                    } else {
                        lookup(before, k)
                    }) by {
                        lemma_lookup_push(before, e.model(), k);
                    }
                }
                self.inner.push(e);
                proof {
                    assert(self@ =~= before.push(e.model()));
                    assert forall|j: int| 0 <= j < before.len() implies before[j].0 != e.key@ by {
                        if before[j].0 == e.key@ {
                            lemma_lookup_index(before, j);
                        }
                    }
                }
            },
        }
    }

    /// A copy with the same entries in the same order.
    pub fn duplicate(&self) -> (r: Attributes)
        ensures
            r@ == self@,
            self.wf() ==> r.wf(),
    {
        let n = self.inner.len();
        let mut out: Vec<Attribute> = Vec::new();
        let mut i: usize = 0;
        while i < n
            invariant
                n == self.inner@.len(),
                i <= n,
                out@.map_values(|a: Attribute| a.model()) =~= self@.take(i as int),
            decreases n - i,
        {
            let a = &self.inner[i];
            out.push(Attribute { key: a.key.clone(), value: a.value.duplicate() });
            proof {
                assert(self@.take(i + 1) =~= self@.take(i as int).push(self@[i as int]));
            }
            i = i + 1;
        }
        proof {
            assert(self@.take(n as int) =~= self@);
        }
        Attributes { inner: out }
    }

    /// The same map without `key`.
    pub fn without(&self, key: &String) -> (r: Attributes)
        ensures
            self.wf() ==> r.wf(),
            r@ == without_key(self@, key@),
            forall|k: Seq<char>| #[trigger] lookup(r@, k) == (if k == key@ {
                None
            } else {
                lookup(self@, k)
            }),
    {
        let n = self.inner.len();
        let mut out = Attributes::new();
        let mut i: usize = 0;
        while i < n
            invariant
                n == self.inner@.len(),
                i <= n,
                forall|k: Seq<char>| #[trigger] lookup(out@, k) == (if k == key@ {
                    None
                } else {
                    lookup(self@.take(i as int), k)
                }),
                out@ == without_key(self@.take(i as int), key@),
                self.wf() ==> out.wf(),
            decreases n - i,
        {
            let a = &self.inner[i];
            let ghost prev = out@;
            proof {
                assert(self@.take(i + 1) =~= self@.take(i as int).push(self@[i as int]));
                assert(self@.take(i + 1).drop_last() =~= self@.take(i as int));
            }
            if a.key != *key {
                out.inner.push(Attribute { key: a.key.clone(), value: a.value.duplicate() });
                proof {
                    assert(out@ =~= prev.push(self@[i as int]));
                    if self.wf() {
                        assert forall|j: int| 0 <= j < prev.len() implies prev[j].0 != self@[i as int].0 by {
                            if prev[j].0 == self@[i as int].0 {
                                lemma_lookup_index(prev, j);
                                lemma_lookup_some(self@.take(i as int), self@[i as int].0);
                                let m = choose|m: int| 0 <= m < self@.take(i as int).len() && #[trigger] self@.take(i as int)[m].0 == self@[i as int].0;
                                assert(self@[m].0 == self@[i as int].0);
                            }
                        }
                    }
                    assert forall|k: Seq<char>| #[trigger] lookup(out@, k) == (if k == key@ {
                        None
                    } else {
                        lookup(self@.take(i + 1), k)
                    }) by {
                        lemma_lookup_push(prev, self@[i as int], k);
                        lemma_lookup_push(self@.take(i as int), self@[i as int], k);
                    }
                }
            } else {
                proof {
                    assert forall|k: Seq<char>| #[trigger] lookup(out@, k) == (if k == key@ {
                        None
                    } else {
                        lookup(self@.take(i + 1), k)
                    }) by {
                        lemma_lookup_push(self@.take(i as int), self@[i as int], k);
                    }
                }
            }
            i = i + 1;
        }
        proof {
            assert(self@.take(n as int) =~= self@);
        }
        out
    }

    /// Marks every key as removed, except `keep`.
    pub fn mark_all_as_removed_except(&mut self, keep: Option<String>)
        ensures
            old(self).wf() ==> final(self).wf(),
            final(self)@.len() == old(self)@.len(),
            forall|i: int| 0 <= i < old(self)@.len() ==> (#[trigger] final(self)@[i]).0 == old(self)@[i].0 && final(self)@[i].1 == (if keep is Some && old(self)@[i].0 == keep->Some_0@ {
                old(self)@[i].1
            } else {
                ValueModel::Null
            }),
    {
        let n = self.inner.len();
        let mut i: usize = 0;
        while i < n
            invariant
                n == old(self)@.len(),
                n == self.inner@.len(),
                i <= n,
                forall|j: int| 0 <= j < n ==> (#[trigger] self@[j]).0 == old(self)@[j].0,
                forall|j: int| i <= j < n ==> (#[trigger] self@[j]).1 == old(self)@[j].1,
                forall|j: int| 0 <= j < i ==> (#[trigger] self@[j]).1 == (if keep is Some && old(self)@[j].0 == keep->Some_0@ {
                    old(self)@[j].1
                } else {
                    ValueModel::Null
                }),
            decreases n - i,
        {
            let kept = match &keep {
                Some(k) => self.inner[i].key == *k,
                None => false,
            };
            if !kept {
                let key = self.inner[i].key.clone();
                let ghost before = self@;
                self.inner.set(i, Attribute { key, value: AttributeValue::Null });
                proof {
                    assert(self@ =~= before.update(i as int, (before[i as int].0, ValueModel::Null)));
                }
            }
            i = i + 1;
        }
    }
}

/// The key that marks a heading line, as a value.
pub fn header() -> (r: String)
    ensures
        r@ == header_key(),
{
    proof {
        reveal_strlit("header");
    }
    String::from_str("header")
}

} // verus!
