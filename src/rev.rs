//! Persisted revision codes: the state of a revision and where it came from.
use vstd::prelude::*;
use vstd::string::{StrSliceExecFns, StringExecFns};

verus! {

/// Whether a revision still waits for the server or has been acknowledged.
#[derive(Clone, Copy, PartialEq, Eq, Debug, Hash, Structural)]
pub enum RevState {
    Local,
    Acked,
}

/// The stored code of a revision's origin.
#[derive(Clone, Copy, PartialEq, Eq, Debug, Hash, Structural)]
pub enum RevTableType {
    Local,
    Remote,
}

/// The origin of a revision.
#[derive(Clone, Copy, PartialEq, Eq, Debug, Hash, Structural)]
pub enum RevType {
    Local,
    Remote,
}

/// Stored codes read tolerantly: any unknown code stands for `Local`.
pub open spec fn state_of_code(value: i32) -> RevState {
    if value == 1 {
        RevState::Acked
    } else {
        RevState::Local
    }
}

pub open spec fn table_type_of_code(value: i32) -> RevTableType {
    if value == 1 {
        RevTableType::Remote
    } else {
        RevTableType::Local
    }
}

impl RevState {
    pub open spec fn code(&self) -> i32 {
        match self {
            RevState::Local => 0,
            RevState::Acked => 1,
        }
    }

    pub fn value(&self) -> (r: i32)
        ensures
            r == self.code(),
    {
        match self {
            RevState::Local => 0,
            RevState::Acked => 1,
        }
    }
}

impl RevTableType {
    pub open spec fn code(&self) -> i32 {
        match self {
            RevTableType::Local => 0,
            RevTableType::Remote => 1,
        }
    }

    pub fn value(&self) -> (r: i32)
        ensures
            r == self.code(),
    {
        match self {
            RevTableType::Local => 0,
            RevTableType::Remote => 1,
        }
    }
}

impl Default for RevState {
    fn default() -> (r: RevState)
        ensures
            r == RevState::Local,
    {
        RevState::Local
    }
}

impl Default for RevTableType {
    fn default() -> (r: RevTableType)
        ensures
            r == RevTableType::Local,
    {
        RevTableType::Local
    }
}

impl From<i32> for RevState {
    fn from(value: i32) -> (r: RevState) {
        match value {
            0 => RevState::Local,
            1 => RevState::Acked,
            _ => RevState::Local,
        }
    }
}

impl vstd::std_specs::convert::FromSpecImpl<i32> for RevState {
    open spec fn obeys_from_spec() -> bool {
        true
    }

    open spec fn from_spec(v: i32) -> RevState {
        state_of_code(v)
    }
}

impl From<i32> for RevTableType {
    fn from(value: i32) -> (r: RevTableType) {
        match value {
            0 => RevTableType::Local,
            1 => RevTableType::Remote,
            _ => RevTableType::Local,
        }
    }
}

impl vstd::std_specs::convert::FromSpecImpl<i32> for RevTableType {
    open spec fn obeys_from_spec() -> bool {
        true
    }

    open spec fn from_spec(v: i32) -> RevTableType {
        table_type_of_code(v)
    }
}

impl From<RevType> for RevTableType {
    fn from(ty: RevType) -> (r: RevTableType) {
        match ty {
            RevType::Local => RevTableType::Local,
            RevType::Remote => RevTableType::Remote,
        }
    }
}

impl vstd::std_specs::convert::FromSpecImpl<RevType> for RevTableType {
    open spec fn obeys_from_spec() -> bool {
        true
    }

    open spec fn from_spec(v: RevType) -> RevTableType {
        match v {
            RevType::Local => RevTableType::Local,
            RevType::Remote => RevTableType::Remote,
        }
    }
}

impl From<RevTableType> for RevType {
    fn from(ty: RevTableType) -> (r: RevType) {
        match ty {
            RevTableType::Local => RevType::Local,
            RevTableType::Remote => RevType::Remote,
        }
    }
}

impl vstd::std_specs::convert::FromSpecImpl<RevTableType> for RevType {
    open spec fn obeys_from_spec() -> bool {
        true
    }

    open spec fn from_spec(v: RevTableType) -> RevType {
        match v {
            RevTableType::Local => RevType::Local,
            RevTableType::Remote => RevType::Remote,
        }
    }
}

/// The MD5 digest of `data`.
pub uninterp spec fn md5_of(data: Seq<u8>) -> Seq<u8>;

/// Relies on `md5::compute`: the 16-byte MD5 digest of the bytes, a function of them alone.
#[verifier::external_body]
fn md5_digest(data: &Vec<u8>) -> (r: Vec<u8>)
    ensures
        r@ == md5_of(data@),
        r@.len() == 16,
{
    md5::compute(data).0.to_vec()
}

/// The lower-case hexadecimal digit of `v`.
pub open spec fn hex_digit(v: int) -> char {
    if v < 10 {
        (('0' as int) + v) as char
    } else {
        (('a' as int) + v - 10) as char
    }
}

/// Two lower-case hexadecimal digits for each byte, high nibble first.
pub open spec fn hex_of(b: Seq<u8>) -> Seq<char>
    decreases b.len(),
{
    if b.len() == 0 {
        Seq::empty()
    } else {
        hex_of(b.drop_last()) + seq![hex_digit(b.last() as int / 16), hex_digit(b.last() as int % 16)]
    }
}

pub(crate) fn hex_char(v: u8) -> (r: String)
    requires
        v < 16,
    ensures
        r@ == seq![hex_digit(v as int)],
{
    let digits = "0123456789abcdef";
    proof {
        reveal_strlit("0123456789abcdef");
    }
    let d = digits.substring_char(v as usize, v as usize + 1);
    let r = d.to_owned();
    proof {
        assert(digits@[v as int] == hex_digit(v as int));
        assert(r@ =~= seq![hex_digit(v as int)]);
    }
    r
}

/// Lower-case hexadecimal text of `b`.
pub fn to_hex(b: &Vec<u8>) -> (r: String)
    ensures
        r@ == hex_of(b@),
{
    let mut out = String::new();
    let mut i: usize = 0;
    while i < b.len()
        invariant
            i <= b@.len(),
            out@ == hex_of(b@.take(i as int)),
        decreases b@.len() - i,
    {
        let v = b[i];
        let hi = hex_char(v / 16);
        let lo = hex_char(v % 16);
        out.append(hi.as_str());
        out.append(lo.as_str());
        proof {
            assert(b@.take(i + 1).drop_last() =~= b@.take(i as int));
            assert(b@.take(i + 1).last() == v);
            assert(hi@ + lo@ =~= seq![hex_digit(v as int / 16), hex_digit(v as int % 16)]);
        }
        i = i + 1;
    }
    proof {
        assert(b@.take(b@.len() as int) =~= b@);
    }
    out
}

/// The MD5 checksum of `data` as lower-case hexadecimal text.
pub fn md5(data: &Vec<u8>) -> (r: String)
    ensures
        r@ == hex_of(md5_of(data@)),
{
    to_hex(&md5_digest(data))
}

/// A numbered delta of one document, as it travels.
pub struct Revision {
    pub doc_id: String,
    pub base_rev_id: i64,
    pub rev_id: i64,
    pub delta_data: Vec<u8>,
    pub md5: String,
    pub ty: RevType,
}

/// A stored revision row.
pub struct RevTable {
    pub id: i32,
    pub doc_id: String,
    pub base_rev_id: i64,
    pub rev_id: i64,
    pub data: Vec<u8>,
    pub state: RevState,
    pub ty: RevTableType,
}

impl Revision {
    /// The revision a stored row holds, with its checksum computed afresh.
    pub fn from_table(table: RevTable) -> (r: Revision)
        ensures
            r.doc_id == table.doc_id,
            r.base_rev_id == table.base_rev_id,
            r.rev_id == table.rev_id,
            r.delta_data == table.data,
            r.md5@ == hex_of(md5_of(table.data@)),
            r.ty == (match table.ty {
                RevTableType::Local => RevType::Local,
                RevTableType::Remote => RevType::Remote,
            }),
    {
        let md5 = md5(&table.data);
        Revision {
            base_rev_id: table.base_rev_id,
            rev_id: table.rev_id,
            delta_data: table.data,
            md5,
            doc_id: table.doc_id,
            ty: RevType::from(table.ty),
        }
    }
}

/// A stored state code read back gives the same state.
pub proof fn lemma_state_code_round_trip(s: RevState)
    ensures
        state_of_code(s.code()) == s,
{
}

/// A stored origin code read back gives the same origin.
pub proof fn lemma_table_type_code_round_trip(t: RevTableType)
    ensures
        table_type_of_code(t.code()) == t,
{
}

} // verus!
