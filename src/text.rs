//! Strings measured in UTF-16 code units.
use vstd::prelude::*;
use vstd::string::StrSliceExecFns;

verus! {

/// Number of UTF-16 code units that encode `c`.
pub open spec fn unit_width(c: char) -> nat {
    if (c as u32) >= 0x10000 {
        2
    } else {
        1
    }
}

/// Length of `s` in UTF-16 code units.
pub open spec fn code_units(s: Seq<char>) -> nat
    decreases s.len(),
{
    if s.len() == 0 {
        0
    } else {
        unit_width(s[0]) + code_units(s.drop_first())
    }
}

/// How many leading characters of `s` fit entirely within `u` code units.
pub open spec fn chars_within(s: Seq<char>, u: int) -> nat
    decreases s.len(),
{
    if s.len() == 0 {
        0
    } else if unit_width(s[0]) <= u {
        1 + chars_within(s.drop_first(), u - unit_width(s[0]))
    } else {
        0
    }
}

/// The characters of `s` that lie in the code-unit range `[start, end)`,
/// each bound clamped to the length of `s`.
pub open spec fn sub_units(s: Seq<char>, start: int, end: int) -> Seq<char> {
    let a = chars_within(s, start);
    let b = chars_within(s, end);
    if a <= b {
        s.subrange(a as int, b as int)
    } else {
        Seq::empty()
    }
}

pub proof fn lemma_chars_within_bound(s: Seq<char>, u: int)
    ensures
        chars_within(s, u) <= s.len(),
    decreases s.len(),
{
    if s.len() > 0 && unit_width(s[0]) <= u {
        lemma_chars_within_bound(s.drop_first(), u - unit_width(s[0]));
    }
}

pub proof fn lemma_chars_within_mono(s: Seq<char>, u: int, v: int)
    requires
        u <= v,
    ensures
        chars_within(s, u) <= chars_within(s, v),
    decreases s.len(),
{
    if s.len() > 0 && unit_width(s[0]) <= u {
        lemma_chars_within_mono(s.drop_first(), u - unit_width(s[0]), v - unit_width(s[0]));
    }
}

/// Code units of a concatenation add up.
pub proof fn lemma_code_units_concat(a: Seq<char>, b: Seq<char>)
    ensures
        code_units(a + b) == code_units(a) + code_units(b),
    decreases a.len(),
{
    if a.len() > 0 {
        assert((a + b).drop_first() =~= a.drop_first() + b);
        lemma_code_units_concat(a.drop_first(), b);
    } else {
        assert(a + b =~= b);
    }
}

pub proof fn lemma_chars_within_all(s: Seq<char>, u: int)
    requires
        code_units(s) <= u,
    ensures
        chars_within(s, u) == s.len(),
    decreases s.len(),
{
    if s.len() > 0 {
        lemma_chars_within_all(s.drop_first(), u - unit_width(s[0]));
    }
}

pub proof fn lemma_code_units_step(s: Seq<char>, i: int)
    requires
        0 <= i < s.len(),
    ensures
        code_units(s.subrange(i, s.len() as int)) == unit_width(s[i]) + code_units(
            s.subrange(i + 1, s.len() as int),
        ),
{
    assert(s.subrange(i, s.len() as int).drop_first() =~= s.subrange(i + 1, s.len() as int));
}

/// UTF-16 width of one character.
pub fn char_width(c: char) -> (r: usize)
    ensures
        r == unit_width(c),
{
    if (c as u32) >= 0x10000 {
        2
    } else {
        1
    }
}

/// Length of `s` in UTF-16 code units.
pub fn count_utf16_code_units(s: &str) -> (r: usize)
    requires
        code_units(s@) <= usize::MAX,
    ensures
        r == code_units(s@),
{
    let n = s.unicode_len();
    let mut i: usize = 0;
    let mut count: usize = 0;
    proof {
        assert(s@.subrange(0, s@.len() as int) =~= s@);
    }
    while i < n
        invariant
            n == s@.len(),
            i <= n,
            count + code_units(s@.subrange(i as int, n as int)) == code_units(s@),
            code_units(s@) <= usize::MAX,
        decreases n - i,
    {
        let c = s.get_char(i);
        proof {
            lemma_code_units_step(s@, i as int);
        }
        count = count + char_width(c);
        i = i + 1;
    }
    proof {
        assert(s@.subrange(n as int, n as int).len() == 0);
    }
    count
}

/// Length of `s` in UTF-16 code units, or `None` when that does not fit a `usize`.
pub fn count_units_capped(s: &str) -> (r: Option<usize>)
    ensures
        match r {
            Some(c) => c == code_units(s@),
            None => code_units(s@) > usize::MAX,
        },
{
    let n = s.unicode_len();
    let mut i: usize = 0;
    let mut count: usize = 0;
    proof {
        assert(s@.subrange(0, s@.len() as int) =~= s@);
    }
    while i < n
        invariant
            n == s@.len(),
            i <= n,
            count + code_units(s@.subrange(i as int, n as int)) == code_units(s@),
        decreases n - i,
    {
        let c = s.get_char(i);
        proof {
            lemma_code_units_step(s@, i as int);
        }
        match count.checked_add(char_width(c)) {
            None => {
                return None;
            },
            Some(next) => {
                count = next;
            },
        }
        i = i + 1;
    }
    proof {
        assert(s@.subrange(n as int, n as int).len() == 0);
    }
    Some(count)
}

/// Number of leading characters of `s` that fit within `u` code units.
pub fn chars_in_units(s: &str, u: usize) -> (r: usize)
    ensures
        r == chars_within(s@, u as int),
{
    let n = s.unicode_len();
    let mut i: usize = 0;
    let mut rem: usize = u;
    proof {
        assert(s@.subrange(0, s@.len() as int) =~= s@);
    }
    while i < n
        invariant
            n == s@.len(),
            i <= n,
            chars_within(s@, u as int) == i + chars_within(s@.subrange(i as int, n as int), rem as int),
        decreases n - i,
    {
        let c = s.get_char(i);
        let w = char_width(c);
        if w > rem {
            return i;
        }
        proof {
            assert(s@.subrange(i as int, n as int).drop_first() =~= s@.subrange(i + 1, n as int));
        }
        rem = rem - w;
        i = i + 1;
    }
    i
}

/// The slice of `s` between code units `start` and `end`, both clamped to its length.
pub fn sub_str(s: &str, start: usize, end: usize) -> (r: String)
    ensures
        r@ == sub_units(s@, start as int, end as int),
{
    let a = chars_in_units(s, start);
    let b = chars_in_units(s, end);
    proof {
        lemma_chars_within_bound(s@, end as int);
    }
    if a <= b {
        s.substring_char(a, b).to_owned()
    } else {
        String::new()
    }
}

/// Whether `s` is exactly one line break.
pub fn is_newline(s: &str) -> (r: bool)
    ensures
        r == (s@ == seq!['\n']),
{
    let n = s.unicode_len();
    if n != 1 {
        proof {
            if s@ == seq!['\n'] {
                assert(s@.len() == 1);
            }
        }
        return false;
    }
    let c = s.get_char(0);
    proof {
        if c == '\n' {
            assert(s@ =~= seq!['\n']);
        }
    }
    c == '\n'
}

} // verus!
