//! Selecting the collection lines whose leading numeric id is in a list of
//! wanted ids, by one ordered pass over the collection.
use vstd::prelude::*;
use vstd::string::StrSliceExecFns;
use vstd::string::StringSliceAdditionalSpecFns;
use vstd::utf8::encode_utf8;
use crate::tokenizer::{is_space, is_whitespace};

verus! {

pub open spec fn is_digit(b: u8) -> bool {
    48 <= b <= 57
}

/// The number of decimal digits at the start of `s`.
pub open spec fn digit_run(s: Seq<u8>) -> nat
    decreases s.len(),
{
    if s.len() > 0 && is_digit(s[0]) {
        1 + digit_run(s.skip(1))
    } else {
        0
    }
}

/// The value of a sequence of decimal digits.
pub open spec fn decimal(s: Seq<u8>) -> nat
    decreases s.len(),
{
    if s.len() == 0 {
        0
    } else {
        decimal(s.drop_last()) * 10 + (s.last() - 48) as nat
    }
}

pub open spec fn has_sign(s: Seq<u8>) -> bool {
    s.len() > 0 && (s[0] == 43 || s[0] == 45)
}

/// The `u32` that an optional `+` or `-` and the decimal digits after it spell
/// at the start of `s`; `None` where there is neither sign nor digit, where the
/// value passes `u32::MAX`, or where it is negative.
pub open spec fn leading_u32(s: Seq<u8>) -> Option<u32> {
    let start: int = if has_sign(s) {
        1
    } else {
        0
    };
    let rest = s.skip(start);
    let v = decimal(rest.take(digit_run(rest) as int));
    if start + digit_run(rest) == 0 {
        None
    } else if s[0] == 45 {
        if v == 0 {
            Some(0u32)
        } else {
            None
        }
    } else if v <= u32::MAX {
        Some(v as u32)
    } else {
        None
    }
}

/// `s[a..e]` is the first whitespace-separated field of `s`.
pub open spec fn field_bounds(s: Seq<char>, a: int, e: int) -> bool {
    &&& 0 <= a <= e <= s.len()
    &&& forall|i: int| 0 <= i < a ==> is_space(s[i])
    &&& a == s.len() || !is_space(s[a])
    &&& forall|i: int| a <= i < e ==> !is_space(s[i])
    &&& e == s.len() || is_space(s[e])
}

/// Relies on `atoi::atoi::<u32>`: an optional sign, then the leading decimal
/// digits, checked for overflow.
#[verifier::external_body]
fn atoi_u32(text: &[u8]) -> (r: Option<u32>)
    ensures
        r == leading_u32(text@),
{
    atoi::atoi::<u32>(text)
}

pub open spec fn sorted(s: Seq<u32>) -> bool {
    forall|i: int, j: int| 0 <= i <= j < s.len() ==> s[i] <= s[j]
}

/// Relies on `slice::sort`: the same values, in ascending order.
#[verifier::external_body]
fn sort_u32(v: &mut Vec<u32>)
    ensures
        sorted(final(v)@),
        final(v)@.to_multiset() == old(v)@.to_multiset(),
{
    v.sort()
}

/// The number at the start of a line of the id list.
pub fn parse_id(text: &str) -> (r: Option<u32>)
    ensures
        r == leading_u32(encode_utf8(text@)),
{
    atoi_u32(text.as_bytes())
}

/// The number at the start of the first whitespace-separated field of a
/// collection line.
pub fn first_field_id(line: &str) -> (r: Option<u32>)
    requires
        line@.len() <= u32::MAX,
    ensures
        exists|a: int, e: int|
            field_bounds(line@, a, e) && r == leading_u32(encode_utf8(line@.subrange(a, e))),
{
    let mut a: usize = 0;
    let mut e: usize = 0;
    let mut phase: u8 = 0;
    let mut pos: usize = 0;
    for c in it: line.chars()
        invariant
            it.seq() == line@,
            pos == it.index(),
            line@.len() <= u32::MAX,
            phase <= 2,
            phase == 0 ==> forall|i: int| 0 <= i < pos ==> is_space(line@[i]),
            phase >= 1 ==> {
                &&& a < pos
                &&& forall|i: int| 0 <= i < a ==> is_space(line@[i])
                &&& !is_space(line@[a as int])
            },
            phase == 1 ==> forall|i: int| a <= i < pos ==> !is_space(line@[i]),
            phase == 2 ==> a <= e < pos && (forall|i: int| a <= i < e ==> !is_space(line@[i]))
                && is_space(line@[e as int]),
    {
        let ws = is_whitespace(c);
        if phase == 0 && !ws {
            a = pos;
            phase = 1;
        } else if phase == 1 && ws {
            e = pos;
            phase = 2;
        }
        pos += 1;
    }
    let n = line.unicode_len();
    if phase == 0 {
        a = n;
        e = n;
    } else if phase == 1 {
        e = n;
    }
    assert(field_bounds(line@, a as int, e as int));
    let field = line.substring_char(a, e);
    atoi_u32(field.as_bytes())
}

/// The wanted ids in ascending order, and how far one pass over the collection
/// has matched them.
pub struct Selector {
    targets: Vec<u32>,
    cursor: usize,
}

impl Selector {
    pub closed spec fn targets(&self) -> Seq<u32> {
        self.targets@
    }

    /// How many of the targets the pass has matched so far.
    pub closed spec fn cursor(&self) -> nat {
        self.cursor as nat
    }

    pub closed spec fn wf(&self) -> bool {
        self.cursor <= self.targets.len()
    }

    /// A selector for the given ids, which it sorts.
    pub fn new(ids: Vec<u32>) -> (r: Self)
        ensures
            r.wf(),
            sorted(r.targets()),
            r.targets().to_multiset() == ids@.to_multiset(),
            r.cursor() == 0,
    {
        let mut targets = ids;
        sort_u32(&mut targets);
        Selector { targets, cursor: 0 }
    }

    /// Whether every target has been matched.
    pub fn done(&self) -> (r: bool)
        requires
            self.wf(),
        ensures
            r == (self.cursor() == self.targets().len()),
    {
        self.cursor == self.targets.len()
    }

    /// Takes the id of the next collection line and says whether the line is
    /// kept: it is when the id equals the next unmatched target, which is then
    /// matched. A line without an id is never kept.
    pub fn accept(&mut self, id: Option<u32>) -> (keep: bool)
        requires
            old(self).wf(),
        ensures
            final(self).wf(),
            final(self).targets() == old(self).targets(),
            keep == (old(self).cursor() < old(self).targets().len() && id == Some(
                old(self).targets()[old(self).cursor() as int],
            )),
            final(self).cursor() == old(self).cursor() + if keep {
                1nat
            } else {
                0nat
            },
    {
        if self.cursor < self.targets.len() {
            if let Some(v) = id {
                if v == self.targets[self.cursor] {
                    self.cursor = self.cursor + 1;
                    return true;
                }
            }
        }
        false
    }
}

} // verus!
