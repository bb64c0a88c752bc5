//! Keys that identify a child among its siblings.
use vstd::prelude::*;
use vstd::std_specs::convert::{FromSpec, FromSpecImpl};
use vstd::std_specs::cmp::PartialEqSpecImpl;
use vstd::string::StringSliceAdditionalSpecFns;

verus! {

/// A numeric child key.
#[derive(Debug, Clone, Copy, PartialEq, Eq, PartialOrd, Ord, Hash, Structural)]
pub enum NumberKey {
    Unsigned(u32),
    Signed(i32),
    Pair(u16, u16),
    Trio(u16, u16, u16),
}

/// The key of a child: either a static string or a number.
#[derive(Debug, Clone, Copy, Eq, PartialOrd, Ord, Hash)]
pub enum ChildKey {
    String(&'static str),
    Number(NumberKey),
}

/// The mathematical value of a [`ChildKey`]: the characters of a string key,
/// or the number itself.
pub enum ChildKeyView {
    Text(Seq<char>),
    Number(NumberKey),
}

impl View for ChildKey {
    type V = ChildKeyView;

    open spec fn view(&self) -> ChildKeyView {
        match self {
            ChildKey::String(s) => ChildKeyView::Text(s@),
            ChildKey::Number(n) => ChildKeyView::Number(*n),
        }
    }
}

/// Compares two string slices character by character.
pub fn str_equal(a: &str, b: &str) -> (r: bool)
    ensures
        r == (a@ == b@),
{
    let x = a.as_bytes();
    let y = b.as_bytes();
    proof {
        vstd::utf8::encode_utf8_decode_utf8(a@);
        vstd::utf8::encode_utf8_decode_utf8(b@);
    }
    if x.len() != y.len() {
        return false;
    }
    let mut i: usize = 0;
    while i < x.len()
        invariant
            x@ == a.spec_bytes(),
            y@ == b.spec_bytes(),
            x@.len() == y@.len(),
            0 <= i <= x@.len(),
            forall|j: int| 0 <= j < i ==> x@[j] == y@[j],
        decreases x@.len() - i,
    {
        if x[i] != y[i] {
            return false;
        }
        i = i + 1;
    }
    proof {
        assert(x@ =~= y@);
    }
    true
}

impl PartialEq for ChildKey {
    fn eq(&self, other: &Self) -> (r: bool) {
        match (self, other) {
            (ChildKey::String(a), ChildKey::String(b)) => str_equal(a, b),
            (ChildKey::Number(a), ChildKey::Number(b)) => *a == *b,
            _ => false,
        }
    }
}

impl PartialEqSpecImpl for ChildKey {
    open spec fn obeys_eq_spec() -> bool {
        true
    }

    open spec fn eq_spec(&self, other: &ChildKey) -> bool {
        self@ == other@
    }
}

impl From<u32> for ChildKey {
    fn from(value: u32) -> (r: Self) {
        ChildKey::Number(NumberKey::Unsigned(value))
    }
}

impl FromSpecImpl<u32> for ChildKey {
    open spec fn obeys_from_spec() -> bool {
        true
    }

    open spec fn from_spec(v: u32) -> ChildKey {
        ChildKey::Number(NumberKey::Unsigned(v))
    }
}

impl From<i32> for ChildKey {
    fn from(value: i32) -> (r: Self) {
        ChildKey::Number(NumberKey::Signed(value))
    }
}

impl FromSpecImpl<i32> for ChildKey {
    open spec fn obeys_from_spec() -> bool {
        true
    }

    open spec fn from_spec(v: i32) -> ChildKey {
        ChildKey::Number(NumberKey::Signed(v))
    }
}

impl From<(u16, u16)> for ChildKey {
    fn from(value: (u16, u16)) -> (r: Self) {
        ChildKey::Number(NumberKey::Pair(value.0, value.1))
    }
}

impl FromSpecImpl<(u16, u16)> for ChildKey {
    open spec fn obeys_from_spec() -> bool {
        true
    }

    open spec fn from_spec(v: (u16, u16)) -> ChildKey {
        ChildKey::Number(NumberKey::Pair(v.0, v.1))
    }
}

impl From<(u16, u16, u16)> for ChildKey {
    fn from(value: (u16, u16, u16)) -> (r: Self) {
        ChildKey::Number(NumberKey::Trio(value.0, value.1, value.2))
    }
}

impl FromSpecImpl<(u16, u16, u16)> for ChildKey {
    open spec fn obeys_from_spec() -> bool {
        true
    }

    open spec fn from_spec(v: (u16, u16, u16)) -> ChildKey {
        ChildKey::Number(NumberKey::Trio(v.0, v.1, v.2))
    }
}

impl From<&'static str> for ChildKey {
    fn from(value: &'static str) -> (r: Self) {
        ChildKey::String(value)
    }
}

impl FromSpecImpl<&'static str> for ChildKey {
    open spec fn obeys_from_spec() -> bool {
        true
    }

    open spec fn from_spec(v: &'static str) -> ChildKey {
        ChildKey::String(v)
    }
}

/// A key made from a number is that number, tagged with the kind of number
/// it was made from; a key made from a string is that string. So keys made
/// from numbers of different kinds never match, even when the numbers are
/// equal, and a number key never matches a string key.
pub proof fn lemma_keys_keep_their_kind(s: i32, u: u32, p: (u16, u16), t: (u16, u16, u16), text: &'static str)
    ensures
        <ChildKey as FromSpec<i32>>::from_spec(s) == ChildKey::Number(NumberKey::Signed(s)),
        <ChildKey as FromSpec<u32>>::from_spec(u) == ChildKey::Number(NumberKey::Unsigned(u)),
        <ChildKey as FromSpec<(u16, u16)>>::from_spec(p) == ChildKey::Number(NumberKey::Pair(p.0, p.1)),
        <ChildKey as FromSpec<(u16, u16, u16)>>::from_spec(t) == ChildKey::Number(
            NumberKey::Trio(t.0, t.1, t.2),
        ),
        <ChildKey as FromSpec<&'static str>>::from_spec(text) == ChildKey::String(text),
        <ChildKey as FromSpec<i32>>::from_spec(s)@ != <ChildKey as FromSpec<u32>>::from_spec(u)@,
        <ChildKey as FromSpec<i32>>::from_spec(s)@ != <ChildKey as FromSpec<&'static str>>::from_spec(text)@,
        <ChildKey as FromSpec<u32>>::from_spec(u)@ != <ChildKey as FromSpec<&'static str>>::from_spec(text)@,
{
}

/// Keys made from two numbers of one kind match exactly when the numbers are
/// equal.
pub proof fn lemma_number_keys_match_equal_numbers(a: i32, b: i32, c: u32, d: u32)
    ensures
        (<ChildKey as FromSpec<i32>>::from_spec(a)@ == <ChildKey as FromSpec<i32>>::from_spec(b)@) == (a == b),
        (<ChildKey as FromSpec<u32>>::from_spec(c)@ == <ChildKey as FromSpec<u32>>::from_spec(d)@) == (c == d),
{
}

} // verus!
