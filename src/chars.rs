use vstd::prelude::*;
use vstd::std_specs::iter::IteratorSpec;

verus! {

/// Unicode's White_Space property, which `char::is_whitespace` tests.
pub open spec fn is_space(c: char) -> bool {
    let u = c as u32;
    (0x9 <= u && u <= 0xd) || u == 0x20 || u == 0x85 || u == 0xa0 || u == 0x1680
        || (0x2000 <= u && u <= 0x200a) || u == 0x2028 || u == 0x2029 || u == 0x202f
        || u == 0x205f || u == 0x3000
}

pub open spec fn is_ascii_alnum(c: char) -> bool {
    ('a' <= c && c <= 'z') || ('A' <= c && c <= 'Z') || ('0' <= c && c <= '9')
}

pub open spec fn is_digit(c: char) -> bool {
    '0' <= c && c <= '9'
}

/// The classes of characters that the grammars consume in runs.
#[derive(Clone, Copy, Debug, PartialEq, Eq)]
pub enum CharClass {
    /// Unicode white space.
    Space,
    /// `[A-Za-z0-9]`: tag and attribute names.
    Name,
    /// `[A-Za-z0-9_-]`: CSS identifiers.
    Ident,
    /// `[0-9.]`: numeric literals.
    Number,
    /// `[0-9]`.
    Digit,
    /// Every character but the given one.
    Not(char),
}

impl CharClass {
    pub open spec fn holds(self, c: char) -> bool {
        match self {
            CharClass::Space => is_space(c),
            CharClass::Name => is_ascii_alnum(c),
            CharClass::Ident => is_ascii_alnum(c) || c == '-' || c == '_',
            CharClass::Number => is_digit(c) || c == '.',
            CharClass::Digit => is_digit(c),
            CharClass::Not(x) => c != x,
        }
    }

    pub fn test(self, c: char) -> (r: bool)
        ensures
            r == self.holds(c),
    {
        match self {
            CharClass::Space => {
                let u = c as u32;
                (0x9 <= u && u <= 0xd) || u == 0x20 || u == 0x85 || u == 0xa0 || u == 0x1680
                    || (0x2000 <= u && u <= 0x200a) || u == 0x2028 || u == 0x2029 || u == 0x202f
                    || u == 0x205f || u == 0x3000
            },
            CharClass::Name => ('a' <= c && c <= 'z') || ('A' <= c && c <= 'Z') || ('0' <= c
                && c <= '9'),
            CharClass::Ident => ('a' <= c && c <= 'z') || ('A' <= c && c <= 'Z') || ('0' <= c
                && c <= '9') || c == '-' || c == '_',
            CharClass::Number => ('0' <= c && c <= '9') || c == '.',
            CharClass::Digit => '0' <= c && c <= '9',
            CharClass::Not(x) => c != x,
        }
    }
}

/// The length of the longest run of characters of class `k` in `s` from `p` on.
pub open spec fn run_len(s: Seq<char>, p: int, k: CharClass) -> nat
    decreases s.len() - p,
{
    if 0 <= p < s.len() && k.holds(s[p]) {
        1 + run_len(s, p + 1, k)
    } else {
        0
    }
}

/// The run of characters of class `k` in `s` from `p` on.
pub open spec fn run(s: Seq<char>, p: int, k: CharClass) -> Seq<char> {
    s.subrange(p, p + run_len(s, p, k))
}

/// `s` holds `lit` from position `p` on.
pub open spec fn starts_at(s: Seq<char>, p: int, lit: Seq<char>) -> bool {
    0 <= p && p + lit.len() <= s.len() && s.subrange(p, p + lit.len()) == lit
}

/// Relies on `String::push`: the character goes at the end.
pub assume_specification[ String::push ](s: &mut String, ch: char)
    ensures
        final(s)@ == old(s)@.push(ch),
;

/// The characters of `s`, one element each.
pub fn to_chars(s: &str) -> (r: Vec<char>)
    ensures
        r@ == s@,
{
    let mut v: Vec<char> = Vec::new();
    let mut it = s.chars();
    loop
        invariant
            v@ + it.remaining() == s@,
            it.decrease() is Some,
        ensures
            v@ =~= s@,
        decreases it.decrease()->0,
    {
        match it.next() {
            Some(c) => {
                v.push(c);
            },
            None => {
                assert(v@ + it.remaining() =~= v@);
                break ;
            },
        }
    }
    v
}

pub proof fn lemma_run_len_bounds(s: Seq<char>, p: int, k: CharClass)
    requires
        0 <= p <= s.len(),
    ensures
        p + run_len(s, p, k) <= s.len(),
        forall|i: int| p <= i < p + run_len(s, p, k) ==> k.holds(#[trigger] s[i]),
        p + run_len(s, p, k) < s.len() ==> !k.holds(s[p + run_len(s, p, k)]),
    decreases s.len() - p,
{
    if p < s.len() && k.holds(s[p]) {
        lemma_run_len_bounds(s, p + 1, k);
    }
}

} // verus!
