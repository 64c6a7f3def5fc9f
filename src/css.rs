//! The stylesheet model: rules, selectors, declarations and values, with the
//! decoding of color and number literals and the ordering of selectors by
//! specificity.
use vstd::prelude::*;
use crate::chars::{run_len, to_chars, CharClass};

verus! {

broadcast use vstd::std_specs::vec::group_vec_axioms;

/// A stylesheet: its rules in source order.
#[derive(Debug, PartialEq)]
pub struct Stylesheet {
    pub rules: Vec<Rule>,
}

/// Selectors, most specific first, and declarations in source order.
#[derive(Debug, PartialEq)]
pub struct Rule {
    pub selectors: Vec<Selector>,
    pub declarations: Vec<Declaration>,
}

#[derive(Debug, PartialEq)]
pub enum Selector {
    Simple(SimpleSelector),
}

/// `tag#id.class1.class2`: each part optional.
#[derive(Debug, PartialEq)]
pub struct SimpleSelector {
    pub tag_name: Option<String>,
    pub id: Option<String>,
    pub class: Vec<String>,
}

#[derive(Debug, PartialEq)]
pub struct Declaration {
    pub name: String,
    pub value: Value,
}

#[derive(Debug, PartialEq)]
pub enum Value {
    Keyword(String),
    Length(Decimal, Unit),
    ColorValue(Color),
}

#[derive(Debug, Clone, Copy, PartialEq, Eq)]
pub enum Unit {
    Px,
}

#[derive(Debug, Clone, Copy, PartialEq, Eq)]
pub struct Color {
    pub r: u8,
    pub g: u8,
    pub b: u8,
    pub a: u8,
}

/// Why a color literal was refused.
#[derive(Debug, Clone, Copy, PartialEq, Eq)]
pub enum ColorError {
    /// Not 6 or 8 characters after the leading `#`.
    BadLength,
    /// A character that is not a hexadecimal digit.
    BadDigit,
}

/// An exact non-negative decimal number: the digits before the point without
/// leading zeros, and the digits after it without trailing zeros, so that
/// equal numbers are equal values. Zero has no digits at all.
#[derive(Debug, Clone, PartialEq, Eq)]
pub struct Decimal {
    pub whole: Vec<u8>,
    pub fraction: Vec<u8>,
}

/// `(ids, classes, tag names)`, compared in that order.
pub type Specificity = (usize, usize, usize);

// ---------------------------------------------------------------- models

pub struct SimpleModel {
    pub tag_name: Option<Seq<char>>,
    pub id: Option<Seq<char>>,
    pub classes: Seq<Seq<char>>,
}

pub enum SelectorModel {
    Simple(SimpleModel),
}

pub enum ValueModel {
    Keyword(Seq<char>),
    Length(Seq<u8>, Seq<u8>, Unit),
    ColorValue(Color),
}

pub struct DeclarationModel {
    pub name: Seq<char>,
    pub value: ValueModel,
}

pub struct RuleModel {
    pub selectors: Seq<SelectorModel>,
    pub declarations: Seq<DeclarationModel>,
}

pub open spec fn opt_view(o: Option<String>) -> Option<Seq<char>> {
    match o {
        Some(s) => Some(s@),
        None => None,
    }
}

impl SimpleSelector {
    pub open spec fn model(&self) -> SimpleModel {
        SimpleModel {
            tag_name: opt_view(self.tag_name),
            id: opt_view(self.id),
            classes: self.class@.map_values(|c: String| c@),
        }
    }
}

impl Selector {
    pub open spec fn model(&self) -> SelectorModel {
        match self {
            Selector::Simple(s) => SelectorModel::Simple(s.model()),
        }
    }

    /// `(ids, classes, tag names)` of this selector.
    pub fn specificity(&self) -> (r: Specificity)
        ensures
            r == specificity_of(self.model()),
    {
        let Selector::Simple(simple) = self;
        let a: usize = if simple.id.is_some() {
            1
        } else {
            0
        };
        let b = simple.class.len();
        let c: usize = if simple.tag_name.is_some() {
            1
        } else {
            0
        };
        (a, b, c)
    }
}

impl Value {
    pub open spec fn model(&self) -> ValueModel {
        match self {
            Value::Keyword(k) => ValueModel::Keyword(k@),
            Value::Length(d, u) => ValueModel::Length(d.whole@, d.fraction@, *u),
            Value::ColorValue(c) => ValueModel::ColorValue(*c),
        }
    }
}

impl Declaration {
    pub open spec fn model(&self) -> DeclarationModel {
        DeclarationModel { name: self.name@, value: self.value.model() }
    }
}

pub open spec fn selector_models(v: Seq<Selector>) -> Seq<SelectorModel> {
    v.map_values(|s: Selector| s.model())
}

pub open spec fn declaration_models(v: Seq<Declaration>) -> Seq<DeclarationModel> {
    v.map_values(|d: Declaration| d.model())
}

impl Rule {
    pub open spec fn model(&self) -> RuleModel {
        RuleModel {
            selectors: selector_models(self.selectors@),
            declarations: declaration_models(self.declarations@),
        }
    }
}

impl Stylesheet {
    pub open spec fn model(&self) -> Seq<RuleModel> {
        self.rules@.map_values(|r: Rule| r.model())
    }
}

// ---------------------------------------------------------------- specificity

pub open spec fn specificity_of(m: SelectorModel) -> Specificity {
    match m {
        SelectorModel::Simple(s) => (
            if s.id is Some {
                1usize
            } else {
                0usize
            },
            s.classes.len() as usize,
            if s.tag_name is Some {
                1usize
            } else {
                0usize
            },
        ),
    }
}

/// `a` is less specific than `b`.
pub open spec fn less_specific(a: Specificity, b: Specificity) -> bool {
    a.0 < b.0 || (a.0 == b.0 && (a.1 < b.1 || (a.1 == b.1 && a.2 < b.2)))
}

/// Where `x` goes in `v`, which is sorted most specific first: after every
/// selector at least as specific as it.
pub open spec fn insert_index(v: Seq<SelectorModel>, x: SelectorModel) -> nat
    decreases v.len(),
{
    if v.len() == 0 {
        0
    } else if less_specific(specificity_of(v[0]), specificity_of(x)) {
        0
    } else {
        1 + insert_index(v.drop_first(), x)
    }
}

/// `v` sorted most specific first; equally specific selectors keep their
/// order.
pub open spec fn sort_by_specificity(v: Seq<SelectorModel>) -> Seq<SelectorModel>
    decreases v.len(),
{
    if v.len() == 0 {
        v
    } else {
        let r = sort_by_specificity(v.drop_last());
        r.insert(insert_index(r, v.last()) as int, v.last())
    }
}

pub proof fn lemma_insert_index_bound(v: Seq<SelectorModel>, x: SelectorModel)
    ensures
        insert_index(v, x) <= v.len(),
        forall|i: int| 0 <= i < insert_index(v, x) ==> !less_specific(
            specificity_of(#[trigger] v[i]),
            specificity_of(x),
        ),
        insert_index(v, x) < v.len() ==> less_specific(
            specificity_of(v[insert_index(v, x) as int]),
            specificity_of(x),
        ),
    decreases v.len(),
{
    if v.len() > 0 && !less_specific(specificity_of(v[0]), specificity_of(x)) {
        lemma_insert_index_bound(v.drop_first(), x);
        assert forall|i: int| 0 <= i < insert_index(v, x) implies !less_specific(
            specificity_of(#[trigger] v[i]),
            specificity_of(x),
        ) by {
            if i > 0 {
                assert(v[i] == v.drop_first()[i - 1]);
            }
        }
    }
}

pub proof fn lemma_sort_len(v: Seq<SelectorModel>)
    ensures
        sort_by_specificity(v).len() == v.len(),
    decreases v.len(),
{
    if v.len() > 0 {
        lemma_sort_len(v.drop_last());
        lemma_insert_index_bound(sort_by_specificity(v.drop_last()), v.last());
    }
}

/// Sorts `v` most specific first, keeping the order of equally specific
/// selectors.
pub fn sort_selectors(v: Vec<Selector>) -> (r: Vec<Selector>)
    ensures
        selector_models(r@) == sort_by_specificity(selector_models(v@)),
{
    let ghost orig = selector_models(v@);
    let mut v = v;
    let mut out: Vec<Selector> = Vec::new();
    let ghost k: int = 0;
    assert(orig.take(0) =~= Seq::<SelectorModel>::empty());
    assert(selector_models(out@) =~= Seq::<SelectorModel>::empty());
    while v.len() > 0
        invariant
            0 <= k <= orig.len(),
            selector_models(v@) == orig.skip(k),
            selector_models(out@) == sort_by_specificity(orig.take(k)),
        decreases v.len(),
    {
        assert(selector_models(v@).len() == v.len());
        let sel = v.remove(0);
        let key = sel.specificity();
        proof {
            lemma_sort_len(orig.take(k));
            assert(orig.skip(k)[0] == sel.model());
        }
        let ghost sorted = selector_models(out@);
        let mut j: usize = 0;
        while j < out.len()
            invariant
                j <= out.len(),
                sorted == selector_models(out@),
                key == specificity_of(sel.model()),
                forall|i: int| 0 <= i < j ==> !less_specific(
                    specificity_of(#[trigger] sorted[i]),
                    specificity_of(sel.model()),
                ),
            ensures
                j <= out.len(),
                j < out.len() ==> less_specific(
                    specificity_of(sorted[j as int]),
                    specificity_of(sel.model()),
                ),
                forall|i: int| 0 <= i < j ==> !less_specific(
                    specificity_of(#[trigger] sorted[i]),
                    specificity_of(sel.model()),
                ),
            decreases out.len() - j,
        {
            let other = out[j].specificity();
            assert(sorted[j as int] == out@[j as int].model());
            if other.0 < key.0 || (other.0 == key.0 && (other.1 < key.1 || (other.1 == key.1
                && other.2 < key.2))) {
                break ;
            }
            j += 1;
        }
        proof {
            lemma_insert_index_bound(sorted, sel.model());
            lemma_insert_index_at(sorted, sel.model(), j as int);
            let t = orig.take(k + 1);
            assert(t.drop_last() =~= orig.take(k));
            assert(t.last() == sel.model());
            assert(orig.skip(k + 1) =~= orig.skip(k).drop_first());
        }
        out.insert(j, sel);
        proof {
            k = k + 1;
            assert(selector_models(v@) =~= orig.skip(k));
            assert(selector_models(out@) =~= sorted.insert(j as int, sel.model()));
        }
    }
    assert(orig.take(k) =~= orig);
    out
}

/// The first selector less specific than `x` stands at `j`, or there is none
/// and `j` is the length: `j` is where `x` goes.
proof fn lemma_insert_index_at(v: Seq<SelectorModel>, x: SelectorModel, j: int)
    requires
        0 <= j <= v.len(),
        forall|i: int| 0 <= i < j ==> !less_specific(
            specificity_of(#[trigger] v[i]),
            specificity_of(x),
        ),
        j < v.len() ==> less_specific(specificity_of(v[j]), specificity_of(x)),
    ensures
        insert_index(v, x) == j,
    decreases v.len(),
{
    if v.len() > 0 && j > 0 {
        assert forall|i: int| 0 <= i < j - 1 implies !less_specific(
            specificity_of(#[trigger] v.drop_first()[i]),
            specificity_of(x),
        ) by {
            assert(v.drop_first()[i] == v[i + 1]);
        }
        lemma_insert_index_at(v.drop_first(), x, j - 1);
    }
}

// ---------------------------------------------------------------- colors

/// The value of a hexadecimal digit, or -1 for another character.
pub open spec fn hex_value(c: char) -> int {
    if '0' <= c && c <= '9' {
        c as int - '0' as int
    } else if 'a' <= c && c <= 'f' {
        c as int - 'a' as int + 10
    } else if 'A' <= c && c <= 'F' {
        c as int - 'A' as int + 10
    } else {
        -1
    }
}

pub open spec fn is_hex(c: char) -> bool {
    hex_value(c) >= 0
}

/// The byte written by the two digits of `h` from `i` on.
pub open spec fn hex_byte(h: Seq<char>, i: int) -> u8 {
    (hex_value(h[i]) * 16 + hex_value(h[i + 1])) as u8
}

/// `s` without its first character where that is a `#`.
pub open spec fn color_digits(s: Seq<char>) -> Seq<char> {
    if s.len() > 0 && s[0] == '#' {
        s.skip(1)
    } else {
        s
    }
}

/// A color from `rrggbb` or `rrggbbaa` after one leading `#`, if any; the first form
/// is opaque.
pub open spec fn decode_color(s: Seq<char>) -> Result<Color, ColorError> {
    let h = color_digits(s);
    if h.len() != 6 && h.len() != 8 {
        Err(ColorError::BadLength)
    } else if exists|i: int| 0 <= i < h.len() && !is_hex(#[trigger] h[i]) {
        Err(ColorError::BadDigit)
    } else {
        Ok(
            Color {
                r: hex_byte(h, 0),
                g: hex_byte(h, 2),
                b: hex_byte(h, 4),
                a: if h.len() == 8 {
                    hex_byte(h, 6)
                } else {
                    255
                },
            },
        )
    }
}

fn hex_digit(c: char) -> (r: Option<u8>)
    ensures
        match r {
            Some(d) => is_hex(c) && d == hex_value(c),
            None => !is_hex(c),
        },
{
    if '0' <= c && c <= '9' {
        Some(((c as u32) - ('0' as u32)) as u8)
    } else if 'a' <= c && c <= 'f' {
        Some(((c as u32) - ('a' as u32) + 10) as u8)
    } else if 'A' <= c && c <= 'F' {
        Some(((c as u32) - ('A' as u32) + 10) as u8)
    } else {
        None
    }
}

/// The byte written by the two digits of `v` from `i` on.
fn hex_pair(v: &Vec<char>, i: usize) -> (r: Option<u8>)
    requires
        i + 1 < v.len(),
    ensures
        match r {
            Some(b) => is_hex(v@[i as int]) && is_hex(v@[i + 1]) && b == hex_byte(v@, i as int),
            None => !is_hex(v@[i as int]) || !is_hex(v@[i + 1]),
        },
{
    match (hex_digit(v[i]), hex_digit(v[i + 1])) {
        (Some(hi), Some(lo)) => Some(hi * 16 + lo),
        _ => None,
    }
}

impl Color {
    /// Decodes `rrggbb` or `rrggbbaa`, after one leading `#`, if any.
    pub fn try_from(value: String) -> (r: Result<Color, ColorError>)
        ensures
            r == decode_color(value@),
    {
        let v = to_chars(value.as_str());
        let k: usize = if v.len() > 0 && v[0] == '#' {
            1
        } else {
            0
        };
        let ghost h = v@.skip(k as int);
        assert(v@.skip(0) =~= v@);
        assert(h == color_digits(value@));
        let n = v.len() - k;
        if n != 6 && n != 8 {
            return Err(ColorError::BadLength);
        }
        let r = hex_pair(&v, k);
        let g = hex_pair(&v, k + 2);
        let b = hex_pair(&v, k + 4);
        let a = if n == 8 {
            hex_pair(&v, k + 6)
        } else {
            Some(255u8)
        };
        match (r, g, b, a) {
            (Some(r), Some(g), Some(b), Some(a)) => {
                assert forall|i: int| 0 <= i < h.len() implies is_hex(#[trigger] h[i]) by {
                    assert(h[i] == v@[k + i]);
                    if i >= 6 {
                        assert(n == 8);
                    }
                }
                assert(hex_byte(h, 0) == hex_byte(v@, k as int));
                assert(hex_byte(h, 2) == hex_byte(v@, k + 2));
                assert(hex_byte(h, 4) == hex_byte(v@, k + 4));
                assert(n == 8 ==> hex_byte(h, 6) == hex_byte(v@, k + 6));
                Ok(Color { r, g, b, a })
            },
            _ => {
                assert(exists|i: int| 0 <= i < h.len() && !is_hex(#[trigger] h[i])) by {
                    if !is_hex(v@[k as int]) {
                        assert(h[0] == v@[k as int]);
                    } else if !is_hex(v@[k + 1]) {
                        assert(h[1] == v@[k + 1]);
                    } else if !is_hex(v@[k + 2]) {
                        assert(h[2] == v@[k + 2]);
                    } else if !is_hex(v@[k + 3]) {
                        assert(h[3] == v@[k + 3]);
                    } else if !is_hex(v@[k + 4]) {
                        assert(h[4] == v@[k + 4]);
                    } else if !is_hex(v@[k + 5]) {
                        assert(h[5] == v@[k + 5]);
                    } else if !is_hex(v@[k + 6]) {
                        assert(h[6] == v@[k + 6]);
                    } else {
                        assert(h[7] == v@[k + 7]);
                    }
                }
                Err(ColorError::BadDigit)
            },
        }
    }
}

// ---------------------------------------------------------------- numbers

pub open spec fn digit_values(s: Seq<char>) -> Seq<u8> {
    s.map_values(|c: char| (c as int - '0' as int) as u8)
}

pub open spec fn trim_leading_zeros(d: Seq<u8>) -> Seq<u8>
    decreases d.len(),
{
    if d.len() > 0 && d[0] == 0 {
        trim_leading_zeros(d.drop_first())
    } else {
        d
    }
}

pub open spec fn trim_trailing_zeros(d: Seq<u8>) -> Seq<u8>
    decreases d.len(),
{
    if d.len() > 0 && d.last() == 0 {
        trim_trailing_zeros(d.drop_last())
    } else {
        d
    }
}

/// The number written by digits with at most one point among them, as the
/// digits before and after the point, or `None` where the literal is not
/// such a number.
pub open spec fn decode_number(s: Seq<char>) -> Option<(Seq<u8>, Seq<u8>)> {
    let k = run_len(s, 0, CharClass::Digit) as int;
    let whole = trim_leading_zeros(digit_values(s.take(k)));
    if k == s.len() {
        Some((whole, Seq::empty()))
    } else if s[k] == '.' && run_len(s, k + 1, CharClass::Digit) == s.len() - k - 1 {
        Some((whole, trim_trailing_zeros(digit_values(s.skip(k + 1)))))
    } else {
        None
    }
}

proof fn lemma_trim_leading(d: Seq<u8>, z: int)
    requires
        0 <= z <= d.len(),
        forall|i: int| 0 <= i < z ==> d[i] == 0,
        z == d.len() || d[z] != 0,
    ensures
        trim_leading_zeros(d) == d.skip(z),
    decreases z,
{
    if z == 0 {
        assert(d.skip(0) =~= d);
    } else {
        lemma_trim_leading(d.drop_first(), z - 1);
        assert(d.drop_first().skip(z - 1) =~= d.skip(z));
    }
}

proof fn lemma_trim_trailing(d: Seq<u8>, e: int)
    requires
        0 <= e <= d.len(),
        forall|i: int| e <= i < d.len() ==> d[i] == 0,
        e == 0 || d[e - 1] != 0,
    ensures
        trim_trailing_zeros(d) == d.take(e),
    decreases d.len() - e,
{
    if e == d.len() {
        assert(d.take(e) =~= d);
    } else {
        lemma_trim_trailing(d.drop_last(), e);
        assert(d.drop_last().take(e) =~= d.take(e));
    }
}

/// The values of the digits of `v` from `from` up to `to`.
fn digits_between(v: &Vec<char>, from: usize, to: usize) -> (r: Vec<u8>)
    requires
        from <= to <= v.len(),
        forall|i: int| from <= i < to ==> crate::chars::is_digit(#[trigger] v@[i]),
    ensures
        r@ == digit_values(v@.subrange(from as int, to as int)),
{
    let mut r: Vec<u8> = Vec::new();
    let mut i = from;
    while i < to
        invariant
            from <= i <= to,
            to <= v.len(),
            forall|j: int| from <= j < to ==> crate::chars::is_digit(#[trigger] v@[j]),
            r@ == digit_values(v@.subrange(from as int, i as int)),
        decreases to - i,
    {
        r.push(((v[i] as u32) - ('0' as u32)) as u8);
        i += 1;
        assert(r@ =~= digit_values(v@.subrange(from as int, i as int)));
    }
    r
}

impl Decimal {
    /// Digits are below ten, `whole` has no leading zero and `fraction` no
    /// trailing one.
    pub open spec fn wf(&self) -> bool {
        &&& forall|i: int| 0 <= i < self.whole.len() ==> #[trigger] self.whole@[i] < 10
        &&& forall|i: int| 0 <= i < self.fraction.len() ==> #[trigger] self.fraction@[i] < 10
        &&& (self.whole.len() == 0 || self.whole@[0] != 0)
        &&& (self.fraction.len() == 0 || self.fraction@.last() != 0)
    }

    /// Decodes a literal of digits with at most one point among them.
    pub fn parse(v: &Vec<char>) -> (r: Option<Decimal>)
        ensures
            match r {
                Some(d) => d.wf() && decode_number(v@) == Some((d.whole@, d.fraction@)),
                None => decode_number(v@) is None,
            },
    {
        let ghost s = v@;
        let mut k: usize = 0;
        while k < v.len() && '0' <= v[k] && v[k] <= '9'
            invariant
                k <= v.len(),
                s == v@,
                forall|i: int| 0 <= i < k ==> crate::chars::is_digit(#[trigger] v@[i]),
                run_len(s, 0, CharClass::Digit) == k + run_len(s, k as int, CharClass::Digit),
            decreases v.len() - k,
        {
            k += 1;
        }
        let mut z: usize = 0;
        while z < k && v[z] == '0'
            invariant
                z <= k,
                k <= v.len(),
                forall|i: int| 0 <= i < z ==> v@[i] == '0',
            decreases k - z,
        {
            z += 1;
        }
        let whole = digits_between(v, z, k);
        assert(forall|i: int| 0 <= i < whole.len() ==> #[trigger] whole@[i] < 10 && whole@[i] == (
            v@[z + i] as int - '0' as int) as u8);
        proof {
            let d = digit_values(s.take(k as int));
            assert forall|i: int| 0 <= i < z implies d[i] == 0 by {}
            lemma_trim_leading(d, z as int);
            assert(d.skip(z as int) =~= digit_values(s.subrange(z as int, k as int)));
        }
        if k == v.len() {
            return Some(Decimal { whole, fraction: Vec::new() });
        }
        if v[k] != '.' {
            return None;
        }
        let mut m: usize = k + 1;
        while m < v.len() && '0' <= v[m] && v[m] <= '9'
            invariant
                k + 1 <= m <= v.len(),
                s == v@,
                forall|i: int| k + 1 <= i < m ==> crate::chars::is_digit(#[trigger] v@[i]),
                run_len(s, k + 1, CharClass::Digit) == (m - k - 1) + run_len(
                    s,
                    m as int,
                    CharClass::Digit,
                ),
            decreases v.len() - m,
        {
            m += 1;
        }
        if m != v.len() {
            return None;
        }
        let mut e: usize = m;
        while e > k + 1 && v[e - 1] == '0'
            invariant
                k + 1 <= e <= m,
                m == v.len(),
                forall|i: int| e <= i < m ==> v@[i] == '0',
            decreases e,
        {
            e -= 1;
        }
        let fraction = digits_between(v, k + 1, e);
        assert(forall|i: int| 0 <= i < fraction.len() ==> #[trigger] fraction@[i] < 10
            && fraction@[i] == (v@[k + 1 + i] as int - '0' as int) as u8);
        proof {
            let d = digit_values(s.skip(k + 1));
            let f = e - (k + 1);
            assert forall|i: int| f <= i < d.len() implies d[i] == 0 by {
                assert(d[i] == (s[k + 1 + i] as int - '0' as int) as u8);
            }
            if f > 0 {
                assert(d[f - 1] == (s[e - 1] as int - '0' as int) as u8);
            }
            lemma_trim_trailing(d, f);
            assert(d.take(f) =~= digit_values(s.subrange(k + 1, e as int)));
        }
        Some(Decimal { whole, fraction })
    }
}

} // verus!
