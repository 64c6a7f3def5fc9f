//! The CSS grammar, as functions from the input and a position to what is
//! parsed there and how many characters it takes, or the error that ends the
//! parse.
use vstd::prelude::*;
use crate::chars::{is_digit, run, run_len, starts_at, CharClass};
use crate::css::{
    decode_color, decode_number, sort_by_specificity, DeclarationModel, RuleModel, SelectorModel,
    SimpleModel, Unit, ValueModel,
};
use crate::error::{ParseError, Token};
use crate::parsed::{at, join, rest, Parsed};

verus! {

pub open spec fn empty_selector() -> SimpleModel {
    SimpleModel { tag_name: None, id: None, classes: Seq::empty() }
}

/// A simple selector: `#id`, `.class`, `*` and tag names in any order and
/// number, added to `acc`, up to the first other character. A later id or
/// tag name replaces an earlier one.
pub open spec fn simple_at(s: Seq<char>, p: int, acc: SimpleModel) -> (SimpleModel, nat)
    decreases rest(s, p),
{
    if p < 0 || p >= s.len() {
        (acc, 0)
    } else if s[p] == '#' {
        let n = run_len(s, p + 1, CharClass::Ident);
        let r = simple_at(s, p + 1 + n, SimpleModel { id: Some(run(s, p + 1, CharClass::Ident)), ..acc });
        (r.0, 1 + n + r.1)
    } else if s[p] == '.' {
        let n = run_len(s, p + 1, CharClass::Ident);
        let r = simple_at(
            s,
            p + 1 + n,
            SimpleModel { classes: acc.classes.push(run(s, p + 1, CharClass::Ident)), ..acc },
        );
        (r.0, 1 + n + r.1)
    } else if s[p] == '*' {
        let r = simple_at(s, p + 1, acc);
        (r.0, 1 + r.1)
    } else if CharClass::Ident.holds(s[p]) {
        let n = run_len(s, p, CharClass::Ident);
        let r = simple_at(s, p + n, SimpleModel { tag_name: Some(run(s, p, CharClass::Ident)), ..acc });
        (r.0, n + r.1)
    } else {
        (acc, 0)
    }
}

/// Simple selectors separated by `,`, in source order, up to the `{` that
/// opens the declarations (not taken).
pub open spec fn selectors_at(s: Seq<char>, p: int) -> Parsed<Seq<SelectorModel>>
    decreases rest(s, p),
{
    let (sel, c) = simple_at(s, p, empty_selector());
    let w = run_len(s, p + c, CharClass::Space);
    let p2 = p + c + w;
    if p2 >= s.len() || p2 < 0 {
        Err(ParseError::UnexpectedEnd { offset: at(p2) })
    } else if s[p2] == ',' {
        let w2 = run_len(s, p2 + 1, CharClass::Space);
        join(seq![SelectorModel::Simple(sel)], selectors_at(s, p2 + 1 + w2), c + w + 1 + w2)
    } else if s[p2] == '{' {
        Ok((seq![SelectorModel::Simple(sel)], c + w))
    } else {
        Err(ParseError::UnexpectedChar { found: s[p2], offset: at(p2) })
    }
}

/// A value: a color after `#`, a length after a digit, else a keyword; each
/// up to the `;` that ends the declaration (not taken).
pub open spec fn value_at(s: Seq<char>, p: int) -> Parsed<ValueModel> {
    if s[p] == '#' {
        let n = run_len(s, p, CharClass::Not(';'));
        match decode_color(run(s, p, CharClass::Not(';'))) {
            Ok(c) => Ok((ValueModel::ColorValue(c), n)),
            Err(_) => Err(ParseError::InvalidColor { offset: at(p) }),
        }
    } else if is_digit(s[p]) {
        let n = run_len(s, p, CharClass::Number);
        match decode_number(run(s, p, CharClass::Number)) {
            None => Err(ParseError::InvalidNumber { offset: at(p) }),
            Some((whole, fraction)) => if !starts_at(s, p + n, seq!['p', 'x']) {
                Err(ParseError::Expected { token: Token::Px, offset: at(p + n) })
            } else {
                Ok((ValueModel::Length(whole, fraction, Unit::Px), n + 2))
            },
        }
    } else {
        Ok(
            (
                ValueModel::Keyword(run(s, p, CharClass::Not(';'))),
                run_len(s, p, CharClass::Not(';')),
            ),
        )
    }
}

/// `name: value;`, the name being everything before the `:`.
pub open spec fn declaration_at(s: Seq<char>, p: int) -> Parsed<DeclarationModel> {
    let n = run_len(s, p, CharClass::Not(':'));
    let p1 = p + n;
    if !starts_at(s, p1, seq![':']) {
        Err(ParseError::Expected { token: Token::Colon, offset: at(p1) })
    } else {
        let w = run_len(s, p1 + 1, CharClass::Space);
        let p2 = p1 + 1 + w;
        if p2 >= s.len() {
            Err(ParseError::UnexpectedEnd { offset: at(p2) })
        } else {
            match value_at(s, p2) {
                Err(e) => Err(e),
                Ok((v, c)) => if !starts_at(s, p2 + c, seq![';']) {
                    Err(ParseError::Expected { token: Token::Semicolon, offset: at(p2 + c) })
                } else {
                    Ok(
                        (
                            DeclarationModel { name: run(s, p, CharClass::Not(':')), value: v },
                            n + 1 + w + c + 1,
                        ),
                    )
                },
            }
        }
    }
}

/// Declarations, each followed by white space, up to a `}` (not taken).
pub open spec fn declaration_list_at(s: Seq<char>, p: int) -> Parsed<Seq<DeclarationModel>>
    decreases rest(s, p),
{
    if p < 0 || p >= s.len() {
        Err(ParseError::UnexpectedEnd { offset: at(p) })
    } else if s[p] == '}' {
        Ok((Seq::empty(), 0))
    } else {
        match declaration_at(s, p) {
            Err(e) => Err(e),
            Ok((d, c)) => {
                let w = run_len(s, p + c, CharClass::Space);
                join(seq![d], declaration_list_at(s, p + c + w), c + w)
            },
        }
    }
}

/// `{ declarations }` and the white space after it.
pub open spec fn declarations_at(s: Seq<char>, p: int) -> Parsed<Seq<DeclarationModel>> {
    if !starts_at(s, p, seq!['{']) {
        Err(ParseError::Expected { token: Token::BlockOpen, offset: at(p) })
    } else {
        let w = run_len(s, p + 1, CharClass::Space);
        match declaration_list_at(s, p + 1 + w) {
            Err(e) => Err(e),
            Ok((ds, c)) => {
                let q = p + 1 + w + c;
                if !starts_at(s, q, seq!['}']) {
                    Err(ParseError::Expected { token: Token::BlockClose, offset: at(q) })
                } else {
                    Ok((ds, 1 + w + c + 1 + run_len(s, q + 1, CharClass::Space)))
                }
            },
        }
    }
}

/// A rule: its selectors, most specific first, and its declarations.
pub open spec fn rule_at(s: Seq<char>, p: int) -> Parsed<RuleModel> {
    match selectors_at(s, p) {
        Err(e) => Err(e),
        Ok((sels, c1)) => match declarations_at(s, p + c1) {
            Err(e) => Err(e),
            Ok((ds, c2)) => Ok(
                (RuleModel { selectors: sort_by_specificity(sels), declarations: ds }, c1 + c2),
            ),
        },
    }
}

/// Rules up to the end of the input.
pub open spec fn rules_at(s: Seq<char>, p: int) -> Parsed<Seq<RuleModel>>
    decreases rest(s, p),
{
    if p < 0 || p >= s.len() {
        Ok((Seq::empty(), 0))
    } else {
        match rule_at(s, p) {
            Err(e) => Err(e),
            Ok((r, c)) => join(seq![r], rules_at(s, p + c), c),
        }
    }
}

/// A stylesheet: its rules in source order.
pub open spec fn stylesheet(s: Seq<char>, p: int) -> Result<Seq<RuleModel>, ParseError> {
    match rules_at(s, p) {
        Err(e) => Err(e),
        Ok((rules, _)) => Ok(rules),
    }
}

} // verus!
