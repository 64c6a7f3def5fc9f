//! The HTML grammar, as functions from the input and a position to what is
//! parsed there and how many characters it takes, or the error that ends the
//! parse.
use vstd::prelude::*;
use crate::chars::{run, run_len, starts_at, CharClass, lemma_run_len_bounds};
use crate::error::{ParseError, Token};
use crate::node::{attrs_insert, NodeModel};
use crate::parsed::{at, rest, Parsed};

verus! {

pub type Attrs = Seq<(Seq<char>, Seq<char>)>;

/// The text up to the next `<`.
pub open spec fn text_at(s: Seq<char>, p: int) -> (NodeModel, nat) {
    (NodeModel::Text(run(s, p, CharClass::Not('<'))), run_len(s, p, CharClass::Not('<')))
}

/// A value quoted by `"` or `'`, the quotes included.
pub open spec fn attr_value_at(s: Seq<char>, p: int) -> Parsed<Seq<char>> {
    if p >= s.len() {
        Err(ParseError::UnexpectedEnd { offset: at(p) })
    } else if s[p] != '"' && s[p] != '\'' {
        Err(ParseError::BadQuote { offset: at(p) })
    } else {
        let n = run_len(s, p + 1, CharClass::Not(s[p]));
        if p + 1 + n >= s.len() {
            Err(ParseError::UnexpectedEnd { offset: at(p + 1 + n) })
        } else {
            Ok((s.subrange(p + 1, p + 1 + n), n + 2))
        }
    }
}

/// A `name=value` pair.
pub open spec fn attr_at(s: Seq<char>, p: int) -> Parsed<(Seq<char>, Seq<char>)> {
    let n = run_len(s, p, CharClass::Name);
    if !starts_at(s, p + n, seq!['=']) {
        Err(ParseError::Expected { token: Token::Equals, offset: at(p + n) })
    } else {
        match attr_value_at(s, p + n + 1) {
            Err(e) => Err(e),
            Ok((v, c)) => Ok(((run(s, p, CharClass::Name), v), n + 1 + c)),
        }
    }
}

/// Pairs separated by white space, up to the `>` that ends the opening tag
/// (not taken), each set in turn in `acc`.
pub open spec fn attrs_at(s: Seq<char>, p: int, acc: Attrs) -> Parsed<Attrs>
    decreases rest(s, p),
{
    let w = run_len(s, p, CharClass::Space);
    let p1 = p + w;
    if p1 >= s.len() || p < 0 {
        Err(ParseError::UnexpectedEnd { offset: at(p1) })
    } else if s[p1] == '>' {
        Ok((acc, w))
    } else {
        match attr_at(s, p1) {
            Err(e) => Err(e),
            Ok((kv, c)) => match attrs_at(s, p1 + c, attrs_insert(acc, kv.0, kv.1)) {
                Err(e) => Err(e),
                Ok((a, c2)) => Ok((a, w + c + c2)),
            },
        }
    }
}

/// A comment and the white space after it. The body ends at the first `-`.
pub open spec fn comment_at(s: Seq<char>, p: int) -> Parsed<()> {
    let n = run_len(s, p + 4, CharClass::Not('-'));
    if !starts_at(s, p + 4 + n, seq!['-', '-', '>']) {
        Err(ParseError::Expected { token: Token::CommentEnd, offset: at(p + 4 + n) })
    } else {
        Ok(((), 4 + n + 3 + run_len(s, p + 4 + n + 3, CharClass::Space)))
    }
}

/// One node: comments before it are skipped; `<` opens an element; anything
/// else is text.
pub open spec fn node_at(s: Seq<char>, p: int) -> Parsed<NodeModel>
    decreases rest(s, p), 1nat,
{
    if starts_at(s, p, seq!['<']) {
        if starts_at(s, p, seq!['<', '!', '-', '-']) {
            match comment_at(s, p) {
                Err(e) => Err(e),
                Ok((_, c)) => match node_at(s, p + c) {
                    Err(e) => Err(e),
                    Ok((n, c2)) => Ok((n, c + c2)),
                },
            }
        } else {
            element_at(s, p)
        }
    } else {
        Ok(text_at(s, p))
    }
}

/// An element: opening tag with attributes, children, and a closing tag that
/// repeats the name.
pub open spec fn element_at(s: Seq<char>, p: int) -> Parsed<NodeModel>
    decreases rest(s, p), 0nat,
{
    if !starts_at(s, p, seq!['<']) {
        Err(ParseError::Expected { token: Token::Open, offset: at(p) })
    } else {
        let name = run(s, p + 1, CharClass::Name);
        let p1 = p + 1 + name.len();
        match attrs_at(s, p1, Seq::empty()) {
            Err(e) => Err(e),
            Ok((attrs, ca)) => {
                let p2 = p1 + ca;
                if !starts_at(s, p2, seq!['>']) {
                    Err(ParseError::Expected { token: Token::Close, offset: at(p2) })
                } else {
                    match nodes_at(s, p2 + 1) {
                        Err(e) => Err(e),
                        Ok((children, cc)) => {
                            let p4 = p2 + 1 + cc;
                            if !starts_at(s, p4, seq!['<', '/']) {
                                Err(ParseError::Expected { token: Token::EndTagOpen, offset: at(p4) })
                            } else if !starts_at(s, p4 + 2, name) {
                                Err(ParseError::MismatchedClosingTag { offset: at(p4 + 2) })
                            } else if !starts_at(s, p4 + 2 + name.len(), seq!['>']) {
                                Err(
                                    ParseError::Expected {
                                        token: Token::Close,
                                        offset: at(p4 + 2 + name.len()),
                                    },
                                )
                            } else {
                                Ok(
                                    (
                                        NodeModel::Element { tag_name: name, attrs, children },
                                        (p4 + 3 + name.len() - p) as nat,
                                    ),
                                )
                            }
                        },
                    }
                }
            },
        }
    }
}

/// Sibling nodes, up to the end of the input or a `</`. White space before
/// each node is skipped.
pub open spec fn nodes_at(s: Seq<char>, p: int) -> Parsed<Seq<NodeModel>>
    decreases rest(s, p), 2nat,
{
    let w = run_len(s, p, CharClass::Space);
    let p1 = p + w;
    if p1 >= s.len() || starts_at(s, p1, seq!['<', '/']) {
        Ok((Seq::empty(), w))
    } else {
        match node_at(s, p1) {
            Err(e) => Err(e),
            Ok((n, c)) => if c == 0 {
                // never taken: a node at a character consumes it
                Ok((seq![n], w))
            } else {
                match nodes_at(s, p1 + c) {
                    Err(e) => Err(e),
                    Ok((rest, c2)) => Ok((seq![n] + rest, w + c + c2)),
                }
            },
        }
    }
}

/// A document: its single top-level node, or an `html` element without
/// attributes around all of them.
pub open spec fn document(s: Seq<char>, p: int) -> Result<NodeModel, ParseError> {
    match nodes_at(s, p) {
        Err(e) => Err(e),
        Ok((nodes, _)) => if nodes.len() == 1 {
            Ok(nodes[0])
        } else {
            Ok(NodeModel::Element { tag_name: seq!['h', 't', 'm', 'l'], attrs: Seq::empty(), children: nodes })
        },
    }
}

/// What a node, an element or a run of siblings takes lies within the input.
pub proof fn lemma_node_within(s: Seq<char>, p: int)
    requires
        0 <= p <= s.len(),
        node_at(s, p) is Ok,
    ensures
        p + node_at(s, p)->Ok_0.1 <= s.len(),
    decreases rest(s, p), 1nat,
{
    if starts_at(s, p, seq!['<']) {
        if starts_at(s, p, seq!['<', '!', '-', '-']) {
            let n = run_len(s, p + 4, CharClass::Not('-'));
            let q = p + 4 + n + 3;
            lemma_run_len_bounds(s, q, CharClass::Space);
            lemma_node_within(s, q + run_len(s, q, CharClass::Space));
        } else {
            lemma_element_within(s, p);
        }
    } else {
        lemma_run_len_bounds(s, p, CharClass::Not('<'));
    }
}

pub proof fn lemma_element_within(s: Seq<char>, p: int)
    requires
        0 <= p <= s.len(),
        element_at(s, p) is Ok,
    ensures
        p + element_at(s, p)->Ok_0.1 <= s.len(),
    decreases rest(s, p), 0nat,
{
    let name = run(s, p + 1, CharClass::Name);
    let (attrs, ca) = attrs_at(s, p + 1 + name.len(), Seq::empty())->Ok_0;
    let (children, cc) = nodes_at(s, p + 1 + name.len() + ca + 1)->Ok_0;
    let p4 = p + 1 + name.len() + ca + 1 + cc;
    assert(starts_at(s, p4 + 2 + name.len(), seq!['>']));
}

/// A node parsed at a character that is not the end of the input consumes it.
pub proof fn lemma_node_advances(s: Seq<char>, p: int)
    requires
        0 <= p < s.len(),
        node_at(s, p) is Ok,
    ensures
        node_at(s, p)->Ok_0.1 > 0,
{
    if !starts_at(s, p, seq!['<']) {
        assert(s.subrange(p, p + 1) =~= seq![s[p]]);
        assert(CharClass::Not('<').holds(s[p]));
        assert(run_len(s, p, CharClass::Not('<')) > 0);
    } else if !starts_at(s, p, seq!['<', '!', '-', '-']) {
        let name = run(s, p + 1, CharClass::Name);
        let (attrs, ca) = attrs_at(s, p + 1 + name.len(), Seq::empty())->Ok_0;
        let (children, cc) = nodes_at(s, p + 1 + name.len() + ca + 1)->Ok_0;
        assert(element_at(s, p)->Ok_0.1 == p + 1 + name.len() + ca + 1 + cc + 3 + name.len() - p);
    }
}

} // verus!
