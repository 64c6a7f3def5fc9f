use vstd::prelude::*;
use vstd::string::StrSliceExecFns;
use vstd::utf8::encode_utf8;
use crate::chars::{run, run_len, starts_at, to_chars, CharClass, lemma_run_len_bounds};
use crate::error::{ParseError, Token};
use crate::html_grammar::{
    text_at, attr_value_at, attr_at, attrs_at, comment_at, node_at, element_at, nodes_at,
    document, lemma_node_advances,
};
use crate::parsed::{at, rest, shift, join, lemma_join_join};
use crate::node::{elem, models, text, AttrMap, Node, NodeModel};
use crate::chars::is_digit;
use crate::css::{
    selector_models, declaration_models, sort_by_specificity, sort_selectors, Color, Decimal,
    Declaration, DeclarationModel, Rule, RuleModel, Selector, SelectorModel, SimpleSelector,
    Stylesheet, Unit, Value, ValueModel,
};
use crate::css_grammar::{
    simple_at, empty_selector, selectors_at, value_at, declaration_at, declaration_list_at,
    declarations_at, rule_at, rules_at, stylesheet,
};

verus! {

broadcast use vstd::std_specs::vec::group_vec_axioms;

/// A cursor over the characters of an input, shared by the HTML and the CSS
/// grammar. The position only moves forward.
pub struct Parser {
    pos: usize,
    input: Vec<char>,
    text: String,
}

/// The number of bytes that the UTF-8 encoding of the first `k` characters of
/// `s` takes (of all of them, where `s` is shorter).
pub open spec fn byte_offset(s: Seq<char>, k: int) -> usize {
    encode_utf8(s.take(if k <= s.len() {
        k
    } else {
        s.len() as int
    })).len() as usize
}

/// `e` with its offset, a number of characters into `s`, given in bytes.
pub open spec fn in_bytes(s: Seq<char>, e: ParseError) -> ParseError {
    e.moved_to(byte_offset(s, e.offset_of() as int))
}

impl Parser {
    /// The whole input.
    pub closed spec fn chars(&self) -> Seq<char> {
        self.input@
    }

    /// How many characters have been consumed.
    pub closed spec fn offset(&self) -> int {
        self.pos as int
    }

    pub closed spec fn wf(&self) -> bool {
        self.pos <= self.input.len() && self.text@ == self.input@
    }

    /// A parser at the start of `input`.
    pub fn new(input: String) -> (r: Parser)
        ensures
            r.wf(),
            r.chars() == input@,
            r.offset() == 0,
    {
        let v = to_chars(input.as_str());
        Parser { pos: 0, input: v, text: input }
    }

    /// `e`, whose offset counts characters, with its offset in bytes.
    fn error_in_bytes(&self, e: ParseError) -> (r: ParseError)
        requires
            self.wf(),
        ensures
            r == in_bytes(self.input@, e),
    {
        let k = e.offset();
        let k = if k <= self.input.len() {
            k
        } else {
            self.input.len()
        };
        let prefix = self.text.as_str().substring_char(0, k);
        proof {
            assert(prefix@ =~= self.input@.take(k as int));
        }
        e.move_to(prefix.len())
    }

    /// The character at the position, which stays.
    fn next_char(&self) -> (r: Result<char, ParseError>)
        requires
            self.wf(),
        ensures
            match r {
                Ok(c) => self.pos < self.input.len() && c == self.input@[self.pos as int],
                Err(e) => self.pos >= self.input.len() && e == ParseError::UnexpectedEnd {
                    offset: self.pos,
                },
            },
    {
        if self.pos < self.input.len() {
            Ok(self.input[self.pos])
        } else {
            Err(ParseError::UnexpectedEnd { offset: self.pos })
        }
    }

    /// Whether the input holds `lit` at the position.
    fn starts_with(&self, lit: &str) -> (r: bool)
        requires
            self.wf(),
        ensures
            r == starts_at(self.input@, self.pos as int, lit@),
    {
        let n = lit.unicode_len();
        if n > self.input.len() - self.pos {
            return false;
        }
        let mut i: usize = 0;
        while i < n
            invariant
                self.wf(),
                n == lit@.len(),
                self.pos + n <= self.input.len(),
                i <= n,
                forall|j: int| 0 <= j < i ==> self.input@[self.pos + j] == lit@[j],
            decreases n - i,
        {
            if self.input[self.pos + i] != lit.get_char(i) {
                assert(self.input@.subrange(self.pos as int, self.pos + n)[i as int]
                    != lit@[i as int]);
                return false;
            }
            i += 1;
        }
        assert(self.input@.subrange(self.pos as int, self.pos + n) =~= lit@);
        true
    }

    /// Moves past `lit`, which must stand at the position.
    fn expect(&mut self, lit: &str, token: Token) -> (r: Result<(), ParseError>)
        requires
            old(self).wf(),
        ensures
            final(self).wf(),
            final(self).input@ == old(self).input@,
            r is Ok <==> starts_at(old(self).input@, old(self).pos as int, lit@),
            r is Ok ==> final(self).pos == old(self).pos + lit@.len(),
            r is Err ==> r == Err::<(), ParseError>(
                ParseError::Expected { token, offset: old(self).pos },
            ),
    {
        if self.starts_with(lit) {
            self.pos = self.pos + lit.unicode_len();
            Ok(())
        } else {
            Err(ParseError::Expected { token, offset: self.pos })
        }
    }

    /// Whether all the input is consumed.
    fn eof(&self) -> (r: bool)
        requires
            self.wf(),
        ensures
            r == (self.pos >= self.input.len()),
    {
        self.pos >= self.input.len()
    }

    /// The character at the position, which is then consumed.
    fn consume_char(&mut self) -> (r: Result<char, ParseError>)
        requires
            old(self).wf(),
        ensures
            final(self).wf(),
            final(self).input@ == old(self).input@,
            match r {
                Ok(c) => old(self).pos < old(self).input.len() && c == old(self).input@[old(
                    self,
                ).pos as int] && final(self).pos == old(self).pos + 1,
                Err(e) => old(self).pos >= old(self).input.len() && e
                    == ParseError::UnexpectedEnd { offset: old(self).pos },
            },
    {
        let c = self.next_char();
        if let Ok(_) = c {
            self.pos = self.pos + 1;
        }
        c
    }

    /// The longest run of characters of class `k` from the position on,
    /// which is then consumed.
    fn consume_while(&mut self, k: CharClass) -> (r: String)
        requires
            old(self).wf(),
        ensures
            final(self).wf(),
            final(self).input@ == old(self).input@,
            r@ == run(old(self).input@, old(self).pos as int, k),
            final(self).pos == old(self).pos + run_len(old(self).input@, old(self).pos as int, k),
    {
        let ghost s = self.input@;
        let ghost start = self.pos as int;
        let mut result = String::new();
        while self.pos < self.input.len() && k.test(self.input[self.pos])
            invariant
                self.wf(),
                self.input@ == s,
                s == old(self).input@,
                start == old(self).pos,
                start <= self.pos,
                result@ == s.subrange(start, self.pos as int),
                run_len(s, start, k) == (self.pos - start) + run_len(s, self.pos as int, k),
            decreases self.input.len() - self.pos,
        {
            let c = self.input[self.pos];
            result.push(c);
            self.pos = self.pos + 1;
            assert(result@ =~= s.subrange(start, self.pos as int));
        }
        result
    }

    /// Skips white space.
    fn consume_whitespace(&mut self)
        requires
            old(self).wf(),
        ensures
            final(self).wf(),
            final(self).input@ == old(self).input@,
            final(self).pos == old(self).pos + run_len(
                old(self).input@,
                old(self).pos as int,
                CharClass::Space,
            ),
    {
        self.consume_while(CharClass::Space);
    }

    /// A tag or attribute name.
    fn parse_name(&mut self) -> (r: String)
        requires
            old(self).wf(),
        ensures
            final(self).wf(),
            final(self).input@ == old(self).input@,
            r@ == run(old(self).input@, old(self).pos as int, CharClass::Name),
            final(self).pos == old(self).pos + run_len(
                old(self).input@,
                old(self).pos as int,
                CharClass::Name,
            ),
    {
        self.consume_while(CharClass::Name)
    }

    /// A text node: everything up to the next `<`.
    fn parse_text(&mut self) -> (r: Node)
        requires
            old(self).wf(),
        ensures
            final(self).wf(),
            final(self).input@ == old(self).input@,
            r.wf(),
            final(self).pos >= old(self).pos,
            text_at(old(self).input@, old(self).pos as int) == (r.model(), (final(self).pos
                - old(self).pos) as nat),
    {
        text(self.consume_while(CharClass::Not('<')))
    }

    /// A quoted attribute value, without its quotes.
    fn parse_attr_value(&mut self) -> (r: Result<String, ParseError>)
        requires
            old(self).wf(),
        ensures
            final(self).wf(),
            final(self).input@ == old(self).input@,
            match r {
                Ok(v) => final(self).pos >= old(self).pos && attr_value_at(
                    old(self).input@,
                    old(self).pos as int,
                ) == Ok::<_, ParseError>((v@, (final(self).pos - old(self).pos) as nat)),
                Err(e) => attr_value_at(old(self).input@, old(self).pos as int) == Err::<
                    (Seq<char>, nat),
                    ParseError,
                >(e),
            },
    {
        let ghost s = self.input@;
        let ghost p = self.pos as int;
        let open_quote = match self.next_char() {
            Ok(c) => c,
            Err(e) => return Err(e),
        };
        if open_quote != '"' && open_quote != '\'' {
            return Err(ParseError::BadQuote { offset: self.pos });
        }
        self.pos = self.pos + 1;
        let value = self.consume_while(CharClass::Not(open_quote));
        proof {
            lemma_run_len_bounds(s, p + 1, CharClass::Not(open_quote));
        }
        match self.consume_char() {
            Ok(_) => Ok(value),
            Err(e) => Err(e),
        }
    }

    /// A `name=value` pair.
    fn parse_attr(&mut self) -> (r: Result<(String, String), ParseError>)
        requires
            old(self).wf(),
        ensures
            final(self).wf(),
            final(self).input@ == old(self).input@,
            match r {
                Ok(kv) => final(self).pos >= old(self).pos && attr_at(
                    old(self).input@,
                    old(self).pos as int,
                ) == Ok::<_, ParseError>(((kv.0@, kv.1@), (final(self).pos - old(self).pos) as nat)),
                Err(e) => attr_at(old(self).input@, old(self).pos as int) == Err::<
                    ((Seq<char>, Seq<char>), nat),
                    ParseError,
                >(e),
            },
    {
        let name = self.parse_name();
        proof {
            reveal_strlit("=");
            assert("="@ =~= seq!['=']);
        }
        match self.expect("=", Token::Equals) {
            Ok(()) => {},
            Err(e) => return Err(e),
        }
        match self.parse_attr_value() {
            Ok(value) => Ok((name, value)),
            Err(e) => Err(e),
        }
    }

    /// Attribute pairs, each preceded by white space, up to the `>` that
    /// closes the opening tag, which stays.
    fn parse_attributes(&mut self) -> (r: Result<AttrMap, ParseError>)
        requires
            old(self).wf(),
        ensures
            final(self).wf(),
            final(self).input@ == old(self).input@,
            match r {
                Ok(a) => a.wf() && final(self).pos >= old(self).pos && attrs_at(
                    old(self).input@,
                    old(self).pos as int,
                    Seq::empty(),
                ) == Ok::<_, ParseError>((a@, (final(self).pos - old(self).pos) as nat)),
                Err(e) => attrs_at(old(self).input@, old(self).pos as int, Seq::empty()) == Err::<
                    (Seq<(Seq<char>, Seq<char>)>, nat),
                    ParseError,
                >(e),
            },
    {
        let ghost s = self.input@;
        let ghost start = self.pos as int;
        let mut attrs = AttrMap::new();
        loop
            invariant
                self.wf(),
                self.input@ == s,
                s == old(self).input@,
                start == old(self).pos,
                start <= self.pos,
                attrs.wf(),
                attrs_at(s, start, Seq::empty()) == shift(
                    attrs_at(s, self.pos as int, attrs@),
                    (self.pos - start) as nat,
                ),
            decreases self.input.len() - self.pos,
        {
            self.consume_whitespace();
            match self.next_char() {
                Err(e) => return Err(e),
                Ok(c) => {
                    if c == '>' {
                        return Ok(attrs);
                    }
                },
            }
            match self.parse_attr() {
                Ok((name, value)) => {
                    attrs.insert(name, value);
                },
                Err(e) => return Err(e),
            }
        }
    }

    /// A comment and the white space after it.
    fn parse_comment(&mut self) -> (r: Result<(), ParseError>)
        requires
            old(self).wf(),
            starts_at(old(self).input@, old(self).pos as int, seq!['<', '!', '-', '-']),
        ensures
            final(self).wf(),
            final(self).input@ == old(self).input@,
            match r {
                Ok(_) => final(self).pos >= old(self).pos && comment_at(
                    old(self).input@,
                    old(self).pos as int,
                ) == Ok::<_, ParseError>(((), (final(self).pos - old(self).pos) as nat)),
                Err(e) => comment_at(old(self).input@, old(self).pos as int) == Err::<
                    ((), nat),
                    ParseError,
                >(e),
            },
    {
        self.pos = self.pos + 4;
        self.consume_while(CharClass::Not('-'));
        proof {
            reveal_strlit("-->");
            assert("-->"@ =~= seq!['-', '-', '>']);
        }
        match self.expect("-->", Token::CommentEnd) {
            Ok(()) => {},
            Err(e) => return Err(e),
        }
        self.consume_whitespace();
        Ok(())
    }

    /// One node, after any comments.
    fn parse_node(&mut self) -> (r: Result<Node, ParseError>)
        requires
            old(self).wf(),
        ensures
            final(self).wf(),
            final(self).input@ == old(self).input@,
            match r {
                Ok(n) => n.wf() && final(self).pos >= old(self).pos && node_at(
                    old(self).input@,
                    old(self).pos as int,
                ) == Ok::<_, ParseError>((n.model(), (final(self).pos - old(self).pos) as nat)),
                Err(e) => node_at(old(self).input@, old(self).pos as int) == Err::<
                    (NodeModel, nat),
                    ParseError,
                >(e),
            },
        decreases rest(old(self).input@, old(self).pos as int), 1nat,
    {
        proof {
            reveal_strlit("<");
            assert("<"@ =~= seq!['<']);
            reveal_strlit("<!--");
            assert("<!--"@ =~= seq!['<', '!', '-', '-']);
        }
        if self.starts_with("<") {
            if self.starts_with("<!--") {
                match self.parse_comment() {
                    Ok(()) => {},
                    Err(e) => return Err(e),
                }
                self.parse_node()
            } else {
                self.parse_element()
            }
        } else {
            Ok(self.parse_text())
        }
    }

    /// An element: opening tag, children and closing tag.
    fn parse_element(&mut self) -> (r: Result<Node, ParseError>)
        requires
            old(self).wf(),
        ensures
            final(self).wf(),
            final(self).input@ == old(self).input@,
            match r {
                Ok(n) => n.wf() && final(self).pos >= old(self).pos && element_at(
                    old(self).input@,
                    old(self).pos as int,
                ) == Ok::<_, ParseError>((n.model(), (final(self).pos - old(self).pos) as nat)),
                Err(e) => element_at(old(self).input@, old(self).pos as int) == Err::<
                    (NodeModel, nat),
                    ParseError,
                >(e),
            },
        decreases rest(old(self).input@, old(self).pos as int), 0nat,
    {
        proof {
            reveal_strlit("<");
            assert("<"@ =~= seq!['<']);
            reveal_strlit(">");
            assert(">"@ =~= seq!['>']);
            reveal_strlit("</");
            assert("</"@ =~= seq!['<', '/']);
        }
        // Opening tag.
        match self.expect("<", Token::Open) {
            Ok(()) => {},
            Err(e) => return Err(e),
        }
        let tag_name = self.parse_name();
        let attrs = match self.parse_attributes() {
            Ok(a) => a,
            Err(e) => return Err(e),
        };
        match self.expect(">", Token::Close) {
            Ok(()) => {},
            Err(e) => return Err(e),
        }
        // Contents.
        let children = match self.parse_nodes() {
            Ok(c) => c,
            Err(e) => return Err(e),
        };
        // Closing tag.
        match self.expect("</", Token::EndTagOpen) {
            Ok(()) => {},
            Err(e) => return Err(e),
        }
        if !self.starts_with(tag_name.as_str()) {
            return Err(ParseError::MismatchedClosingTag { offset: self.pos });
        }
        self.pos = self.pos + tag_name.as_str().unicode_len();
        match self.expect(">", Token::Close) {
            Ok(()) => {},
            Err(e) => return Err(e),
        }
        Ok(elem(tag_name, attrs, children))
    }

    /// Sibling nodes, up to the end of the input or a `</`, which stays.
    fn parse_nodes(&mut self) -> (r: Result<Vec<Node>, ParseError>)
        requires
            old(self).wf(),
        ensures
            final(self).wf(),
            final(self).input@ == old(self).input@,
            match r {
                Ok(v) => (forall|i: int| 0 <= i < v.len() ==> (#[trigger] v[i]).wf())
                    && final(self).pos >= old(self).pos && nodes_at(
                    old(self).input@,
                    old(self).pos as int,
                ) == Ok::<_, ParseError>((models(v@), (final(self).pos - old(self).pos) as nat)),
                Err(e) => nodes_at(old(self).input@, old(self).pos as int) == Err::<
                    (Seq<NodeModel>, nat),
                    ParseError,
                >(e),
            },
        decreases rest(old(self).input@, old(self).pos as int), 2nat,
    {
        let ghost s = self.input@;
        let ghost start = self.pos as int;
        proof {
            reveal_strlit("</");
            assert("</"@ =~= seq!['<', '/']);
        }
        let mut nodes: Vec<Node> = Vec::new();
        proof {
            assert(models(nodes@) =~= Seq::<NodeModel>::empty());
        }
        loop
            invariant
                self.wf(),
                self.input@ == s,
                s == old(self).input@,
                start == old(self).pos,
                start <= self.pos,
                forall|i: int| 0 <= i < nodes.len() ==> (#[trigger] nodes[i]).wf(),
                nodes_at(s, start) == join(
                    models(nodes@),
                    nodes_at(s, self.pos as int),
                    (self.pos - start) as nat,
                ),
            decreases self.input.len() - self.pos,
        {
            let ghost p = self.pos as int;
            proof {
                reveal_strlit("</");
                assert("</"@ =~= seq!['<', '/']);
            }
            self.consume_whitespace();
            if self.eof() || self.starts_with("</") {
                assert(models(nodes@) + Seq::<NodeModel>::empty() =~= models(nodes@));
                return Ok(nodes);
            }
            let ghost p1 = self.pos as int;
            let node = match self.parse_node() {
                Ok(n) => n,
                Err(e) => return Err(e),
            };
            proof {
                lemma_node_advances(s, p1);
                lemma_join_join(models(nodes@), seq![node.model()], nodes_at(s, self.pos as int),
                    (self.pos - p) as nat, (p - start) as nat);
            }
            let ghost prev = nodes@;
            nodes.push(node);
            assert(models(nodes@) =~= models(prev) + seq![node.model()]);
        }
    }

    /// An HTML document: its only top-level node, or an `html` element
    /// without attributes around all of them.
    pub fn parse_html(&mut self) -> (r: Result<Node, ParseError>)
        requires
            old(self).wf(),
        ensures
            final(self).wf(),
            match document(old(self).chars(), old(self).offset()) {
                Ok(m) => r is Ok && r->Ok_0.wf() && r->Ok_0.model() == m,
                Err(e) => r == Err::<Node, ParseError>(in_bytes(old(self).chars(), e)),
            },
    {
        let mut nodes = match self.parse_nodes() {
            Ok(v) => v,
            Err(e) => return Err(self.error_in_bytes(e)),
        };
        if nodes.len() == 1 {
            Ok(nodes.remove(0))
        } else {
            let name = "html".to_string();
            proof {
                reveal_strlit("html");
                assert(name@ =~= seq!['h', 't', 'm', 'l']);
            }
            Ok(elem(name, AttrMap::new(), nodes))
        }
    }

    /// One simple selector, e.g. `type#id.class1.class2`.
    fn parse_simple_selector(&mut self) -> (r: SimpleSelector)
        requires
            old(self).wf(),
        ensures
            final(self).wf(),
            final(self).input@ == old(self).input@,
            final(self).pos >= old(self).pos,
            simple_at(old(self).input@, old(self).pos as int, empty_selector()) == (
                r.model(),
                (final(self).pos - old(self).pos) as nat,
            ),
    {
        let ghost s = self.input@;
        let ghost start = self.pos as int;
        let mut selector = SimpleSelector { tag_name: None, id: None, class: Vec::new() };
        assert(selector.model().classes =~= Seq::<Seq<char>>::empty());
        loop
            invariant
                self.wf(),
                self.input@ == s,
                s == old(self).input@,
                start == old(self).pos,
                start <= self.pos,
                simple_at(s, start, empty_selector()) == (
                    simple_at(s, self.pos as int, selector.model()).0,
                    simple_at(s, self.pos as int, selector.model()).1 + (self.pos - start) as nat,
                ),
            ensures
                simple_at(s, self.pos as int, selector.model()) == (selector.model(), 0nat),
            decreases self.input.len() - self.pos,
        {
            if self.eof() {
                break ;
            }
            let c = self.input[self.pos];
            if c == '#' {
                self.pos = self.pos + 1;
                selector.id = Some(self.parse_identifier());
            } else if c == '.' {
                self.pos = self.pos + 1;
                let ghost before = selector.model();
                selector.class.push(self.parse_identifier());
                assert(selector.model().classes =~= before.classes.push(
                    selector.class@.last()@,
                ));
            } else if c == '*' {
                // the universal selector
                self.pos = self.pos + 1;
            } else if CharClass::Ident.test(c) {
                selector.tag_name = Some(self.parse_identifier());
            } else {
                break ;
            }
        }
        selector
    }

    /// A CSS identifier: `[A-Za-z0-9_-]*`.
    fn parse_identifier(&mut self) -> (r: String)
        requires
            old(self).wf(),
        ensures
            final(self).wf(),
            final(self).input@ == old(self).input@,
            r@ == run(old(self).input@, old(self).pos as int, CharClass::Ident),
            final(self).pos == old(self).pos + run_len(
                old(self).input@,
                old(self).pos as int,
                CharClass::Ident,
            ),
    {
        self.consume_while(CharClass::Ident)
    }

    /// A rule: `selectors { declarations }`.
    fn parse_rule(&mut self) -> (r: Result<Rule, ParseError>)
        requires
            old(self).wf(),
        ensures
            final(self).wf(),
            final(self).input@ == old(self).input@,
            match r {
                Ok(rule) => final(self).pos >= old(self).pos && rule_at(
                    old(self).input@,
                    old(self).pos as int,
                ) == Ok::<_, ParseError>((rule.model(), (final(self).pos - old(self).pos) as nat)),
                Err(e) => rule_at(old(self).input@, old(self).pos as int) == Err::<
                    (RuleModel, nat),
                    ParseError,
                >(e),
            },
    {
        let selectors = match self.parse_selectors() {
            Ok(v) => v,
            Err(e) => return Err(e),
        };
        let declarations = match self.parse_declarations() {
            Ok(v) => v,
            Err(e) => return Err(e),
        };
        Ok(Rule { selectors, declarations })
    }

    /// Selectors separated by `,`, most specific first.
    fn parse_selectors(&mut self) -> (r: Result<Vec<Selector>, ParseError>)
        requires
            old(self).wf(),
        ensures
            final(self).wf(),
            final(self).input@ == old(self).input@,
            match r {
                Ok(v) => final(self).pos >= old(self).pos && match selectors_at(
                    old(self).input@,
                    old(self).pos as int,
                ) {
                    Ok((sels, c)) => c == final(self).pos - old(self).pos && selector_models(v@)
                        == sort_by_specificity(sels),
                    Err(_) => false,
                },
                Err(e) => selectors_at(old(self).input@, old(self).pos as int) == Err::<
                    (Seq<SelectorModel>, nat),
                    ParseError,
                >(e),
            },
    {
        let ghost s = self.input@;
        let ghost start = self.pos as int;
        let mut selectors: Vec<Selector> = Vec::new();
        assert(selector_models(selectors@) =~= Seq::<SelectorModel>::empty());
        loop
            invariant
                self.wf(),
                self.input@ == s,
                s == old(self).input@,
                start == old(self).pos,
                start <= self.pos,
                selectors_at(s, start) == join(
                    selector_models(selectors@),
                    selectors_at(s, self.pos as int),
                    (self.pos - start) as nat,
                ),
            decreases self.input.len() - self.pos,
        {
            let ghost p = self.pos as int;
            let ghost prev = selector_models(selectors@);
            let sel = Selector::Simple(self.parse_simple_selector());
            selectors.push(sel);
            assert(selector_models(selectors@) =~= prev + seq![sel.model()]);
            self.consume_whitespace();
            match self.next_char() {
                Err(e) => return Err(e),
                Ok(',') => {
                    self.pos = self.pos + 1;
                    self.consume_whitespace();
                    proof {
                        lemma_join_join(prev, seq![sel.model()], selectors_at(s, self.pos as int),
                            (self.pos - p) as nat, (p - start) as nat);
                    }
                },
                Ok('{') => {
                    proof {
                        assert(selectors_at(s, p) == Ok::<_, ParseError>(
                            (seq![sel.model()], (self.pos - p) as nat),
                        ));
                    }
                    // Most specific first, as matching expects.
                    return Ok(sort_selectors(selectors));
                },
                Ok(c) => return Err(ParseError::UnexpectedChar { found: c, offset: self.pos }),
            }
        }
    }

    /// `{`, declarations each followed by white space, `}`, white space.
    fn parse_declarations(&mut self) -> (r: Result<Vec<Declaration>, ParseError>)
        requires
            old(self).wf(),
        ensures
            final(self).wf(),
            final(self).input@ == old(self).input@,
            match r {
                Ok(v) => final(self).pos >= old(self).pos && declarations_at(
                    old(self).input@,
                    old(self).pos as int,
                ) == Ok::<_, ParseError>(
                    (declaration_models(v@), (final(self).pos - old(self).pos) as nat),
                ),
                Err(e) => declarations_at(old(self).input@, old(self).pos as int) == Err::<
                    (Seq<DeclarationModel>, nat),
                    ParseError,
                >(e),
            },
    {
        let ghost s = self.input@;
        let ghost start = self.pos as int;
        proof {
            reveal_strlit("{");
            assert("{"@ =~= seq!['{']);
        }
        let mut declarations: Vec<Declaration> = Vec::new();
        match self.expect("{", Token::BlockOpen) {
            Ok(()) => {},
            Err(e) => return Err(e),
        }
        self.consume_whitespace();
        let ghost list_start = self.pos as int;
        assert(declaration_models(declarations@) =~= Seq::<DeclarationModel>::empty());
        loop
            invariant
                self.wf(),
                self.input@ == s,
                s == old(self).input@,
                start == old(self).pos,
                start < list_start <= self.pos,
                declaration_list_at(s, list_start) == join(
                    declaration_models(declarations@),
                    declaration_list_at(s, self.pos as int),
                    (self.pos - list_start) as nat,
                ),
                declarations_at(s, start) == match declaration_list_at(s, list_start) {
                    Err(e) => Err(e),
                    Ok((ds, c)) => {
                        let q = list_start + c;
                        if !starts_at(s, q, seq!['}']) {
                            Err(ParseError::Expected { token: Token::BlockClose, offset: at(q) })
                        } else {
                            Ok((ds, (q + 1 - start + run_len(s, q + 1, CharClass::Space)) as nat))
                        }
                    },
                },
            ensures
                self.pos < self.input.len(),
                self.input@[self.pos as int] == '}',
            decreases self.input.len() - self.pos,
        {
            let ghost p = self.pos as int;
            match self.next_char() {
                Err(e) => return Err(e),
                Ok(c) => {
                    if c == '}' {
                        break ;
                    }
                },
            }
            let d = match self.parse_declaration() {
                Ok(d) => d,
                Err(e) => return Err(e),
            };
            let ghost prev = declaration_models(declarations@);
            declarations.push(d);
            assert(declaration_models(declarations@) =~= prev + seq![d.model()]);
            self.consume_whitespace();
            proof {
                lemma_join_join(prev, seq![d.model()], declaration_list_at(s, self.pos as int),
                    (self.pos - p) as nat, (p - list_start) as nat);
            }
        }
        proof {
            reveal_strlit("}");
            assert("}"@ =~= seq!['}']);
            assert(declaration_models(declarations@) + Seq::<DeclarationModel>::empty()
                =~= declaration_models(declarations@));
        }
        match self.expect("}", Token::BlockClose) {
            Ok(()) => {},
            Err(e) => return Err(e),
        }
        self.consume_whitespace();
        Ok(declarations)
    }

    /// `name: value;`.
    fn parse_declaration(&mut self) -> (r: Result<Declaration, ParseError>)
        requires
            old(self).wf(),
        ensures
            final(self).wf(),
            final(self).input@ == old(self).input@,
            match r {
                Ok(d) => final(self).pos >= old(self).pos && declaration_at(
                    old(self).input@,
                    old(self).pos as int,
                ) == Ok::<_, ParseError>((d.model(), (final(self).pos - old(self).pos) as nat)),
                Err(e) => declaration_at(old(self).input@, old(self).pos as int) == Err::<
                    (DeclarationModel, nat),
                    ParseError,
                >(e),
            },
    {
        proof {
            reveal_strlit(":");
            assert(":"@ =~= seq![':']);
            reveal_strlit(";");
            assert(";"@ =~= seq![';']);
        }
        let name = self.consume_while(CharClass::Not(':'));
        match self.expect(":", Token::Colon) {
            Ok(()) => {},
            Err(e) => return Err(e),
        }
        self.consume_whitespace();
        let start = self.pos;
        let first = match self.next_char() {
            Ok(c) => c,
            Err(e) => return Err(e),
        };
        let value = if first == '#' {
            match Color::try_from(self.consume_while(CharClass::Not(';'))) {
                Ok(c) => Value::ColorValue(c),
                Err(_) => return Err(ParseError::InvalidColor { offset: start }),
            }
        } else if '0' <= first && first <= '9' {
            match self.parse_length_value() {
                Ok(v) => v,
                Err(e) => return Err(e),
            }
        } else {
            Value::Keyword(self.consume_while(CharClass::Not(';')))
        };
        match self.expect(";", Token::Semicolon) {
            Ok(()) => {},
            Err(e) => return Err(e),
        }
        Ok(Declaration { name, value })
    }

    /// A number followed by its unit.
    fn parse_length_value(&mut self) -> (r: Result<Value, ParseError>)
        requires
            old(self).wf(),
            old(self).pos < old(self).input.len(),
            is_digit(old(self).input@[old(self).pos as int]),
        ensures
            final(self).wf(),
            final(self).input@ == old(self).input@,
            match r {
                Ok(v) => final(self).pos >= old(self).pos && value_at(
                    old(self).input@,
                    old(self).pos as int,
                ) == Ok::<_, ParseError>((v.model(), (final(self).pos - old(self).pos) as nat)),
                Err(e) => value_at(old(self).input@, old(self).pos as int) == Err::<
                    (ValueModel, nat),
                    ParseError,
                >(e),
            },
    {
        let start = self.pos;
        let literal = self.consume_while(CharClass::Number);
        let num = match Decimal::parse(&to_chars(literal.as_str())) {
            Some(d) => d,
            None => return Err(ParseError::InvalidNumber { offset: start }),
        };
        match self.parse_length_unit() {
            Ok(unit) => Ok(Value::Length(num, unit)),
            Err(e) => Err(e),
        }
    }

    /// A unit: only `px` is known.
    fn parse_length_unit(&mut self) -> (r: Result<Unit, ParseError>)
        requires
            old(self).wf(),
        ensures
            final(self).wf(),
            final(self).input@ == old(self).input@,
            r is Ok <==> starts_at(old(self).input@, old(self).pos as int, seq!['p', 'x']),
            r is Ok ==> r == Ok::<Unit, ParseError>(Unit::Px) && final(self).pos == old(self).pos
                + 2,
            r is Err ==> r == Err::<Unit, ParseError>(
                ParseError::Expected { token: Token::Px, offset: old(self).pos },
            ),
    {
        proof {
            reveal_strlit("px");
            assert("px"@ =~= seq!['p', 'x']);
        }
        match self.expect("px", Token::Px) {
            Ok(()) => Ok(Unit::Px),
            Err(e) => Err(e),
        }
    }

    /// A stylesheet: rules up to the end of the input.
    pub fn parse_css(&mut self) -> (r: Result<Stylesheet, ParseError>)
        requires
            old(self).wf(),
        ensures
            final(self).wf(),
            match stylesheet(old(self).chars(), old(self).offset()) {
                Ok(m) => r is Ok && r->Ok_0.model() == m,
                Err(e) => r == Err::<Stylesheet, ParseError>(in_bytes(old(self).chars(), e)),
            },
    {
        let ghost s = self.input@;
        let ghost start = self.pos as int;
        let mut rules: Vec<Rule> = Vec::new();
        assert(rules@.map_values(|r: Rule| r.model()) =~= Seq::<RuleModel>::empty());
        while !self.eof()
            invariant
                self.wf(),
                self.input@ == s,
                s == old(self).input@,
                start == old(self).pos,
                start <= self.pos,
                rules_at(s, start) == join(
                    rules@.map_values(|r: Rule| r.model()),
                    rules_at(s, self.pos as int),
                    (self.pos - start) as nat,
                ),
            decreases self.input.len() - self.pos,
        {
            let ghost p = self.pos as int;
            let ghost prev = rules@.map_values(|r: Rule| r.model());
            let rule = match self.parse_rule() {
                Ok(r) => r,
                Err(e) => return Err(self.error_in_bytes(e)),
            };
            proof {
                lemma_join_join(prev, seq![rule.model()], rules_at(s, self.pos as int),
                    (self.pos - p) as nat, (p - start) as nat);
            }
            rules.push(rule);
            assert(rules@.map_values(|r: Rule| r.model()) =~= prev + seq![rule.model()]);
        }
        assert(rules@.map_values(|r: Rule| r.model()) + Seq::<RuleModel>::empty()
            =~= rules@.map_values(|r: Rule| r.model()));
        Ok(Stylesheet { rules })
    }
}

} // verus!
