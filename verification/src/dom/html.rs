//! The parser: a cursor that moves forward over a source text and builds the
//! node tree in one pass.

use super::chars::{
    all_but, lemma_run_end, lemma_run_end_unique, tag_char, tag_chars, text_char, whitespace,
    whitespace_chars,
};
use super::error::{ParseError, ParseErrorKind};
use super::grammar::{
    attr, attr_value, attribute_map, attributes, closing_tag_at, document, element, has_char,
    has_prefix, lemma_attr_bounds, lemma_attributes_bounds, lemma_node_bounds, lemma_nodes_bounds,
    name_end, node, nodes, skip_whitespace, text_run, Outcome,
};
use super::node::{element as element_of, node_views, text as text_of, AttrMap, Node};
use super::strings::{chars_of, string_of};
use vstd::prelude::*;

verus! {

/// The error of kind `kind` found with the cursor at `at`.
pub open spec fn failure(kind: ParseErrorKind, at: int) -> ParseError {
    ParseError { kind, offset: at as usize }
}

/// Whether `r` is the error of kind `kind` found with the cursor at `at`.
pub open spec fn is_failure<T>(r: Result<T, ParseError>, kind: ParseErrorKind, at: int) -> bool {
    r matches Err(e) && e == failure(kind, at)
}

/// A source text and a cursor into it. The cursor counts characters, not
/// bytes, and only ever moves forward.
pub struct Parser {
    pos: usize,
    input: Vec<char>,
}

impl Parser {
    #[verifier::type_invariant]
    spec fn cursor_in_bounds(&self) -> bool {
        self.pos <= self.input@.len()
    }

    /// The source text.
    pub closed spec fn source(&self) -> Seq<char> {
        self.input@
    }

    /// The cursor: how many characters of the source have been consumed.
    pub closed spec fn cursor(&self) -> int {
        self.pos as int
    }

    /// A parser over `source` with the cursor at its start.
    pub fn new(source: String) -> (parser: Parser)
        ensures
            parser.source() == source@,
            parser.cursor() == 0,
    {
        Parser { pos: 0, input: chars_of(source.as_str()) }
    }

    /// The cursor.
    pub fn position(&self) -> (pos: usize)
        ensures
            pos == self.cursor(),
            pos <= self.source().len(),
    {
        proof {
            use_type_invariant(self);
        }
        self.pos
    }

    /// The character under the cursor, which stays where it is. At the end of
    /// the source there is none, and that is the error `UnexpectedEof`.
    pub fn next_char(&self) -> (r: Result<char, ParseError>)
        ensures
            match r {
                Ok(c) => self.cursor() < self.source().len() && c == self.source()[self.cursor()],
                Err(e) => self.cursor() >= self.source().len() && e == failure(
                    ParseErrorKind::UnexpectedEof,
                    self.cursor(),
                ),
            },
    {
        if self.pos < self.input.len() {
            Ok(self.input[self.pos])
        } else {
            Err(ParseError { kind: ParseErrorKind::UnexpectedEof, offset: self.pos })
        }
    }

    /// Whether what is left of the source begins with `prefix`.
    pub fn starts_with(&self, prefix: &str) -> (b: bool)
        ensures
            b == has_prefix(self.source(), self.cursor(), prefix@),
    {
        proof {
            use_type_invariant(self);
        }
        let mut i: usize = self.pos;
        for c in it: prefix.chars()
            invariant
                it.seq() == prefix@,
                i == self.pos + it.index(),
                i <= self.input@.len(),
                self.input@.subrange(self.pos as int, i as int) == prefix@.take(it.index()),
        {
            if i >= self.input.len() || self.input[i] != c {
                assert(!has_prefix(self.source(), self.cursor(), prefix@)) by {
                    if has_prefix(self.source(), self.cursor(), prefix@) {
                        let n = it.index();
                        assert(self.input@.subrange(self.pos as int, self.pos + prefix@.len())[n]
                            == prefix@[n]);
                    }
                }
                return false;
            }
            i += 1;
        }
        assert(prefix@.take(prefix@.len() as int) == prefix@);
        true
    }

    /// Whether the cursor has reached the end of the source.
    pub fn eof(&self) -> (b: bool)
        ensures
            b == (self.cursor() >= self.source().len()),
    {
        self.pos >= self.input.len()
    }

    /// Consumes the character under the cursor and returns it. At the end of
    /// the source nothing is consumed and a space is returned.
    pub fn consume_char(&mut self) -> (c: char)
        ensures
            final(self).source() == old(self).source(),
            old(self).cursor() <= final(self).cursor() <= old(self).source().len(),
            old(self).cursor() < old(self).source().len() ==> {
                &&& c == old(self).source()[old(self).cursor()]
                &&& final(self).cursor() == old(self).cursor() + 1
            },
            old(self).cursor() >= old(self).source().len() ==> {
                &&& c == ' '
                &&& final(self).cursor() == old(self).cursor()
            },
    {
        proof {
            use_type_invariant(&*self);
        }
        if self.pos < self.input.len() {
            let c = self.input[self.pos];
            self.pos += 1;
            c
        } else {
            ' '
        }
    }

    /// Consumes characters for as long as `predicate` accepts them, and
    /// returns them. The run may be empty.
    pub fn consume_while<F>(&mut self, predicate: F) -> (run: String) where F: Fn(char) -> bool
        requires
            forall|i: int|
                old(self).cursor() <= i < old(self).source().len() ==> call_requires(
                    predicate,
                    (#[trigger] old(self).source()[i],),
                ),
        ensures
            final(self).source() == old(self).source(),
            old(self).cursor() <= final(self).cursor() <= old(self).source().len(),
            run@ == old(self).source().subrange(old(self).cursor(), final(self).cursor()),
            forall|i: int|
                old(self).cursor() <= i < final(self).cursor() ==> call_ensures(
                    predicate,
                    (#[trigger] old(self).source()[i],),
                    true,
                ),
            final(self).cursor() < old(self).source().len() ==> call_ensures(
                predicate,
                (old(self).source()[final(self).cursor()],),
                false,
            ),
    {
        proof {
            use_type_invariant(&*self);
        }
        let start = self.pos;
        loop
            invariant
                self.input@ == old(self).input@,
                start == old(self).pos,
                start <= self.pos <= self.input@.len(),
                forall|i: int|
                    start <= i < self.input@.len() ==> call_requires(
                        predicate,
                        (#[trigger] old(self).source()[i],),
                    ),
                forall|i: int|
                    start <= i < self.pos ==> call_ensures(
                        predicate,
                        (#[trigger] old(self).source()[i],),
                        true,
                    ),
            ensures
                self.pos < self.input@.len() ==> call_ensures(
                    predicate,
                    (old(self).source()[self.pos as int],),
                    false,
                ),
            decreases self.input@.len() - self.pos,
        {
            if self.pos >= self.input.len() {
                break ;
            }
            let c = self.input[self.pos];
            assert(c == old(self).source()[self.pos as int]);
            if !predicate(c) {
                break ;
            }
            self.pos += 1;
        }
        string_of(&self.input, start, self.pos)
    }

    /// Consumes the whitespace under the cursor, if there is any.
    pub fn consume_whitespace(&mut self)
        ensures
            final(self).source() == old(self).source(),
            old(self).cursor() <= final(self).cursor() <= old(self).source().len(),
            final(self).cursor() == skip_whitespace(old(self).source(), old(self).cursor()),
    {
        let _ = self.consume_while(whitespace);
        proof {
            lemma_run_end_unique(
                old(self).source(),
                old(self).cursor(),
                self.cursor(),
                whitespace_chars(),
            );
        }
    }

    /// Consumes a name, which is a run of ASCII letters and digits, and
    /// returns it. The name may be empty.
    pub fn parse_tag_name(&mut self) -> (name: String)
        ensures
            final(self).source() == old(self).source(),
            old(self).cursor() <= final(self).cursor() <= old(self).source().len(),
            final(self).cursor() == name_end(old(self).source(), old(self).cursor()),
            name@ == old(self).source().subrange(old(self).cursor(), final(self).cursor()),
    {
        let name = self.consume_while(tag_char);
        proof {
            lemma_run_end_unique(
                old(self).source(),
                old(self).cursor(),
                self.cursor(),
                tag_chars(),
            );
        }
        name
    }

    /// Consumes the character under the cursor if it is `c`. If it is another
    /// one, or the source has ended, nothing is consumed and the error is of
    /// the given kind.
    fn expect(&mut self, c: char, kind: ParseErrorKind) -> (r: Result<(), ParseError>)
        ensures
            final(self).source() == old(self).source(),
            old(self).cursor() <= final(self).cursor() <= old(self).source().len(),
            match r {
                Ok(_) => {
                    &&& has_char(old(self).source(), old(self).cursor(), c)
                    &&& final(self).cursor() == old(self).cursor() + 1
                },
                Err(e) => {
                    &&& !has_char(old(self).source(), old(self).cursor(), c)
                    &&& e == failure(kind, old(self).cursor())
                    &&& final(self).cursor() == old(self).cursor()
                },
            },
    {
        proof {
            use_type_invariant(&*self);
        }
        if self.pos < self.input.len() && self.input[self.pos] == c {
            self.pos += 1;
            Ok(())
        } else {
            Err(ParseError { kind, offset: self.pos })
        }
    }

    /// Reads an attribute value: a quote, the value, and the same quote
    /// again. Without the first quote the error is `ExpectedQuote`, without
    /// the second `UnterminatedAttrValue`.
    pub fn parse_attr_value(&mut self) -> (r: Result<String, ParseError>)
        ensures
            final(self).source() == old(self).source(),
            old(self).cursor() <= final(self).cursor() <= old(self).source().len(),
            match attr_value(old(self).source(), old(self).cursor()) {
                Outcome::Parsed(value, rest) => {
                    &&& r matches Ok(v) && v@ == value
                    &&& final(self).cursor() == rest
                },
                Outcome::Failed(kind, at) => is_failure(r, kind, at) && final(self).cursor() == at,
            },
    {
        proof {
            use_type_invariant(&*self);
        }
        if self.pos >= self.input.len() {
            return Err(ParseError { kind: ParseErrorKind::ExpectedQuote, offset: self.pos });
        }
        let open_quote = self.input[self.pos];
        if open_quote != '"' && open_quote != '\'' {
            return Err(ParseError { kind: ParseErrorKind::ExpectedQuote, offset: self.pos });
        }
        self.pos += 1;
        let ghost start = self.cursor();
        let inside = |c: char| -> (b: bool)
            ensures
                b == (c != open_quote),
            { c != open_quote };
        let value = self.consume_while(inside);
        proof {
            lemma_run_end_unique(self.source(), start, self.cursor(), all_but(open_quote));
        }
        self.expect(open_quote, ParseErrorKind::UnterminatedAttrValue)?;
        Ok(value)
    }

    /// Reads an attribute: a name, `=`, and a value. Without the `=` the
    /// error is `ExpectedEquals`.
    pub fn parse_attr(&mut self) -> (r: Result<(String, String), ParseError>)
        ensures
            final(self).source() == old(self).source(),
            old(self).cursor() <= final(self).cursor() <= old(self).source().len(),
            match attr(old(self).source(), old(self).cursor()) {
                Outcome::Parsed(pair, rest) => {
                    &&& r matches Ok(found) && found.0@ == pair.0 && found.1@ == pair.1
                    &&& final(self).cursor() == rest
                },
                Outcome::Failed(kind, at) => is_failure(r, kind, at) && final(self).cursor() == at,
            },
    {
        let name = self.parse_tag_name();
        self.expect('=', ParseErrorKind::ExpectedEquals)?;
        let value = self.parse_attr_value()?;
        Ok((name, value))
    }

    /// Reads the attributes of an opening tag, up to its `>`, which is left
    /// for the caller. Of two attributes of one name the later one stays.
    /// Where the source ends before the `>`, the error is `UnexpectedEof`.
    pub fn parse_attributes(&mut self) -> (r: Result<AttrMap, ParseError>)
        ensures
            final(self).source() == old(self).source(),
            old(self).cursor() <= final(self).cursor() <= old(self).source().len(),
            match attributes(old(self).source(), old(self).cursor(), Seq::empty()) {
                Outcome::Parsed(pairs, rest) => {
                    &&& r matches Ok(attrs) && attrs@ == attribute_map(pairs)
                    &&& final(self).cursor() == rest
                },
                Outcome::Failed(kind, at) => is_failure(r, kind, at) && final(self).cursor() == at,
            },
    {
        proof {
            use_type_invariant(&*self);
        }
        let mut attrs = AttrMap::new();
        let ghost mut seen: Seq<(Seq<char>, Seq<char>)> = Seq::empty();
        loop
            invariant
                self.source() == old(self).source(),
                0 <= old(self).cursor() <= self.cursor() <= self.source().len(),
                attrs@ == attribute_map(seen),
                attributes(old(self).source(), old(self).cursor(), Seq::empty()) == attributes(
                    self.source(),
                    self.cursor(),
                    seen,
                ),
            ensures
                self.source() == old(self).source(),
                0 <= old(self).cursor() <= self.cursor() <= self.source().len(),
                attrs@ == attribute_map(seen),
                attributes(old(self).source(), old(self).cursor(), Seq::empty())
                    == Outcome::Parsed(seen, self.cursor()),
            decreases self.source().len() - self.cursor(),
        {
            proof {
                lemma_run_end(self.source(), self.cursor(), whitespace_chars());
            }
            self.consume_whitespace();
            match self.next_char() {
                Err(e) => {
                    return Err(e);
                },
                Ok(c) => {
                    if c == '>' {
                        break ;
                    }
                },
            }
            proof {
                lemma_attr_bounds(self.source(), self.cursor());
            }
            let (name, value) = self.parse_attr()?;
            attrs.insert(name, value);
            proof {
                let pair = (name@, value@);
                assert(seen.push(pair).drop_last() =~= seen);
                seen = seen.push(pair);
            }
        }
        Ok(attrs)
    }

    /// Reads a text node: everything up to the next `<`.
    pub fn parse_text(&mut self) -> (node: Node)
        ensures
            final(self).source() == old(self).source(),
            old(self).cursor() <= final(self).cursor() <= old(self).source().len(),
            text_run(old(self).source(), old(self).cursor()) == Outcome::Parsed(
                node@,
                final(self).cursor(),
            ),
    {
        let content = self.consume_while(text_char);
        proof {
            lemma_run_end_unique(
                old(self).source(),
                old(self).cursor(),
                self.cursor(),
                all_but('<'),
            );
        }
        text_of(content)
    }

    /// Reads one node: an element where a `<` stands, text elsewhere. At the
    /// end of the source the error is `UnexpectedEof`.
    pub fn parse_node(&mut self) -> (r: Result<Node, ParseError>)
        ensures
            final(self).source() == old(self).source(),
            old(self).cursor() <= final(self).cursor() <= old(self).source().len(),
            match node(old(self).source(), old(self).cursor()) {
                Outcome::Parsed(tree, rest) => {
                    &&& r matches Ok(n) && n@ == tree
                    &&& final(self).cursor() == rest
                },
                Outcome::Failed(kind, at) => is_failure(r, kind, at) && final(self).cursor() == at,
            },
        decreases old(self).source().len() - old(self).cursor(), 1nat,
    {
        proof {
            use_type_invariant(&*self);
        }
        match self.next_char()? {
            '<' => self.parse_element(),
            _ => Ok(self.parse_text()),
        }
    }

    /// Reads sibling nodes until the source ends or a closing tag begins.
    pub fn parse_nodes(&mut self) -> (r: Result<Vec<Node>, ParseError>)
        ensures
            final(self).source() == old(self).source(),
            old(self).cursor() <= final(self).cursor() <= old(self).source().len(),
            match nodes(old(self).source(), old(self).cursor(), Seq::empty()) {
                Outcome::Parsed(trees, rest) => {
                    &&& r matches Ok(found) && node_views(found@) == trees
                    &&& final(self).cursor() == rest
                },
                Outcome::Failed(kind, at) => is_failure(r, kind, at) && final(self).cursor() == at,
            },
        decreases old(self).source().len() - old(self).cursor(), 2nat,
    {
        proof {
            use_type_invariant(&*self);
        }
        let mut found: Vec<Node> = Vec::new();
        assert(node_views(found@) =~= Seq::empty());
        loop
            invariant
                self.source() == old(self).source(),
                0 <= old(self).cursor() <= self.cursor() <= self.source().len(),
                nodes(old(self).source(), old(self).cursor(), Seq::empty()) == nodes(
                    self.source(),
                    self.cursor(),
                    node_views(found@),
                ),
            ensures
                self.source() == old(self).source(),
                nodes(old(self).source(), old(self).cursor(), Seq::empty()) == Outcome::Parsed(
                    node_views(found@),
                    self.cursor(),
                ),
            decreases self.source().len() - self.cursor(),
        {
            proof {
                lemma_run_end(self.source(), self.cursor(), whitespace_chars());
            }
            self.consume_whitespace();
            if self.eof() || self.starts_with("</") {
                proof {
                    reveal_strlit("</");
                    if !(self.cursor() >= self.source().len()) {
                        let s = self.source();
                        let p = self.cursor();
                        assert(s.subrange(p, p + 2)[0] == s[p]);
                        assert(s.subrange(p, p + 2)[1] == s[p + 1]);
                    }
                }
                break ;
            }
            proof {
                reveal_strlit("</");
                let s = self.source();
                let p = self.cursor();
                if closing_tag_at(s, p) {
                    assert(s.subrange(p, p + 2) =~= "</"@);
                }
                lemma_node_bounds(s, p);
            }
            let ghost before = node_views(found@);
            let n = self.parse_node()?;
            found.push(n);
            assert(node_views(found@) =~= before.push(n@));
        }
        Ok(found)
    }

    /// Reads an element: the opening tag with its attributes, the children,
    /// and the closing tag, whose name has to be that of the opening tag.
    ///
    /// Without the `<` at the start the error is `ExpectedLt`. Where the source
    /// ends behind the children, it is `UnexpectedEof`. A closing tag of
    /// another name is `MismatchedClosingTag`, found behind that name, and one
    /// without its `>` is `ExpectedCloseGt`. The `>` of the opening tag is
    /// asked for with `ExpectedGt`, which never comes: the attributes end at a
    /// `>` or fail themselves (`lemma_element_never_expected_gt`).
    pub fn parse_element(&mut self) -> (r: Result<Node, ParseError>)
        ensures
            final(self).source() == old(self).source(),
            old(self).cursor() <= final(self).cursor() <= old(self).source().len(),
            match element(old(self).source(), old(self).cursor()) {
                Outcome::Parsed(tree, rest) => {
                    &&& r matches Ok(n) && n@ == tree
                    &&& final(self).cursor() == rest
                },
                Outcome::Failed(kind, at) => is_failure(r, kind, at) && final(self).cursor() == at,
            },
        decreases old(self).source().len() - old(self).cursor(), 0nat,
    {
        proof {
            use_type_invariant(&*self);
        }
        self.expect('<', ParseErrorKind::ExpectedLt)?;
        let tag_name = self.parse_tag_name();
        proof {
            lemma_run_end(self.source(), old(self).cursor() + 1, tag_chars());
            lemma_attributes_bounds(self.source(), self.cursor(), Seq::empty());
        }
        let attrs = self.parse_attributes()?;
        self.expect('>', ParseErrorKind::ExpectedGt)?;
        proof {
            lemma_nodes_bounds(self.source(), self.cursor(), Seq::empty());
        }
        let children = self.parse_nodes()?;
        if self.eof() {
            return Err(ParseError { kind: ParseErrorKind::UnexpectedEof, offset: self.pos });
        }
        assert(self.pos + 2 <= self.input.len());
        self.pos += 2;
        let closing_name = self.parse_tag_name();
        if closing_name != tag_name {
            return Err(
                ParseError { kind: ParseErrorKind::MismatchedClosingTag, offset: self.pos },
            );
        }
        self.expect('>', ParseErrorKind::ExpectedCloseGt)?;
        Ok(element_of(tag_name, attrs, children))
    }

    /// Parses a whole document. A single node at the top level is returned as
    /// it is. Any other number of them, none too, is returned as the children
    /// of an element named `html` that has no attributes. Reading stops at the
    /// end of the source, or at a closing tag that closes nothing: what
    /// follows such a tag is not looked at.
    pub fn parse(source: String) -> (r: Result<Node, ParseError>)
        ensures
            match document(source@) {
                Outcome::Parsed(tree, _) => r matches Ok(n) && n@ == tree,
                Outcome::Failed(kind, at) => is_failure(r, kind, at),
            },
    {
        let mut parser = Parser::new(source);
        let mut top = parser.parse_nodes()?;
        if top.len() == 1 {
            Ok(top.swap_remove(0))
        } else {
            Ok(element_of("html".to_owned(), AttrMap::new(), top))
        }
    }
}

} // verus!
