//! The parser: recursive descent over the tokens of a text, with one
//! token of lookahead.

use crate::assoc::{assoc, lemma_assoc_push};
use crate::grammar::{document, lemma_parse_doc_consumes, lemma_parse_doc_finds_document,
    member_values, parse_doc, parse_items, parse_members, values, Doc};
use crate::token::{lemma_literal_value_as_read, lemma_tokens_as_read, lemma_tokens_unfold, lex,
    literal_as_read, literals_as_read, numbers_as_read, tokens, Token, TokenView, Tokenizer};
use crate::value::{lemma_models_push, model, models, Json, ObjectMap, Value};
use vstd::prelude::*;

verus! {

/// Reads one value from a text.
pub struct Parser {
    tokenizer: Tokenizer,
    peeked: Option<Token>,
}

/// A step of the parser read a document from the front of the tokens:
/// it gave the value of that document and left the tokens after it; or
/// the tokens begin with no document and it gave nothing.
pub open spec fn reads(before: Seq<TokenView>, r: Option<Value>, after: Seq<TokenView>) -> bool {
    match parse_doc(before) {
        Some((d, rest)) => r is Some && r->0@ == d.value() && after == rest,
        None => r is None,
    }
}

/// Where every literal among the tokens was one that the tokenizer
/// makes, so is every number of the value that was read, and every
/// literal among the tokens that are left.
pub open spec fn keeps_as_read(
    before: Seq<TokenView>,
    r: Option<Value>,
    after: Seq<TokenView>,
) -> bool {
    literals_as_read(before) && r is Some ==> numbers_as_read(r->0) && literals_as_read(after)
}

/// The tokens that are left after some were taken from the front hold
/// only literals that the tokenizer makes, where all tokens did.
proof fn lemma_rest_as_read(ts: Seq<TokenView>, n: int)
    requires
        literals_as_read(ts),
        0 <= n <= ts.len(),
    ensures
        literals_as_read(ts.skip(n)),
{
    let rest = ts.skip(n);
    assert forall|i: int| 0 <= i < rest.len() implies ((#[trigger] rest[i]) matches TokenView::Literal(
        value,
    ) ==> literal_as_read(value)) by {
        assert(rest[i] == ts[n + i]);
    }
}

impl Parser {
    /// The tokens that have not been taken yet.
    pub closed spec fn stream(self) -> Seq<TokenView> {
        match self.peeked {
            Some(token) => seq![token@] + tokens(self.tokenizer@),
            None => tokens(self.tokenizer@),
        }
    }

    /// A parser at the start of a text.
    pub fn new(input: &str) -> (p: Parser)
        ensures
            p.stream() == tokens(input@),
            literals_as_read(p.stream()),
    {
        proof {
            lemma_tokens_as_read(input@);
        }
        Parser { tokenizer: Tokenizer::new(input), peeked: None }
    }

    /// Reads the value that the text begins with. There is a value
    /// exactly where the tokens of the text begin with a document, and
    /// it is the value of that document; what follows the document is
    /// not looked at.
    pub fn parse(self) -> (r: Option<Value>)
        ensures
            match document(self.stream()) {
                Some(d) => r is Some && r->0@ == d.value(),
                None => r is None,
            },
            literals_as_read(self.stream()) && r is Some ==> numbers_as_read(r->0),
    {
        proof {
            lemma_parse_doc_finds_document(self.stream());
        }
        let mut parser = self;
        parser.parse_value()
    }

    /// Looks at the next token without taking it.
    fn peek(&mut self)
        ensures
            final(self).stream() == old(self).stream(),
            final(self).peeked is Some <==> old(self).stream().len() > 0,
            final(self).peeked matches Some(token) ==> token@ == old(self).stream()[0],
    {
        if self.peeked.is_none() {
            proof {
                lemma_tokens_unfold(self.tokenizer@);
                lemma_tokens_unfold(Seq::<char>::empty());
            }
            self.peeked = self.tokenizer.next_token();
        }
    }

    /// Takes the next token.
    fn next(&mut self) -> (r: Option<Token>)
        ensures
            final(self).peeked is None,
            match r {
                Some(token) => old(self).stream().len() > 0 && token@ == old(self).stream()[0]
                    && final(self).stream() == old(self).stream().skip(1),
                None => old(self).stream().len() == 0 && final(self).stream().len() == 0,
            },
    {
        let mut taken: Option<Token> = None;
        core::mem::swap(&mut self.peeked, &mut taken);
        match taken {
            Some(token) => {
                assert((seq![token@] + tokens(self.tokenizer@)).skip(1) =~= tokens(
                    self.tokenizer@,
                ));
                Some(token)
            },
            None => {
                proof {
                    lemma_tokens_unfold(self.tokenizer@);
                    lemma_tokens_unfold(Seq::<char>::empty());
                    if let Some((token, rest)) = lex(self.tokenizer@) {
                        assert((seq![token] + tokens(rest)).skip(1) =~= tokens(rest));
                    }
                }
                self.tokenizer.next_token()
            },
        }
    }

    /// Reads an object, starting at its opening brace.
    fn parse_object(&mut self) -> (r: Option<Value>)
        requires
            old(self).stream().len() > 0,
            old(self).stream()[0] == TokenView::CurlyBracketOpen,
        ensures
            reads(old(self).stream(), r, final(self).stream()),
            keeps_as_read(old(self).stream(), r, final(self).stream()),
        decreases old(self).stream().len(), 0nat,
    {
        let ghost ts = self.stream();
        self.next();
        self.peek();
        match &self.peeked {
            Some(Token::CurlyBracketClose) => {
                self.next();
                let members = ObjectMap::new();
                proof {
                    assert(ts.skip(1).skip(1) =~= ts.skip(2));
                    assert(member_values(Seq::empty()) =~= Seq::empty());
                    if literals_as_read(ts) {
                        lemma_rest_as_read(ts, 2);
                    }
                }
                return Some(Value::Object(members));
            },
            _ => {},
        }
        let ghost inner = self.stream();
        let mut members = ObjectMap::new();
        let ghost mut written: Seq<(Seq<char>, Doc)> = Seq::empty();
        proof {
            if let Some((more, rest)) = parse_members(inner) {
                assert(written + more =~= more);
            }
            if literals_as_read(ts) {
                lemma_rest_as_read(ts, 1);
            }
        }
        loop
            invariant
                ts == old(self).stream(),
                ts.len() > 0 && ts[0] == TokenView::CurlyBracketOpen,
                !(ts.len() > 1 && ts[1] == TokenView::CurlyBracketClose),
                inner == ts.skip(1),
                self.stream().len() < ts.len(),
                literals_as_read(ts) ==> literals_as_read(self.stream()),
                literals_as_read(ts) ==> forall|k: int|
                    0 <= k < members.entries().len() ==> numbers_as_read(
                        (#[trigger] members.entries()[k]).1,
                    ),
                model(Value::Object(members)) == Json::Object(assoc(member_values(written))),
                match parse_members(self.stream()) {
                    Some((more, rest)) => parse_members(inner) == Some((written + more, rest)),
                    None => parse_members(inner) is None,
                },
            decreases self.stream().len(),
        {
            let ghost cur = self.stream();
            let key = match self.next() {
                Some(Token::Value(Value::JsonString(key))) => key,
                _ => {
                    return None;
                },
            };
            match self.next() {
                Some(Token::Colon) => {},
                _ => {
                    return None;
                },
            }
            proof {
                assert(cur.skip(1).skip(1) =~= cur.skip(2));
                lemma_parse_doc_consumes(cur.skip(2));
                if literals_as_read(cur) {
                    lemma_rest_as_read(cur, 2);
                }
            }
            let value = match self.parse_value() {
                Some(value) => value,
                None => {
                    return None;
                },
            };
            let ghost (d, rest) = parse_doc(cur.skip(2)).unwrap();
            proof {
                lemma_assoc_push(member_values(written), key@, d.value());
                assert(written.push((key@, d)).drop_last() =~= written);
                if rest.len() > 0 && rest[0] == TokenView::Comma {
                    if let Some((more, after)) = parse_members(rest.skip(1)) {
                        assert(written + (seq![(key@, d)] + more) =~= written.push((key@, d))
                            + more);
                    }
                } else if rest.len() > 0 && rest[0] == TokenView::CurlyBracketClose {
                    assert(written + seq![(key@, d)] =~= written.push((key@, d)));
                }
            }
            let ghost stored = members.entries();
            members.insert(key, value);
            proof {
                written = written.push((key@, d));
                if literals_as_read(ts) && self.stream().len() > 0 {
                    lemma_rest_as_read(self.stream(), 1);
                }
                if literals_as_read(ts) {
                    assert forall|k: int| 0 <= k < members.entries().len() implies numbers_as_read(
                        (#[trigger] members.entries()[k]).1,
                    ) by {
                        if members.entries() == stored.push((key, value)) {
                            if k < stored.len() {
                                assert(members.entries()[k] == stored[k]);
                            }
                        } else {
                            let i = choose|i: int|
                                0 <= i < stored.len() && members.entries() == stored.update(
                                    i,
                                    (key, value),
                                );
                            if k != i {
                                assert(members.entries()[k] == stored[k]);
                            }
                        }
                    }
                }
            }
            match self.next() {
                Some(Token::Comma) => {},
                Some(Token::CurlyBracketClose) => {
                    return Some(Value::Object(members));
                },
                _ => {
                    return None;
                },
            }
        }
    }

    /// Reads the value that the tokens begin with.
    fn parse_value(&mut self) -> (r: Option<Value>)
        ensures
            reads(old(self).stream(), r, final(self).stream()),
            keeps_as_read(old(self).stream(), r, final(self).stream()),
        decreases old(self).stream().len(), 1nat,
    {
        let ghost ts = self.stream();
        self.peek();
        match &self.peeked {
            Some(Token::CurlyBracketOpen) => self.parse_object(),
            Some(Token::BracketOpen) => self.parse_array(),
            Some(Token::Value(_)) => match self.next() {
                Some(Token::Value(value)) => {
                    proof {
                        if literals_as_read(ts) {
                            assert(ts[0] == TokenView::Literal(value@));
                            lemma_literal_value_as_read(value);
                            lemma_rest_as_read(ts, 1);
                        }
                    }
                    Some(value)
                },
                _ => None,
            },
            _ => None,
        }
    }

    /// Reads an array, starting at its opening bracket.
    fn parse_array(&mut self) -> (r: Option<Value>)
        requires
            old(self).stream().len() > 0,
            old(self).stream()[0] == TokenView::BracketOpen,
        ensures
            reads(old(self).stream(), r, final(self).stream()),
            keeps_as_read(old(self).stream(), r, final(self).stream()),
        decreases old(self).stream().len(), 0nat,
    {
        let ghost ts = self.stream();
        self.next();
        self.peek();
        match &self.peeked {
            Some(Token::BracketClose) => {
                self.next();
                let items: Vec<Value> = Vec::new();
                proof {
                    assert(ts.skip(1).skip(1) =~= ts.skip(2));
                    assert(values(Seq::empty()) =~= Seq::empty());
                    assert(models(items@) =~= Seq::empty());
                    if literals_as_read(ts) {
                        lemma_rest_as_read(ts, 2);
                    }
                }
                return Some(Value::Array(items));
            },
            _ => {},
        }
        let ghost inner = self.stream();
        let mut items: Vec<Value> = Vec::new();
        let ghost mut docs: Seq<Doc> = Seq::empty();
        proof {
            if let Some((more, rest)) = parse_items(inner) {
                assert(docs + more =~= more);
            }
            if literals_as_read(ts) {
                lemma_rest_as_read(ts, 1);
            }
        }
        loop
            invariant
                ts == old(self).stream(),
                ts.len() > 0 && ts[0] == TokenView::BracketOpen,
                !(ts.len() > 1 && ts[1] == TokenView::BracketClose),
                inner == ts.skip(1),
                self.stream().len() < ts.len(),
                literals_as_read(ts) ==> literals_as_read(self.stream()),
                literals_as_read(ts) ==> forall|k: int|
                    0 <= k < items@.len() ==> numbers_as_read(#[trigger] items@[k]),
                models(items@) == values(docs),
                match parse_items(self.stream()) {
                    Some((more, rest)) => parse_items(inner) == Some((docs + more, rest)),
                    None => parse_items(inner) is None,
                },
            decreases self.stream().len(),
        {
            let ghost cur = self.stream();
            proof {
                lemma_parse_doc_consumes(cur);
            }
            let value = match self.parse_value() {
                Some(value) => value,
                None => {
                    return None;
                },
            };
            let ghost (d, rest) = parse_doc(cur).unwrap();
            proof {
                lemma_models_push(items@, value);
                assert(docs.push(d).drop_last() =~= docs);
                if rest.len() > 0 && rest[0] == TokenView::Comma {
                    if let Some((more, after)) = parse_items(rest.skip(1)) {
                        assert(docs + (seq![d] + more) =~= docs.push(d) + more);
                    }
                } else if rest.len() > 0 && rest[0] == TokenView::BracketClose {
                    assert(docs + seq![d] =~= docs.push(d));
                }
            }
            items.push(value);
            proof {
                docs = docs.push(d);
                if literals_as_read(ts) && self.stream().len() > 0 {
                    lemma_rest_as_read(self.stream(), 1);
                }
            }
            match self.next() {
                Some(Token::Comma) => {},
                Some(Token::BracketClose) => {
                    return Some(Value::Array(items));
                },
                _ => {
                    return None;
                },
            }
        }
    }
}

} // verus!
