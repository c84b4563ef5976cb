//! The grammar of documents over tokens, and the document that a
//! sequence of tokens begins with.
//!
//! ```text
//! value  := object | array | literal
//! object := '{' (pair (',' pair)*)? '}'
//! pair   := string ':' value
//! array  := '[' (value (',' value)*)? ']'
//! ```

use crate::assoc::{assoc, lemma_assoc_dom, lemma_assoc_last};
use crate::seqs::{lemma_cons, lemma_cons2, lemma_front, lemma_regroup, lemma_uncons, lemma_uncons2};
use crate::token::TokenView;
use crate::value::Json;
use vstd::prelude::*;

verus! {

/// A document as it is written: the members of an object stand in their
/// order, and a key may occur more than once.
pub enum Doc {
    Literal(Json),
    Array(Seq<Doc>),
    Object(Seq<(Seq<char>, Doc)>),
}

/// The values of a sequence of documents, in order.
pub open spec fn values(items: Seq<Doc>) -> Seq<Json>
    decreases items,
{
    if items.len() == 0 {
        Seq::empty()
    } else {
        values(items.drop_last()).push(items.last().value())
    }
}

/// The members of a written object, each with the value of its document.
pub open spec fn member_values(members: Seq<(Seq<char>, Doc)>) -> Seq<(Seq<char>, Json)>
    decreases members,
{
    if members.len() == 0 {
        Seq::empty()
    } else {
        member_values(members.drop_last()).push((members.last().0, members.last().1.value()))
    }
}

/// The tokens of the elements of an array, with a comma between each two.
pub open spec fn item_tokens(items: Seq<Doc>) -> Seq<TokenView>
    decreases items,
{
    if items.len() == 0 {
        Seq::empty()
    } else if items.len() == 1 {
        items[0].tokens()
    } else {
        items[0].tokens() + seq![TokenView::Comma] + item_tokens(items.skip(1))
    }
}

/// The tokens of the members of an object, with a comma between each two.
pub open spec fn member_tokens(members: Seq<(Seq<char>, Doc)>) -> Seq<TokenView>
    decreases members,
{
    if members.len() == 0 {
        Seq::empty()
    } else if members.len() == 1 {
        seq![TokenView::Literal(Json::Str(members[0].0)), TokenView::Colon]
            + members[0].1.tokens()
    } else {
        seq![TokenView::Literal(Json::Str(members[0].0)), TokenView::Colon]
            + members[0].1.tokens() + seq![TokenView::Comma] + member_tokens(members.skip(1))
    }
}

impl Doc {
    /// The value that the document denotes. Of two members of an object
    /// with the same key, the later one stays.
    pub open spec fn value(self) -> Json
        decreases self,
    {
        match self {
            Doc::Literal(value) => value,
            Doc::Array(items) => Json::Array(values(items)),
            Doc::Object(members) => Json::Object(assoc(member_values(members))),
        }
    }

    /// The tokens that write the document.
    pub open spec fn tokens(self) -> Seq<TokenView>
        decreases self,
    {
        match self {
            Doc::Literal(value) => seq![TokenView::Literal(value)],
            Doc::Array(items) => seq![TokenView::BracketOpen] + item_tokens(items)
                + seq![TokenView::BracketClose],
            Doc::Object(members) => seq![TokenView::CurlyBracketOpen] + member_tokens(members)
                + seq![TokenView::CurlyBracketClose],
        }
    }
}

/// The tokens begin with those of the document.
pub open spec fn begins_with(ts: Seq<TokenView>, d: Doc) -> bool {
    d.tokens().is_prefix_of(ts)
}

/// The document that the tokens begin with, if they begin with one.
/// There is at most one such document (`lemma_document_unique`).
pub open spec fn document(ts: Seq<TokenView>) -> Option<Doc> {
    if exists|d: Doc| begins_with(ts, d) {
        Some(choose|d: Doc| begins_with(ts, d))
    } else {
        None
    }
}

/// Reads one document from the front of the tokens, by recursive descent
/// with one token of lookahead, and gives the tokens after it.
pub open spec fn parse_doc(ts: Seq<TokenView>) -> Option<(Doc, Seq<TokenView>)>
    decreases ts.len(), 0nat,
{
    if ts.len() == 0 {
        None
    } else {
        match ts[0] {
            TokenView::Literal(value) => Some((Doc::Literal(value), ts.skip(1))),
            TokenView::BracketOpen => {
                if ts.len() > 1 && ts[1] == TokenView::BracketClose {
                    Some((Doc::Array(Seq::empty()), ts.skip(2)))
                } else {
                    match parse_items(ts.skip(1)) {
                        Some((items, rest)) => Some((Doc::Array(items), rest)),
                        None => None,
                    }
                }
            },
            TokenView::CurlyBracketOpen => {
                if ts.len() > 1 && ts[1] == TokenView::CurlyBracketClose {
                    Some((Doc::Object(Seq::empty()), ts.skip(2)))
                } else {
                    match parse_members(ts.skip(1)) {
                        Some((members, rest)) => Some((Doc::Object(members), rest)),
                        None => None,
                    }
                }
            },
            _ => None,
        }
    }
}

/// Reads the elements of an array that has at least one, and its closing
/// bracket. (A document always takes a token; the comparison of lengths
/// is there for the definition to be well-founded.)
pub open spec fn parse_items(ts: Seq<TokenView>) -> Option<(Seq<Doc>, Seq<TokenView>)>
    decreases ts.len(), 1nat,
{
    match parse_doc(ts) {
        None => None,
        Some((d, rest)) => {
            if rest.len() == 0 || rest.len() >= ts.len() {
                None
            } else if rest[0] == TokenView::Comma {
                match parse_items(rest.skip(1)) {
                    Some((more, after)) => Some((seq![d] + more, after)),
                    None => None,
                }
            } else if rest[0] == TokenView::BracketClose {
                Some((seq![d], rest.skip(1)))
            } else {
                None
            }
        },
    }
}

/// Reads the members of an object that has at least one, and its closing
/// brace.
pub open spec fn parse_members(ts: Seq<TokenView>) -> Option<
    (Seq<(Seq<char>, Doc)>, Seq<TokenView>),
>
    decreases ts.len(), 1nat,
{
    if ts.len() >= 2 && ts[0] is Literal && ts[0]->Literal_0 is Str && ts[1] == TokenView::Colon {
        let key = ts[0]->Literal_0->Str_0;
        match parse_doc(ts.skip(2)) {
            None => None,
            Some((d, rest)) => {
                if rest.len() == 0 || rest.len() >= ts.len() {
                    None
                } else if rest[0] == TokenView::Comma {
                    match parse_members(rest.skip(1)) {
                        Some((more, after)) => Some((seq![(key, d)] + more, after)),
                        None => None,
                    }
                } else if rest[0] == TokenView::CurlyBracketClose {
                    Some((seq![(key, d)], rest.skip(1)))
                } else {
                    None
                }
            },
        }
    } else {
        None
    }
}

/// The values of a sequence of documents stand at the positions of the
/// documents.
pub proof fn lemma_values_index(items: Seq<Doc>, i: int)
    requires
        0 <= i < items.len(),
    ensures
        values(items).len() == items.len(),
        values(items)[i] == items[i].value(),
    decreases items.len(),
{
    lemma_values_len(items);
    if i < items.len() - 1 {
        lemma_values_index(items.drop_last(), i);
    }
}

/// A sequence of documents has as many values as documents.
pub proof fn lemma_values_len(items: Seq<Doc>)
    ensures
        values(items).len() == items.len(),
    decreases items.len(),
{
    if items.len() > 0 {
        lemma_values_len(items.drop_last());
    }
}

/// The members with their values stand at the positions of the written
/// members.
pub proof fn lemma_member_values_index(members: Seq<(Seq<char>, Doc)>, i: int)
    requires
        0 <= i < members.len(),
    ensures
        member_values(members).len() == members.len(),
        member_values(members)[i] == (members[i].0, members[i].1.value()),
    decreases members.len(),
{
    lemma_member_values_len(members);
    if i < members.len() - 1 {
        lemma_member_values_index(members.drop_last(), i);
    }
}

/// There are as many members with values as written members.
pub proof fn lemma_member_values_len(members: Seq<(Seq<char>, Doc)>)
    ensures
        member_values(members).len() == members.len(),
    decreases members.len(),
{
    if members.len() > 0 {
        lemma_member_values_len(members.drop_last());
    }
}

/// The value of a written array has the values of the written elements,
/// as many and in the same order.
pub proof fn lemma_array_shape(items: Seq<Doc>)
    ensures
        Doc::Array(items).value() is Array,
        Doc::Array(items).value()->Array_0.len() == items.len(),
        forall|i: int|
            0 <= i < items.len() ==> Doc::Array(items).value()->Array_0[i]
                == (#[trigger] items[i]).value(),
{
    lemma_values_len(items);
    assert forall|i: int| 0 <= i < items.len() implies values(items)[i] == (
    #[trigger] items[i]).value() by {
        lemma_values_index(items, i);
    }
}

/// The value of a written object holds the keys that are written and no
/// others, and under each key the value of the last member written
/// with it.
pub proof fn lemma_object_shape(members: Seq<(Seq<char>, Doc)>, key: Seq<char>)
    ensures
        Doc::Object(members).value() is Object,
        Doc::Object(members).value()->Object_0.contains_key(key) <==> exists|i: int|
            0 <= i < members.len() && (#[trigger] members[i]).0 == key,
        forall|i: int|
            0 <= i < members.len() && (#[trigger] members[i]).0 == key && (forall|j: int|
                i < j < members.len() ==> (#[trigger] members[j]).0 != key) ==> Doc::Object(
                members,
            ).value()->Object_0[key] == members[i].1.value(),
{
    let pairs = member_values(members);
    lemma_member_values_len(members);
    lemma_assoc_dom(pairs, key);
    if assoc(pairs).contains_key(key) {
        let i = choose|i: int| 0 <= i < pairs.len() && (#[trigger] pairs[i]).0 == key;
        lemma_member_values_index(members, i);
        assert(members[i].0 == key);
    }
    if exists|i: int| 0 <= i < members.len() && (#[trigger] members[i]).0 == key {
        let i = choose|i: int| 0 <= i < members.len() && (#[trigger] members[i]).0 == key;
        lemma_member_values_index(members, i);
        assert(pairs[i].0 == key);
    }
    assert forall|i: int|
        0 <= i < members.len() && (#[trigger] members[i]).0 == key && (forall|j: int|
            i < j < members.len() ==> (#[trigger] members[j]).0 != key) implies assoc(pairs)[key]
        == members[i].1.value() by {
        lemma_member_values_index(members, i);
        assert forall|j: int| i < j < pairs.len() implies (#[trigger] pairs[j]).0
            != pairs[i].0 by {
            lemma_member_values_index(members, j);
            assert(members[j].0 != key);
        }
        lemma_assoc_last(pairs, i);
    }
}

/// A document is written with at least one token, and the first one is a
/// literal or opens an array or an object.
pub proof fn lemma_first_token(d: Doc)
    ensures
        d.tokens().len() >= 1,
        d.tokens()[0] is Literal || d.tokens()[0] == TokenView::BracketOpen || d.tokens()[0]
            == TokenView::CurlyBracketOpen,
{
}

/// What `parse_doc` reads is written by the tokens that it took.
pub proof fn lemma_parse_doc_sound(ts: Seq<TokenView>)
    ensures
        parse_doc(ts) matches Some((d, rest)) ==> ts == d.tokens() + rest,
    decreases ts.len(), 0nat,
{
    if ts.len() > 0 {
        match ts[0] {
            TokenView::Literal(value) => {
                lemma_uncons(ts);
            },
            TokenView::BracketOpen => {
                let open = seq![TokenView::BracketOpen];
                let close = seq![TokenView::BracketClose];
                if ts.len() > 1 && ts[1] == TokenView::BracketClose {
                    lemma_uncons2(ts);
                    assert(open + item_tokens(Seq::empty()) + close =~= seq![ts[0], ts[1]]);
                } else {
                    lemma_parse_items_sound(ts.skip(1));
                    if let Some((items, rest)) = parse_items(ts.skip(1)) {
                        lemma_uncons(ts);
                        lemma_regroup(item_tokens(items), close, rest);
                        lemma_regroup(open, item_tokens(items), close + rest);
                        lemma_regroup(open + item_tokens(items), close, rest);
                    }
                }
            },
            TokenView::CurlyBracketOpen => {
                let open = seq![TokenView::CurlyBracketOpen];
                let close = seq![TokenView::CurlyBracketClose];
                if ts.len() > 1 && ts[1] == TokenView::CurlyBracketClose {
                    lemma_uncons2(ts);
                    assert(open + member_tokens(Seq::empty()) + close =~= seq![ts[0], ts[1]]);
                } else {
                    lemma_parse_members_sound(ts.skip(1));
                    if let Some((members, rest)) = parse_members(ts.skip(1)) {
                        lemma_uncons(ts);
                        lemma_regroup(member_tokens(members), close, rest);
                        lemma_regroup(open, member_tokens(members), close + rest);
                        lemma_regroup(open + member_tokens(members), close, rest);
                    }
                }
            },
            _ => {},
        }
    }
}

/// What `parse_items` reads is written by the tokens that it took.
pub proof fn lemma_parse_items_sound(ts: Seq<TokenView>)
    ensures
        parse_items(ts) matches Some((items, rest)) ==> items.len() >= 1 && ts == item_tokens(
            items,
        ) + seq![TokenView::BracketClose] + rest,
    decreases ts.len(), 1nat,
{
    lemma_parse_doc_sound(ts);
    let comma = seq![TokenView::Comma];
    let close = seq![TokenView::BracketClose];
    if let Some((d, rest)) = parse_doc(ts) {
        if rest.len() == 0 || rest.len() >= ts.len() {
        } else if rest[0] == TokenView::Comma {
            lemma_parse_items_sound(rest.skip(1));
            if let Some((more, after)) = parse_items(rest.skip(1)) {
                let items = seq![d] + more;
                lemma_cons(d, more);
                lemma_uncons(rest);
                // ts == d.tokens() + (comma + (item_tokens(more) + close + after))
                lemma_regroup(item_tokens(more), close, after);
                lemma_regroup(comma, item_tokens(more), close + after);
                lemma_regroup(d.tokens(), comma + item_tokens(more), close + after);
                lemma_regroup(d.tokens(), comma, item_tokens(more));
                lemma_regroup(item_tokens(items), close, after);
            }
        } else if rest[0] == TokenView::BracketClose {
            lemma_uncons(rest);
            lemma_regroup(d.tokens(), close, rest.skip(1));
            assert(item_tokens(seq![d]) == d.tokens());
        }
    }
}

/// What `parse_members` reads is written by the tokens that it took.
pub proof fn lemma_parse_members_sound(ts: Seq<TokenView>)
    ensures
        parse_members(ts) matches Some((members, rest)) ==> members.len() >= 1 && ts
            == member_tokens(members) + seq![TokenView::CurlyBracketClose] + rest,
    decreases ts.len(), 1nat,
{
    let comma = seq![TokenView::Comma];
    let close = seq![TokenView::CurlyBracketClose];
    if ts.len() >= 2 && ts[0] is Literal && ts[0]->Literal_0 is Str && ts[1] == TokenView::Colon {
        let key = ts[0]->Literal_0->Str_0;
        let head = seq![TokenView::Literal(Json::Str(key)), TokenView::Colon];
        lemma_uncons2(ts);
        lemma_parse_doc_sound(ts.skip(2));
        if let Some((d, rest)) = parse_doc(ts.skip(2)) {
            let pair = head + d.tokens();
            lemma_regroup(head, d.tokens(), rest);
            // ts == pair + rest
            if rest.len() == 0 || rest.len() >= ts.len() {
            } else if rest[0] == TokenView::Comma {
                lemma_parse_members_sound(rest.skip(1));
                if let Some((more, after)) = parse_members(rest.skip(1)) {
                    let members = seq![(key, d)] + more;
                    lemma_cons((key, d), more);
                    lemma_uncons(rest);
                    lemma_regroup(member_tokens(more), close, after);
                    lemma_regroup(comma, member_tokens(more), close + after);
                    lemma_regroup(pair, comma + member_tokens(more), close + after);
                    lemma_regroup(pair, comma, member_tokens(more));
                    lemma_regroup(member_tokens(members), close, after);
                }
            } else if rest[0] == TokenView::CurlyBracketClose {
                lemma_uncons(rest);
                lemma_regroup(pair, close, rest.skip(1));
                assert(member_tokens(seq![(key, d)]) == pair);
            }
        }
    }
}

/// `parse_doc` takes at least one token.
pub proof fn lemma_parse_doc_consumes(ts: Seq<TokenView>)
    ensures
        parse_doc(ts) matches Some((d, rest)) ==> rest.len() < ts.len(),
{
    lemma_parse_doc_sound(ts);
    if let Some((d, rest)) = parse_doc(ts) {
        lemma_first_token(d);
    }
}

/// `parse_doc` reads every document from the tokens that write it,
/// whatever follows them.
pub proof fn lemma_parse_doc_complete(d: Doc, rest: Seq<TokenView>)
    ensures
        parse_doc(d.tokens() + rest) == Some((d, rest)),
    decreases d,
{
    let ts = d.tokens() + rest;
    match d {
        Doc::Literal(value) => {
            lemma_cons(TokenView::Literal(value), rest);
        },
        Doc::Array(items) => {
            let open = seq![TokenView::BracketOpen];
            let close = seq![TokenView::BracketClose];
            if items.len() == 0 {
                assert(items =~= Seq::empty());
                assert(open + item_tokens(items) + close =~= seq![
                    TokenView::BracketOpen,
                    TokenView::BracketClose,
                ]);
                lemma_cons2(TokenView::BracketOpen, TokenView::BracketClose, rest);
            } else {
                lemma_parse_items_complete(items, rest);
                let inner = item_tokens(items) + close + rest;
                lemma_regroup(open + item_tokens(items), close, rest);
                lemma_regroup(open, item_tokens(items), close + rest);
                lemma_regroup(item_tokens(items), close, rest);
                // ts == open + inner
                lemma_cons(TokenView::BracketOpen, inner);
                lemma_items_first(items);
                lemma_front(item_tokens(items), close + rest);
            }
        },
        Doc::Object(members) => {
            let open = seq![TokenView::CurlyBracketOpen];
            let close = seq![TokenView::CurlyBracketClose];
            if members.len() == 0 {
                assert(members =~= Seq::empty());
                assert(open + member_tokens(members) + close =~= seq![
                    TokenView::CurlyBracketOpen,
                    TokenView::CurlyBracketClose,
                ]);
                lemma_cons2(TokenView::CurlyBracketOpen, TokenView::CurlyBracketClose, rest);
            } else {
                lemma_parse_members_complete(members, rest);
                let inner = member_tokens(members) + close + rest;
                lemma_regroup(open + member_tokens(members), close, rest);
                lemma_regroup(open, member_tokens(members), close + rest);
                lemma_regroup(member_tokens(members), close, rest);
                lemma_cons(TokenView::CurlyBracketOpen, inner);
                lemma_members_first(members);
                lemma_front(member_tokens(members), close + rest);
            }
        },
    }
}

/// The elements of an array that has one begin with a token that does
/// not close the array.
proof fn lemma_items_first(items: Seq<Doc>)
    requires
        items.len() >= 1,
    ensures
        item_tokens(items).len() >= 1,
        item_tokens(items)[0] == items[0].tokens()[0],
        item_tokens(items)[0] != TokenView::BracketClose,
{
    lemma_first_token(items[0]);
    if items.len() > 1 {
        lemma_regroup(items[0].tokens(), seq![TokenView::Comma], item_tokens(items.skip(1)));
        lemma_front(items[0].tokens(), seq![TokenView::Comma] + item_tokens(items.skip(1)));
    }
}

/// The members of an object that has one begin with a key.
proof fn lemma_members_first(members: Seq<(Seq<char>, Doc)>)
    requires
        members.len() >= 1,
    ensures
        member_tokens(members).len() >= 1,
        member_tokens(members)[0] == TokenView::Literal(Json::Str(members[0].0)),
{
}

/// `parse_items` reads the elements of every array that has one from
/// the tokens that write them.
pub proof fn lemma_parse_items_complete(items: Seq<Doc>, rest: Seq<TokenView>)
    requires
        items.len() >= 1,
    ensures
        parse_items(item_tokens(items) + seq![TokenView::BracketClose] + rest) == Some(
            (items, rest),
        ),
    decreases items,
{
    let comma = seq![TokenView::Comma];
    let close = seq![TokenView::BracketClose];
    let d = items[0];
    lemma_first_token(d);
    if items.len() == 1 {
        let tail = close + rest;
        lemma_parse_doc_complete(d, tail);
        lemma_regroup(d.tokens(), close, rest);
        lemma_cons(TokenView::BracketClose, rest);
        assert(items =~= seq![d]);
    } else {
        let more = items.skip(1);
        lemma_parse_items_complete(more, rest);
        let after = item_tokens(more) + close + rest;
        let tail = comma + after;
        lemma_parse_doc_complete(d, tail);
        lemma_regroup(item_tokens(items), close, rest);
        lemma_regroup(d.tokens() + comma, item_tokens(more), close + rest);
        lemma_regroup(d.tokens(), comma, item_tokens(more) + (close + rest));
        lemma_regroup(item_tokens(more), close, rest);
        // the tokens are d.tokens() + tail
        lemma_cons(TokenView::Comma, after);
        assert(items =~= seq![d] + more);
    }
}

/// `parse_members` reads the members of every object that has one from
/// the tokens that write them.
pub proof fn lemma_parse_members_complete(members: Seq<(Seq<char>, Doc)>, rest: Seq<TokenView>)
    requires
        members.len() >= 1,
    ensures
        parse_members(member_tokens(members) + seq![TokenView::CurlyBracketClose] + rest) == Some(
            (members, rest),
        ),
    decreases members,
{
    let comma = seq![TokenView::Comma];
    let close = seq![TokenView::CurlyBracketClose];
    let key = members[0].0;
    let d = members[0].1;
    let head = seq![TokenView::Literal(Json::Str(key)), TokenView::Colon];
    lemma_first_token(d);
    if members.len() == 1 {
        let tail = close + rest;
        lemma_parse_doc_complete(d, tail);
        lemma_regroup(head + d.tokens(), close, rest);
        lemma_regroup(head, d.tokens(), tail);
        lemma_cons2(TokenView::Literal(Json::Str(key)), TokenView::Colon, d.tokens() + tail);
        lemma_cons(TokenView::CurlyBracketClose, rest);
        assert(members =~= seq![(key, d)]);
    } else {
        let more = members.skip(1);
        lemma_parse_members_complete(more, rest);
        let after = member_tokens(more) + close + rest;
        let tail = comma + after;
        lemma_parse_doc_complete(d, tail);
        lemma_regroup(member_tokens(members), close, rest);
        lemma_regroup(head + d.tokens() + comma, member_tokens(more), close + rest);
        lemma_regroup(head + d.tokens(), comma, member_tokens(more) + (close + rest));
        lemma_regroup(member_tokens(more), close, rest);
        lemma_regroup(head, d.tokens(), tail);
        lemma_cons2(TokenView::Literal(Json::Str(key)), TokenView::Colon, d.tokens() + tail);
        lemma_cons(TokenView::Comma, after);
        assert(members =~= seq![(key, d)] + more);
    }
}

/// No sequence of tokens begins with two different documents.
pub proof fn lemma_document_unique(ts: Seq<TokenView>, d: Doc)
    requires
        begins_with(ts, d),
    ensures
        document(ts) == Some(d),
{
    let other = choose|other: Doc| begins_with(ts, other);
    lemma_begins_with(ts, d);
    lemma_begins_with(ts, other);
}

/// Tokens that begin with a document are read as that document.
pub proof fn lemma_begins_with(ts: Seq<TokenView>, d: Doc)
    requires
        begins_with(ts, d),
    ensures
        parse_doc(ts) == Some((d, ts.skip(d.tokens().len() as int))),
{
    let rest = ts.skip(d.tokens().len() as int);
    assert(ts =~= d.tokens() + rest);
    lemma_parse_doc_complete(d, rest);
}

/// Reading by recursive descent finds the document that the tokens begin
/// with, and fails exactly where they begin with none.
pub proof fn lemma_parse_doc_finds_document(ts: Seq<TokenView>)
    ensures
        document(ts) == match parse_doc(ts) {
            Some((d, rest)) => Some(d),
            None => None,
        },
{
    lemma_parse_doc_sound(ts);
    match parse_doc(ts) {
        Some((d, rest)) => {
            assert(d.tokens().is_prefix_of(ts)) by {
                assert(ts.subrange(0, d.tokens().len() as int) =~= d.tokens());
            }
            lemma_document_unique(ts, d);
        },
        None => {
            if exists|d: Doc| begins_with(ts, d) {
                let d = choose|d: Doc| begins_with(ts, d);
                lemma_begins_with(ts, d);
            }
        },
    }
}

/// Every document is read back from the tokens that write it, whatever
/// tokens follow them.
pub proof fn lemma_document_of_tokens(d: Doc, rest: Seq<TokenView>)
    ensures
        document(d.tokens() + rest) == Some(d),
{
    assert(d.tokens().is_prefix_of(d.tokens() + rest)) by {
        assert((d.tokens() + rest).subrange(0, d.tokens().len() as int) =~= d.tokens());
    }
    lemma_document_unique(d.tokens() + rest, d);
}

} // verus!
