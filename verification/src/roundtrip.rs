//! What the text of a value is read back as.
//!
//! The text of a value is read back as a value with the same model,
//! provided that the text says all there is to say of the value: its
//! numbers are written as the tokenizer reads them, and none of its
//! strings holds a quote or a backslash, which the text would not escape.

use crate::grammar::{document, item_tokens, lemma_document_of_tokens, lemma_member_values_index,
    lemma_member_values_len, lemma_values_index, lemma_values_len, member_tokens, member_values,
    values, Doc};
use crate::render::{deeper, digit_char, digits, item_lines, line, member_lines,
    quoted, rendering, separator};
use crate::seqs::{lemma_cons, lemma_regroup};
use crate::text::{all_digits, decimal, digit_value, dots, is_digit, is_number_char,
    is_whitespace};
use crate::token::{lemma_tokens_unfold, number_literal, number_run, numbers_as_read, numeric,
    scan_string, skip_whitespace, tokens, word_false, word_null, word_true, TokenView};
use crate::value::{lemma_member_models_index, lemma_member_models_len, lemma_models_index,
    lemma_models_len, member_models, model, models, Json, Value};
use vstd::prelude::*;

verus! {

/// Every character of the text is whitespace.
pub open spec fn blank(s: Seq<char>) -> bool {
    forall|i: int| 0 <= i < s.len() ==> is_whitespace(#[trigger] s[i])
}

/// The text holds no quote and no backslash.
pub open spec fn plain(s: Seq<char>) -> bool {
    forall|i: int| 0 <= i < s.len() ==> #[trigger] s[i] != '"' && s[i] != '\\'
}

/// The text does not go on with a digit or a dot, so that a number can
/// stand before it.
pub open spec fn ends_number(s: Seq<char>) -> bool {
    s.len() == 0 || !is_number_char(s[0])
}

/// No string of the value, and no key of an object in it, holds a quote
/// or a backslash.
pub open spec fn strings_plain(v: Value) -> bool
    decreases v,
{
    match v {
        Value::JsonString(text) => plain(text@),
        Value::Array(items) => forall|i: int|
            0 <= i < items@.len() ==> strings_plain(#[trigger] items@[i]),
        Value::Object(members) => {
            proof {
                members.lemma_entries_decrease();
            }
            forall|i: int|
                0 <= i < members.entries().len() ==> plain(
                    (#[trigger] members.entries()[i]).0@,
                ) && strings_plain(members.entries()[i].1)
        },
        _ => true,
    }
}

/// The text of the value says all there is to say of it.
pub open spec fn faithful(v: Value) -> bool {
    numbers_as_read(v) && strings_plain(v)
}

/// The documents that the text of a sequence of values writes.
pub open spec fn written_items(items: Seq<Value>) -> Seq<Doc>
    decreases items,
{
    if items.len() == 0 {
        Seq::empty()
    } else {
        seq![written(items[0])] + written_items(items.skip(1))
    }
}

/// The members that the text of an object writes, in the order of its entries.
pub open spec fn written_members(entries: Seq<(String, Value)>) -> Seq<(Seq<char>, Doc)>
    decreases entries,
{
    if entries.len() == 0 {
        Seq::empty()
    } else {
        seq![(entries[0].0@, written(entries[0].1))] + written_members(entries.skip(1))
    }
}

/// The document that the text of a value writes.
pub open spec fn written(v: Value) -> Doc
    decreases v,
{
    match v {
        Value::Array(items) => Doc::Array(written_items(items@)),
        Value::Object(members) => {
            proof {
                members.lemma_entries_decrease();
            }
            Doc::Object(written_members(members.entries()))
        },
        _ => Doc::Literal(model(v)),
    }
}

/// The token that a character of punctuation makes.
pub open spec fn punctuation(c: char) -> Option<TokenView> {
    if c == '{' {
        Some(TokenView::CurlyBracketOpen)
    } else if c == '}' {
        Some(TokenView::CurlyBracketClose)
    } else if c == '[' {
        Some(TokenView::BracketOpen)
    } else if c == ']' {
        Some(TokenView::BracketClose)
    } else if c == ',' {
        Some(TokenView::Comma)
    } else if c == ':' {
        Some(TokenView::Colon)
    } else {
        None
    }
}

/// Skipping whitespace passes over a blank text.
proof fn lemma_skip_blank(ws: Seq<char>, x: Seq<char>)
    requires
        blank(ws),
    ensures
        skip_whitespace(ws + x) == skip_whitespace(x),
    decreases ws.len(),
{
    if ws.len() > 0 {
        assert((ws + x)[0] == ws[0]);
        assert((ws + x).skip(1) =~= ws.skip(1) + x);
        assert(blank(ws.skip(1))) by {
            assert forall|i: int| 0 <= i < ws.skip(1).len() implies is_whitespace(
                #[trigger] ws.skip(1)[i],
            ) by {
                assert(ws.skip(1)[i] == ws[i + 1]);
            }
        }
        lemma_skip_blank(ws.skip(1), x);
    } else {
        assert(ws + x =~= x);
    }
}

/// Whitespace before a text does not change its tokens.
pub proof fn lemma_tokens_blank(ws: Seq<char>, x: Seq<char>)
    requires
        blank(ws),
    ensures
        tokens(ws + x) == tokens(x),
{
    lemma_skip_blank(ws, x);
    lemma_tokens_unfold(ws + x);
    lemma_tokens_unfold(x);
}

/// A character of punctuation is one token.
pub proof fn lemma_tokens_punctuation(c: char, x: Seq<char>)
    requires
        punctuation(c) is Some,
    ensures
        tokens(seq![c] + x) == seq![punctuation(c)->0] + tokens(x),
{
    lemma_cons(c, x);
    lemma_tokens_unfold(seq![c] + x);
}

/// The words `true`, `false` and `null` are one token each.
pub proof fn lemma_tokens_word(x: Seq<char>)
    ensures
        tokens(word_true() + x) == seq![TokenView::Literal(Json::Bool(true))] + tokens(x),
        tokens(word_false() + x) == seq![TokenView::Literal(Json::Bool(false))] + tokens(x),
        tokens(word_null() + x) == seq![TokenView::Literal(Json::Null)] + tokens(x),
{
    assert((word_true() + x).take(4) =~= word_true());
    assert((word_true() + x).skip(4) =~= x);
    assert((word_true() + x)[0] == 't');
    lemma_tokens_unfold(word_true() + x);
    assert((word_false() + x).take(5) =~= word_false());
    assert((word_false() + x).skip(5) =~= x);
    assert((word_false() + x)[0] == 'f');
    lemma_tokens_unfold(word_false() + x);
    assert((word_null() + x).take(4) =~= word_null());
    assert((word_null() + x).skip(4) =~= x);
    assert((word_null() + x)[0] == 'n');
    lemma_tokens_unfold(word_null() + x);
}

/// A run of digits and dots ends where a text follows that does not go
/// on with one.
proof fn lemma_number_run_of(run: Seq<char>, x: Seq<char>)
    requires
        forall|i: int| 0 <= i < run.len() ==> is_number_char(#[trigger] run[i]),
        ends_number(x),
    ensures
        number_run(run + x) == run.len(),
    decreases run.len(),
{
    if run.len() > 0 {
        assert((run + x)[0] == run[0]);
        assert((run + x).skip(1) =~= run.skip(1) + x);
        assert forall|i: int| 0 <= i < run.skip(1).len() implies is_number_char(
            #[trigger] run.skip(1)[i],
        ) by {
            assert(run.skip(1)[i] == run[i + 1]);
        }
        lemma_number_run_of(run.skip(1), x);
    } else {
        assert(run + x =~= x);
    }
}

/// A run of digits and dots before a text that does not go on with one
/// is one token, where the run is a number at all.
pub proof fn lemma_tokens_number(run: Seq<char>, x: Seq<char>, value: Json)
    requires
        numeric(run),
        ends_number(x),
        number_literal(run) == Some(value),
    ensures
        tokens(run + x) == seq![TokenView::Literal(value)] + tokens(x),
{
    let s = run + x;
    lemma_number_run_of(run, x);
    assert(s[0] == run[0]);
    assert(s.take(run.len() as int) =~= run);
    assert(s.skip(run.len() as int) =~= x);
    lemma_tokens_unfold(s);
}

/// A string without quote and backslash is read up to its closing quote.
proof fn lemma_scan_plain(content: Seq<char>, x: Seq<char>)
    requires
        plain(content),
    ensures
        scan_string(content + seq!['"'] + x) == (content, x),
    decreases content.len(),
{
    let s = content + seq!['"'] + x;
    if content.len() == 0 {
        assert(s[0] == '"');
        assert(s.skip(1) =~= x);
        assert(content =~= Seq::empty());
    } else {
        assert(s[0] == content[0]);
        assert(s.skip(1) =~= content.skip(1) + seq!['"'] + x);
        assert(plain(content.skip(1))) by {
            assert forall|i: int| 0 <= i < content.skip(1).len() implies #[trigger] content.skip(
                1,
            )[i] != '"' && content.skip(1)[i] != '\\' by {
                assert(content.skip(1)[i] == content[i + 1]);
            }
        }
        lemma_scan_plain(content.skip(1), x);
        assert(seq![content[0]] + content.skip(1) =~= content);
    }
}

/// A string without quote and backslash, written between quotes, is one token.
pub proof fn lemma_tokens_string(content: Seq<char>, x: Seq<char>)
    requires
        plain(content),
    ensures
        tokens(quoted(content) + x) == seq![TokenView::Literal(Json::Str(content))] + tokens(x),
{
    let s = quoted(content) + x;
    assert(s[0] == '"');
    assert(s.skip(1) =~= content + seq!['"'] + x);
    lemma_scan_plain(content, x);
    lemma_tokens_unfold(s);
}

/// The character for a number below ten is the digit with that value.
proof fn lemma_digit_char(d: int)
    requires
        0 <= d < 10,
    ensures
        is_digit(digit_char(d)),
        digit_value(digit_char(d)) == d,
{
}

/// Digits hold no dot.
proof fn lemma_no_dots(s: Seq<char>)
    requires
        all_digits(s),
    ensures
        dots(s) == 0,
    decreases s.len(),
{
    if s.len() > 0 {
        assert(is_digit(s[s.len() - 1]));
        lemma_no_dots(s.drop_last());
    }
}

/// The digits of a number denote that number.
pub proof fn lemma_digits(n: nat)
    ensures
        digits(n).len() >= 1,
        all_digits(digits(n)),
        decimal(digits(n)) == n,
        dots(digits(n)) == 0,
    decreases n,
{
    if n < 10 {
        lemma_digit_char(n as int);
        let s = digits(n);
        assert(s.drop_last() =~= Seq::<char>::empty());
        assert(decimal(s.drop_last()) == 0);
    } else {
        lemma_digits(n / 10);
        lemma_digit_char((n % 10) as int);
        let s = digits(n);
        assert(s.drop_last() =~= digits(n / 10));
        assert forall|i: int| 0 <= i < s.len() implies is_digit(#[trigger] s[i]) by {
            if i < s.len() - 1 {
                assert(s[i] == digits(n / 10)[i]);
            }
        }
    }
    lemma_no_dots(digits(n));
}

/// The written documents stand at the positions of the values.
pub proof fn lemma_written_items_index(items: Seq<Value>, i: int)
    requires
        0 <= i < items.len(),
    ensures
        written_items(items).len() == items.len(),
        written_items(items)[i] == written(items[i]),
    decreases items.len(),
{
    lemma_written_items_len(items);
    lemma_written_items_len(items.skip(1));
    if i > 0 {
        lemma_written_items_index(items.skip(1), i - 1);
    }
}

/// There are as many written documents as values.
pub proof fn lemma_written_items_len(items: Seq<Value>)
    ensures
        written_items(items).len() == items.len(),
    decreases items.len(),
{
    if items.len() > 0 {
        lemma_written_items_len(items.skip(1));
    }
}

/// The written members stand at the positions of the entries.
pub proof fn lemma_written_members_index(entries: Seq<(String, Value)>, i: int)
    requires
        0 <= i < entries.len(),
    ensures
        written_members(entries).len() == entries.len(),
        written_members(entries)[i] == (entries[i].0@, written(entries[i].1)),
    decreases entries.len(),
{
    lemma_written_members_len(entries);
    lemma_written_members_len(entries.skip(1));
    if i > 0 {
        lemma_written_members_index(entries.skip(1), i - 1);
    }
}

/// There are as many written members as entries.
pub proof fn lemma_written_members_len(entries: Seq<(String, Value)>)
    ensures
        written_members(entries).len() == entries.len(),
    decreases entries.len(),
{
    if entries.len() > 0 {
        lemma_written_members_len(entries.skip(1));
    }
}

/// The document that the text of a value writes has the model of the
/// value as its value.
pub proof fn lemma_written_value(v: Value)
    ensures
        written(v).value() == v@,
    decreases v,
{
    match v {
        Value::Array(items) => {
            let docs = written_items(items@);
            lemma_written_items_len(items@);
            lemma_values_len(docs);
            lemma_models_len(items@);
            assert(values(docs) =~= models(items@)) by {
                assert forall|i: int| 0 <= i < items@.len() implies values(docs)[i] == models(
                    items@,
                )[i] by {
                    lemma_written_items_index(items@, i);
                    lemma_values_index(docs, i);
                    lemma_models_index(items@, i);
                    lemma_written_value(items@[i]);
                }
            }
        },
        Value::Object(members) => {
            let entries = members.entries();
            members.lemma_entries_decrease();
            let docs = written_members(entries);
            lemma_written_members_len(entries);
            lemma_member_values_len(docs);
            lemma_member_models_len(entries);
            assert(member_values(docs) =~= member_models(entries)) by {
                assert forall|i: int| 0 <= i < entries.len() implies member_values(docs)[i]
                    == member_models(entries)[i] by {
                    lemma_written_members_index(entries, i);
                    lemma_member_values_index(docs, i);
                    lemma_member_models_index(entries, i);
                    lemma_written_value(entries[i].1);
                }
            }
        },
        _ => {},
    }
}

/// Line breaks and indentation are blank.
proof fn lemma_line_blank(indent: Seq<char>)
    requires
        blank(indent),
    ensures
        blank(line(indent)),
        blank(deeper(indent)),
        blank(seq![' ']),
        line(indent).len() > 0,
        line(indent)[0] == '\n',
{
    assert forall|i: int| 0 <= i < line(indent).len() implies is_whitespace(
        #[trigger] line(indent)[i],
    ) by {
        if i > 0 {
            assert(line(indent)[i] == indent[i - 1]);
        }
    }
    assert forall|i: int| 0 <= i < deeper(indent).len() implies is_whitespace(
        #[trigger] deeper(indent)[i],
    ) by {
        if i < indent.len() {
            assert(deeper(indent)[i] == indent[i]);
        }
    }
}

/// The tokens of the text of a value are those of the document that the
/// text writes, whatever text follows, as long as it does not go on
/// with a digit or a dot.
pub proof fn lemma_rendering_tokens(v: Value, indent: Seq<char>, tail: Seq<char>)
    requires
        faithful(v),
        blank(indent),
        ends_number(tail),
    ensures
        tokens(rendering(v, indent) + tail) == written(v).tokens() + tokens(tail),
    decreases v,
{
    let after = tokens(tail);
    match v {
        Value::Null => {
            lemma_tokens_word(tail);
        },
        Value::Bool(b) => {
            lemma_tokens_word(tail);
        },
        Value::Int(i) => {
            lemma_digits(i as nat);
            assert(is_digit(digits(i as nat)[0]));
            lemma_tokens_number(digits(i as nat), tail, Json::Int(i as int));
        },
        Value::Float(text) => {
            lemma_tokens_number(text@, tail, Json::Float(text@));
        },
        Value::JsonString(text) => {
            lemma_tokens_string(text@, tail);
        },
        Value::Array(items) => {
            let open = seq![TokenView::BracketOpen];
            let close = seq![TokenView::BracketClose];
            if items@.len() == 0 {
                assert(rendering(v, indent) + tail =~= seq!['['] + (seq![']'] + tail));
                lemma_tokens_punctuation('[', seq![']'] + tail);
                lemma_tokens_punctuation(']', tail);
                assert(open + item_tokens(written_items(items@)) + close =~= open + close);
                lemma_regroup(open, close, after);
            } else {
                lemma_line_blank(indent);
                let inner = deeper(indent);
                let lines = item_lines(items@, inner);
                let closing = line(indent) + (seq![']'] + tail);
                assert(rendering(v, indent) + tail =~= seq!['['] + (lines + closing));
                lemma_tokens_punctuation('[', lines + closing);
                assert(closing[0] == '\n');
                lemma_item_lines_tokens(items@, inner, closing);
                lemma_tokens_blank(line(indent), seq![']'] + tail);
                lemma_tokens_punctuation(']', tail);
                let inside = item_tokens(written_items(items@));
                lemma_regroup(open + inside, close, after);
                lemma_regroup(open, inside, close + after);
            }
        },
        Value::Object(members) => {
            let open = seq![TokenView::CurlyBracketOpen];
            let close = seq![TokenView::CurlyBracketClose];
            let entries = members.entries();
            members.lemma_entries_decrease();
            if entries.len() == 0 {
                assert(rendering(v, indent) + tail =~= seq!['{'] + (seq!['}'] + tail));
                lemma_tokens_punctuation('{', seq!['}'] + tail);
                lemma_tokens_punctuation('}', tail);
                assert(open + member_tokens(written_members(entries)) + close =~= open + close);
                lemma_regroup(open, close, after);
            } else {
                lemma_line_blank(indent);
                let inner = deeper(indent);
                let lines = member_lines(entries, inner);
                let closing = line(indent) + (seq!['}'] + tail);
                assert(rendering(v, indent) + tail =~= seq!['{'] + (lines + closing));
                lemma_tokens_punctuation('{', lines + closing);
                assert(closing[0] == '\n');
                lemma_member_lines_tokens(entries, inner, closing);
                lemma_tokens_blank(line(indent), seq!['}'] + tail);
                lemma_tokens_punctuation('}', tail);
                let inside = member_tokens(written_members(entries));
                lemma_regroup(open + inside, close, after);
                lemma_regroup(open, inside, close + after);
            }
        },
    }
}

/// The tokens of the lines of an array are those of its elements with a
/// comma between each two.
proof fn lemma_item_lines_tokens(items: Seq<Value>, indent: Seq<char>, tail: Seq<char>)
    requires
        forall|i: int| 0 <= i < items.len() ==> faithful(#[trigger] items[i]),
        blank(indent),
        ends_number(tail),
    ensures
        tokens(item_lines(items, indent) + tail) == item_tokens(written_items(items)) + tokens(
            tail,
        ),
    decreases items,
{
    if items.len() == 0 {
        assert(item_lines(items, indent) + tail =~= tail);
        assert(item_tokens(written_items(items)) + tokens(tail) =~= tokens(tail));
    } else {
        lemma_line_blank(indent);
        let more = items.skip(1);
        let first = rendering(items[0], indent);
        let rest_lines = item_lines(more, indent);
        let after = separator(items.len() > 1) + (rest_lines + tail);
        let doc = written(items[0]);
        let docs = written_items(more);
        let comma = seq![TokenView::Comma];
        assert(item_lines(items, indent) + tail =~= line(indent) + (first + after));
        lemma_tokens_blank(line(indent), first + after);
        assert forall|i: int| 0 <= i < more.len() implies faithful(#[trigger] more[i]) by {
            assert(more[i] == items[i + 1]);
        }
        lemma_item_lines_tokens(more, indent, tail);
        lemma_cons(doc, docs);
        lemma_written_items_len(more);
        if items.len() > 1 {
            assert(after =~= seq![','] + (rest_lines + tail));
            lemma_tokens_punctuation(',', rest_lines + tail);
            lemma_rendering_tokens(items[0], indent, after);
            lemma_regroup(comma, item_tokens(docs), tokens(tail));
            lemma_regroup(doc.tokens(), comma, item_tokens(docs) + tokens(tail));
            lemma_regroup(doc.tokens() + comma, item_tokens(docs), tokens(tail));
        } else {
            assert(after =~= tail);
            lemma_rendering_tokens(items[0], indent, after);
        }
    }
}

/// The tokens of the lines of an object are those of its members with a
/// comma between each two.
proof fn lemma_member_lines_tokens(
    entries: Seq<(String, Value)>,
    indent: Seq<char>,
    tail: Seq<char>,
)
    requires
        forall|i: int|
            0 <= i < entries.len() ==> plain((#[trigger] entries[i]).0@) && faithful(
                entries[i].1,
            ),
        blank(indent),
        ends_number(tail),
    ensures
        tokens(member_lines(entries, indent) + tail) == member_tokens(written_members(entries))
            + tokens(tail),
    decreases entries,
{
    if entries.len() == 0 {
        assert(member_lines(entries, indent) + tail =~= tail);
        assert(member_tokens(written_members(entries)) + tokens(tail) =~= tokens(tail));
    } else {
        lemma_line_blank(indent);
        let more = entries.skip(1);
        let key = entries[0].0@;
        let first = rendering(entries[0].1, indent);
        let rest_lines = member_lines(more, indent);
        let after = separator(entries.len() > 1) + (rest_lines + tail);
        let doc = written(entries[0].1);
        let docs = written_members(more);
        let comma = seq![TokenView::Comma];
        let head = seq![TokenView::Literal(Json::Str(key)), TokenView::Colon];
        let value_text = first + after;
        assert(member_lines(entries, indent) + tail =~= line(indent) + (quoted(key) + (seq![':']
            + (seq![' '] + value_text))));
        lemma_tokens_blank(line(indent), quoted(key) + (seq![':'] + (seq![' '] + value_text)));
        lemma_tokens_string(key, seq![':'] + (seq![' '] + value_text));
        lemma_tokens_punctuation(':', seq![' '] + value_text);
        lemma_tokens_blank(seq![' '], value_text);
        assert forall|i: int| 0 <= i < more.len() implies plain((#[trigger] more[i]).0@)
            && faithful(more[i].1) by {
            assert(more[i] == entries[i + 1]);
        }
        lemma_member_lines_tokens(more, indent, tail);
        lemma_cons((key, doc), docs);
        lemma_written_members_len(more);
        assert(seq![TokenView::Literal(Json::Str(key))] + (seq![TokenView::Colon] + tokens(
            value_text,
        )) =~= head + tokens(value_text));
        if entries.len() > 1 {
            assert(after =~= seq![','] + (rest_lines + tail));
            lemma_tokens_punctuation(',', rest_lines + tail);
            lemma_rendering_tokens(entries[0].1, indent, after);
            let pair = head + doc.tokens();
            lemma_regroup(head, doc.tokens(), tokens(after));
            lemma_regroup(comma, member_tokens(docs), tokens(tail));
            lemma_regroup(pair, comma, member_tokens(docs) + tokens(tail));
            lemma_regroup(pair + comma, member_tokens(docs), tokens(tail));
        } else {
            assert(after =~= tail);
            lemma_rendering_tokens(entries[0].1, indent, after);
            lemma_regroup(head, doc.tokens(), tokens(after));
        }
    }
}

/// The text of a value, at any indentation and before any text that
/// does not go on with a digit or a dot, begins with one document, and
/// the value of that document is the model of the value.
pub proof fn lemma_rendering_is_document(v: Value, indent: Seq<char>, tail: Seq<char>)
    requires
        faithful(v),
        blank(indent),
        ends_number(tail),
    ensures
        document(tokens(rendering(v, indent) + tail)) == Some(written(v)),
        written(v).value() == v@,
{
    lemma_rendering_tokens(v, indent, tail);
    lemma_document_of_tokens(written(v), tokens(tail));
    lemma_written_value(v);
}

/// Rendering a value and reading the text again gives a value with the
/// same model: the tokens of the text begin with a document whose value
/// is the model of the value, and `Parser::parse` reads the value of
/// the document that the tokens begin with.
pub proof fn lemma_render_round_trip(v: Value)
    requires
        faithful(v),
    ensures
        document(tokens(rendering(v, Seq::empty()))) matches Some(d) && d.value() == v@,
{
    let text = rendering(v, Seq::empty());
    assert(text + Seq::<char>::empty() =~= text);
    lemma_rendering_is_document(v, Seq::empty(), Seq::empty());
}

} // verus!
