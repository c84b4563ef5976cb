//! Tokens and the tokenizer that cuts them from text.

use crate::text::{all_digits, char_is_digit, char_is_number_char, char_is_whitespace, decimal,
    dots, is_digit, is_number_char, is_whitespace, lemma_decimal_nonnegative};
use crate::value::{Json, Value};
use vstd::prelude::*;

verus! {

/// `String::push` of the standard library: the string afterwards is the
/// string before with the character added at its end.
pub assume_specification[ String::push ](s: &mut String, c: char)
    ensures
        final(s)@ == old(s)@.push(c),
;

/// A lexical unit: a literal that is already a value, or a piece of
/// punctuation.
#[derive(Debug)]
pub enum Token {
    Value(Value),
    CurlyBracketOpen,
    CurlyBracketClose,
    BracketOpen,
    BracketClose,
    Comma,
    Colon,
}

/// The model of a token: its literal stands as the model of the value.
pub enum TokenView {
    Literal(Json),
    CurlyBracketOpen,
    CurlyBracketClose,
    BracketOpen,
    BracketClose,
    Comma,
    Colon,
}

impl View for Token {
    type V = TokenView;

    /// The model of the token.
    open spec fn view(&self) -> TokenView {
        match *self {
            Token::Value(v) => TokenView::Literal(v@),
            Token::CurlyBracketOpen => TokenView::CurlyBracketOpen,
            Token::CurlyBracketClose => TokenView::CurlyBracketClose,
            Token::BracketOpen => TokenView::BracketOpen,
            Token::BracketClose => TokenView::BracketClose,
            Token::Comma => TokenView::Comma,
            Token::Colon => TokenView::Colon,
        }
    }
}

/// The text without its leading whitespace.
pub open spec fn skip_whitespace(s: Seq<char>) -> Seq<char>
    decreases s.len(),
{
    if s.len() > 0 && is_whitespace(s[0]) {
        skip_whitespace(s.skip(1))
    } else {
        s
    }
}

/// Reads a string literal whose opening quote has been taken: the
/// characters up to the first quote that no backslash precedes, and the
/// text after that quote. A backslash is dropped and the character after
/// it is taken as it is, whatever it is. A string that the text does not
/// close ends with the text.
pub open spec fn scan_string(s: Seq<char>) -> (Seq<char>, Seq<char>)
    decreases s.len(),
{
    if s.len() == 0 {
        (Seq::empty(), s)
    } else if s[0] == '"' {
        (Seq::empty(), s.skip(1))
    } else if s[0] == '\\' {
        if s.len() == 1 {
            (Seq::empty(), s.skip(1))
        } else {
            let tail = scan_string(s.skip(2));
            (seq![s[1]] + tail.0, tail.1)
        }
    } else {
        let tail = scan_string(s.skip(1));
        (seq![s[0]] + tail.0, tail.1)
    }
}

/// The length of the longest run of digits and dots at the start of the text.
pub open spec fn number_run(s: Seq<char>) -> nat
    decreases s.len(),
{
    if s.len() > 0 && is_number_char(s[0]) {
        1 + number_run(s.skip(1))
    } else {
        0
    }
}

/// The value of a run of digits and dots: an integer where the run holds
/// digits only and denotes a number up to `i32::MAX`; otherwise a float,
/// kept as the run itself, where the run holds at most one dot; otherwise
/// nothing.
pub open spec fn number_literal(run: Seq<char>) -> Option<Json> {
    if dots(run) == 0 && decimal(run) <= i32::MAX {
        Some(Json::Int(decimal(run)))
    } else if dots(run) <= 1 {
        Some(Json::Float(run))
    } else {
        None
    }
}

/// The text is a run of digits and dots that begins with a digit.
pub open spec fn numeric(s: Seq<char>) -> bool {
    &&& s.len() > 0
    &&& is_digit(s[0])
    &&& forall|i: int| 0 <= i < s.len() ==> is_number_char(#[trigger] s[i])
}

/// The literal is one that the tokenizer makes: a string, a boolean,
/// null, an integer from zero to `i32::MAX`, or a float that is a run of
/// digits and dots which is read as this float.
pub open spec fn literal_as_read(value: Json) -> bool {
    match value {
        Json::Int(n) => 0 <= n <= i32::MAX,
        Json::Float(run) => numeric(run) && number_literal(run) == Some(Json::Float(run)),
        Json::Array(_) => false,
        Json::Object(_) => false,
        _ => true,
    }
}

/// Every literal among the tokens is one that the tokenizer makes.
pub open spec fn literals_as_read(ts: Seq<TokenView>) -> bool {
    forall|i: int|
        0 <= i < ts.len() ==> ((#[trigger] ts[i]) matches TokenView::Literal(value)
            ==> literal_as_read(value))
}

/// The numbers of the value are as the tokenizer makes them: no integer
/// is negative, and every float is a run of digits and dots that is
/// read as this float.
pub open spec fn numbers_as_read(v: Value) -> bool
    decreases v,
{
    match v {
        Value::Int(i) => i >= 0,
        Value::Float(text) => numeric(text@) && number_literal(text@) == Some(Json::Float(text@)),
        Value::Array(items) => forall|i: int|
            0 <= i < items@.len() ==> numbers_as_read(#[trigger] items@[i]),
        Value::Object(members) => {
            proof {
                members.lemma_entries_decrease();
            }
            forall|i: int|
                0 <= i < members.entries().len() ==> numbers_as_read(
                    (#[trigger] members.entries()[i]).1,
                )
        },
        _ => true,
    }
}

/// The characters of the literal `true`.
pub open spec fn word_true() -> Seq<char> {
    seq!['t', 'r', 'u', 'e']
}

/// The characters of the literal `false`.
pub open spec fn word_false() -> Seq<char> {
    seq!['f', 'a', 'l', 's', 'e']
}

/// The characters of the literal `null`.
pub open spec fn word_null() -> Seq<char> {
    seq!['n', 'u', 'l', 'l']
}

/// The text begins with the word.
pub open spec fn starts_with(s: Seq<char>, word: Seq<char>) -> bool {
    word.len() <= s.len() && s.take(word.len() as int) == word
}

/// The literal that a word spells, where the text begins with that word.
pub open spec fn lex_word(s: Seq<char>, word: Seq<char>, value: Json) -> Option<
    (TokenView, Seq<char>),
> {
    if starts_with(s, word) {
        Some((TokenView::Literal(value), s.skip(word.len() as int)))
    } else {
        None
    }
}

/// The token at the very start of the text, and the text after it.
pub open spec fn lex_token(s: Seq<char>) -> Option<(TokenView, Seq<char>)> {
    if s.len() == 0 {
        None
    } else if s[0] == '{' {
        Some((TokenView::CurlyBracketOpen, s.skip(1)))
    } else if s[0] == '}' {
        Some((TokenView::CurlyBracketClose, s.skip(1)))
    } else if s[0] == '[' {
        Some((TokenView::BracketOpen, s.skip(1)))
    } else if s[0] == ']' {
        Some((TokenView::BracketClose, s.skip(1)))
    } else if s[0] == ',' {
        Some((TokenView::Comma, s.skip(1)))
    } else if s[0] == ':' {
        Some((TokenView::Colon, s.skip(1)))
    } else if s[0] == '"' {
        let scan = scan_string(s.skip(1));
        Some((TokenView::Literal(Json::Str(scan.0)), scan.1))
    } else if s[0] == 't' {
        lex_word(s, word_true(), Json::Bool(true))
    } else if s[0] == 'f' {
        lex_word(s, word_false(), Json::Bool(false))
    } else if s[0] == 'n' {
        lex_word(s, word_null(), Json::Null)
    } else if is_digit(s[0]) {
        let n = number_run(s) as int;
        match number_literal(s.take(n)) {
            Some(value) => Some((TokenView::Literal(value), s.skip(n))),
            None => None,
        }
    } else {
        None
    }
}

/// The first token of the text, after any whitespace, and the text after
/// it; `None` where the text holds no further token or does not go on
/// with one.
pub open spec fn lex(s: Seq<char>) -> Option<(TokenView, Seq<char>)> {
    lex_token(skip_whitespace(s))
}

/// The tokens of a text, up to its end or to the first place where it
/// does not go on with a token.
pub open spec fn tokens(s: Seq<char>) -> Seq<TokenView>
    decreases s.len(),
{
    match lex(s) {
        Some((token, rest)) => {
            proof {
                lemma_lex_consumes(s);
            }
            seq![token] + tokens(rest)
        },
        None => Seq::empty(),
    }
}

/// Skipping whitespace does not make a text longer.
pub proof fn lemma_skip_whitespace_shorter(s: Seq<char>)
    ensures
        skip_whitespace(s).len() <= s.len(),
    decreases s.len(),
{
    if s.len() > 0 && is_whitespace(s[0]) {
        lemma_skip_whitespace_shorter(s.skip(1));
    }
}

/// What follows a string is no longer than the text that the string was
/// read from.
pub proof fn lemma_scan_string_shorter(s: Seq<char>)
    ensures
        scan_string(s).1.len() <= s.len(),
    decreases s.len(),
{
    if s.len() == 0 {
    } else if s[0] == '"' {
    } else if s[0] == '\\' {
        if s.len() > 1 {
            lemma_scan_string_shorter(s.skip(2));
        }
    } else {
        lemma_scan_string_shorter(s.skip(1));
    }
}

/// The run of digits and dots at the start of a text lies within the
/// text, holds only digits and dots, and ends before a character that
/// is neither.
pub proof fn lemma_number_run_bounds(s: Seq<char>)
    ensures
        number_run(s) <= s.len(),
        s.len() > 0 && is_number_char(s[0]) ==> number_run(s) >= 1,
        forall|i: int| 0 <= i < number_run(s) ==> is_number_char(#[trigger] s[i]),
        number_run(s) < s.len() ==> !is_number_char(s[number_run(s) as int]),
    decreases s.len(),
{
    if s.len() > 0 && is_number_char(s[0]) {
        let t = s.skip(1);
        lemma_number_run_bounds(t);
        assert forall|i: int| 0 <= i < number_run(s) implies is_number_char(#[trigger] s[i]) by {
            if i > 0 {
                assert(s[i] == t[i - 1]);
            }
        }
        if number_run(s) < s.len() {
            assert(s[number_run(s) as int] == t[number_run(t) as int]);
        }
    }
}

/// Every token takes at least one character of the text.
pub proof fn lemma_lex_consumes(s: Seq<char>)
    ensures
        lex(s) matches Some((token, rest)) ==> rest.len() < s.len(),
{
    lemma_skip_whitespace_shorter(s);
    let t = skip_whitespace(s);
    if t.len() > 0 {
        lemma_scan_string_shorter(t.skip(1));
        lemma_number_run_bounds(t);
    }
}

/// A run of digits and dots without a dot holds digits only.
proof fn lemma_digits_without_dots(s: Seq<char>)
    requires
        forall|i: int| 0 <= i < s.len() ==> is_number_char(#[trigger] s[i]),
        dots(s) == 0,
    ensures
        all_digits(s),
    decreases s.len(),
{
    if s.len() > 0 {
        let init = s.drop_last();
        assert forall|i: int| 0 <= i < init.len() implies is_number_char(#[trigger] init[i]) by {
            assert(init[i] == s[i]);
        }
        lemma_digits_without_dots(init);
        assert forall|i: int| 0 <= i < s.len() implies is_digit(#[trigger] s[i]) by {
            if i < init.len() {
                assert(s[i] == init[i]);
            } else {
                assert(is_number_char(s[i]));
            }
        }
    }
}

/// A literal that is read from a text is one that the tokenizer makes.
pub proof fn lemma_lex_as_read(s: Seq<char>)
    ensures
        lex(s) matches Some((TokenView::Literal(value), rest)) ==> literal_as_read(value),
{
    let t = skip_whitespace(s);
    if t.len() > 0 && is_digit(t[0]) {
        lemma_number_run_bounds(t);
        let run = t.take(number_run(t) as int);
        if dots(run) == 0 {
            lemma_digits_without_dots(run);
            lemma_decimal_nonnegative(run);
        }
    }
}

/// Every literal among the tokens of a text is one that the tokenizer makes.
pub proof fn lemma_tokens_as_read(s: Seq<char>)
    ensures
        literals_as_read(tokens(s)),
    decreases s.len(),
{
    lemma_tokens_unfold(s);
    lemma_lex_consumes(s);
    lemma_lex_as_read(s);
    if let Some((token, rest)) = lex(s) {
        lemma_tokens_as_read(rest);
        let ts = tokens(s);
        assert forall|i: int| 0 <= i < ts.len() implies ((#[trigger] ts[i]) matches TokenView::Literal(
            value,
        ) ==> literal_as_read(value)) by {
            if i > 0 {
                assert(ts[i] == tokens(rest)[i - 1]);
            }
        }
    }
}

/// A value whose model is a literal that the tokenizer makes has its
/// numbers as the tokenizer makes them.
pub proof fn lemma_literal_value_as_read(v: Value)
    requires
        literal_as_read(v@),
    ensures
        numbers_as_read(v),
{
}

/// The tokens of a text are its first token and the tokens of what follows.
pub proof fn lemma_tokens_unfold(s: Seq<char>)
    ensures
        tokens(s) == match lex(s) {
            Some((token, rest)) => seq![token] + tokens(rest),
            None => Seq::empty(),
        },
{
    lemma_lex_consumes(s);
}

/// Cuts a text into tokens, one at each call.
pub struct Tokenizer {
    chars: Vec<char>,
    pos: usize,
}

impl View for Tokenizer {
    type V = Seq<char>;

    /// The text that has not been read yet.
    closed spec fn view(&self) -> Seq<char> {
        self.chars@.skip(self.pos as int)
    }
}

impl Tokenizer {
    /// The position lies within the text or at its end.
    #[verifier::type_invariant]
    spec fn position_in_text(self) -> bool {
        self.pos <= self.chars.len()
    }

    /// A tokenizer at the start of a text.
    pub fn new(to_parse: &str) -> (t: Tokenizer)
        ensures
            t@ == to_parse@,
    {
        let mut chars: Vec<char> = Vec::new();
        for c in it: to_parse.chars()
            invariant
                chars@ == it.seq().take(it.index() as int),
                it.seq() == to_parse@,
        {
            chars.push(c);
        }
        assert(chars@.skip(0) =~= chars@);
        Tokenizer { chars, pos: 0 }
    }

    /// Gives up: what is left of the text is dropped, so that no further
    /// token comes.
    fn fail(&mut self) -> (r: Option<Token>)
        ensures
            r is None,
            final(self)@ == Seq::<char>::empty(),
    {
        self.pos = self.chars.len();
        assert(self.chars@.skip(self.pos as int) =~= Seq::<char>::empty());
        None
    }

    /// Takes one character of punctuation.
    fn punctuation(&mut self, token: Token) -> (r: Option<Token>)
        requires
            old(self)@.len() > 0,
        ensures
            r == Some(token),
            final(self)@ == old(self)@.skip(1),
    {
        proof {
            use_type_invariant(&*self);
        }
        assert(self.chars@.skip(self.pos as int).skip(1) =~= self.chars@.skip(self.pos + 1));
        self.pos = self.pos + 1;
        Some(token)
    }

    /// The next token of the text. Once the text has ended, or does not
    /// go on with a token, this and every later call answer `None`.
    pub fn next_token(&mut self) -> (r: Option<Token>)
        ensures
            match lex(old(self)@) {
                Some((token, rest)) => r is Some && r->0@ == token && final(self)@ == rest,
                None => r is None && final(self)@ == Seq::<char>::empty(),
            },
            r matches Some(Token::Value(value)) ==> numbers_as_read(value),
    {
        proof {
            use_type_invariant(&*self);
            lemma_lex_as_read(self@);
        }
        while self.pos < self.chars.len() && char_is_whitespace(self.chars[self.pos])
            invariant
                self.pos <= self.chars@.len(),
                self.chars == old(self).chars,
                skip_whitespace(self.chars@.skip(self.pos as int)) == skip_whitespace(old(self)@),
            decreases self.chars@.len() - self.pos,
        {
            assert(self.chars@.skip(self.pos as int).skip(1) =~= self.chars@.skip(self.pos + 1));
            self.pos = self.pos + 1;
        }
        if self.pos >= self.chars.len() {
            return self.fail();
        }
        let c = self.chars[self.pos];
        if c == '{' {
            self.punctuation(Token::CurlyBracketOpen)
        } else if c == '}' {
            self.punctuation(Token::CurlyBracketClose)
        } else if c == '[' {
            self.punctuation(Token::BracketOpen)
        } else if c == ']' {
            self.punctuation(Token::BracketClose)
        } else if c == ',' {
            self.punctuation(Token::Comma)
        } else if c == ':' {
            self.punctuation(Token::Colon)
        } else if c == '"' {
            self.next_string()
        } else if c == 't' {
            self.next_true()
        } else if c == 'f' {
            self.next_false()
        } else if c == 'n' {
            self.next_null()
        } else if char_is_digit(c) {
            self.next_number()
        } else {
            self.fail()
        }
    }

    /// Reads a numeric literal: the longest run of digits and dots.
    fn next_number(&mut self) -> (r: Option<Token>)
        requires
            old(self)@.len() > 0,
            is_digit(old(self)@[0]),
        ensures
            match number_literal(old(self)@.take(number_run(old(self)@) as int)) {
                Some(value) => r is Some && r->0@ == TokenView::Literal(value) && final(self)@
                    == old(self)@.skip(number_run(old(self)@) as int),
                None => r is None && final(self)@ == Seq::<char>::empty(),
            },
    {
        proof {
            use_type_invariant(&*self);
        }
        let start = self.pos;
        let ghost text = self@;
        let mut run = String::new();
        let mut value: i32 = 0;
        let mut fits = true;
        let mut dot_count: usize = 0;
        while self.pos < self.chars.len() && char_is_number_char(self.chars[self.pos])
            invariant
                start <= self.pos <= self.chars@.len(),
                self.chars == old(self).chars,
                text == self.chars@.skip(start as int),
                run@ == text.take(self.pos - start),
                number_run(text) == (self.pos - start) + number_run(
                    self.chars@.skip(self.pos as int),
                ),
                dot_count == dots(run@),
                dot_count <= self.pos - start,
                dot_count == 0 ==> all_digits(run@),
                fits && dot_count == 0 ==> value == decimal(run@),
                0 <= value,
                !fits && dot_count == 0 ==> decimal(run@) > i32::MAX,
            decreases self.chars@.len() - self.pos,
        {
            let c = self.chars[self.pos];
            proof {
                let cur = self.chars@.skip(self.pos as int);
                assert(cur.skip(1) =~= self.chars@.skip(self.pos + 1));
                assert(text.take(self.pos + 1 - start) =~= run@.push(c));
                assert(run@.push(c).drop_last() =~= run@);
                if dot_count == 0 {
                    lemma_decimal_nonnegative(run@);
                }
            }
            if c == '.' {
                dot_count = dot_count + 1;
            } else if fits {
                let digit = (c as u32 - '0' as u32) as i32;
                if value <= (i32::MAX - digit) / 10 {
                    value = value * 10 + digit;
                } else {
                    fits = false;
                }
            }
            run.push(c);
            self.pos = self.pos + 1;
        }
        proof {
            lemma_number_run_bounds(self.chars@.skip(self.pos as int));
            assert(self.chars@.skip(start as int).skip(self.pos - start) =~= self.chars@.skip(
                self.pos as int,
            ));
        }
        if dot_count == 0 && fits {
            Some(Token::Value(Value::Int(value)))
        } else if dot_count <= 1 {
            Some(Token::Value(Value::Float(run)))
        } else {
            self.fail()
        }
    }

    /// Reads a literal that must spell the given word.
    fn next_word<const N: usize>(&mut self, word: [char; N], value: Value) -> (r: Option<Token>)
        ensures
            match lex_word(old(self)@, word@, value@) {
                Some((token, rest)) => r is Some && r->0@ == token && final(self)@ == rest,
                None => r is None && final(self)@ == Seq::<char>::empty(),
            },
    {
        proof {
            use_type_invariant(&*self);
        }
        let ghost text = self@;
        if N > self.chars.len() - self.pos {
            return self.fail();
        }
        let mut i: usize = 0;
        while i < N
            invariant
                i <= N,
                N <= self.chars.len() - self.pos,
                self.pos <= self.chars.len(),
                *self == *old(self),
                text == self.chars@.skip(self.pos as int),
                text.take(i as int) == word@.take(i as int),
            decreases N - i,
        {
            if self.chars[self.pos + i] != word[i] {
                proof {
                    assert(text.take(N as int)[i as int] != word@[i as int]);
                }
                return self.fail();
            }
            proof {
                assert(text.take(i + 1) =~= text.take(i as int).push(text[i as int]));
                assert(word@.take(i + 1) =~= word@.take(i as int).push(word@[i as int]));
            }
            i = i + 1;
        }
        proof {
            assert(word@.take(N as int) =~= word@);
            assert(text.skip(N as int) =~= self.chars@.skip(self.pos + N));
        }
        self.pos = self.pos + N;
        Some(Token::Value(value))
    }

    /// Reads the literal `true`.
    fn next_true(&mut self) -> (r: Option<Token>)
        ensures
            match lex_word(old(self)@, word_true(), Json::Bool(true)) {
                Some((token, rest)) => r is Some && r->0@ == token && final(self)@ == rest,
                None => r is None && final(self)@ == Seq::<char>::empty(),
            },
    {
        let word = ['t', 'r', 'u', 'e'];
        assert(word@ =~= word_true());
        self.next_word(word, Value::Bool(true))
    }

    /// Reads the literal `false`.
    fn next_false(&mut self) -> (r: Option<Token>)
        ensures
            match lex_word(old(self)@, word_false(), Json::Bool(false)) {
                Some((token, rest)) => r is Some && r->0@ == token && final(self)@ == rest,
                None => r is None && final(self)@ == Seq::<char>::empty(),
            },
    {
        let word = ['f', 'a', 'l', 's', 'e'];
        assert(word@ =~= word_false());
        self.next_word(word, Value::Bool(false))
    }

    /// Reads the literal `null`.
    fn next_null(&mut self) -> (r: Option<Token>)
        ensures
            match lex_word(old(self)@, word_null(), Json::Null) {
                Some((token, rest)) => r is Some && r->0@ == token && final(self)@ == rest,
                None => r is None && final(self)@ == Seq::<char>::empty(),
            },
    {
        let word = ['n', 'u', 'l', 'l'];
        assert(word@ =~= word_null());
        self.next_word(word, Value::Null)
    }

    /// Reads a string literal, starting at its opening quote.
    fn next_string(&mut self) -> (r: Option<Token>)
        requires
            old(self)@.len() > 0,
        ensures
            r is Some,
            r->0@ == TokenView::Literal(Json::Str(scan_string(old(self)@.skip(1)).0)),
            final(self)@ == scan_string(old(self)@.skip(1)).1,
    {
        proof {
            use_type_invariant(&*self);
            assert(self.chars@.skip(self.pos as int).skip(1) =~= self.chars@.skip(self.pos + 1));
        }
        let ghost text = self@.skip(1);
        self.pos = self.pos + 1;
        let mut found = String::new();
        let mut open = true;
        while open && self.pos < self.chars.len()
            invariant
                self.pos <= self.chars@.len(),
                self.chars == old(self).chars,
                open ==> scan_string(text).0 == found@ + scan_string(
                    self.chars@.skip(self.pos as int),
                ).0,
                open ==> scan_string(text).1 == scan_string(self.chars@.skip(self.pos as int)).1,
                !open ==> scan_string(text).0 == found@,
                !open ==> scan_string(text).1 == self.chars@.skip(self.pos as int),
            decreases self.chars@.len() - self.pos + if open { 1int } else { 0int },
        {
            let c = self.chars[self.pos];
            let ghost cur = self.chars@.skip(self.pos as int);
            proof {
                assert(cur.skip(1) =~= self.chars@.skip(self.pos + 1));
            }
            if c == '\\' {
                if self.pos + 1 < self.chars.len() {
                    let escaped = self.chars[self.pos + 1];
                    proof {
                        assert(cur.skip(2) =~= self.chars@.skip(self.pos + 2));
                        assert(found@ + (seq![escaped] + scan_string(cur.skip(2)).0) =~= found@.push(
                            escaped,
                        ) + scan_string(cur.skip(2)).0);
                    }
                    found.push(escaped);
                    self.pos = self.pos + 2;
                } else {
                    proof {
                        assert(found@ + Seq::<char>::empty() =~= found@);
                    }
                    self.pos = self.pos + 1;
                    open = false;
                }
            } else if c == '"' {
                proof {
                    assert(found@ + Seq::<char>::empty() =~= found@);
                }
                self.pos = self.pos + 1;
                open = false;
            } else {
                proof {
                    assert(found@ + (seq![c] + scan_string(cur.skip(1)).0) =~= found@.push(c)
                        + scan_string(cur.skip(1)).0);
                }
                found.push(c);
                self.pos = self.pos + 1;
            }
        }
        proof {
            if open {
                assert(found@ + Seq::<char>::empty() =~= found@);
            }
        }
        Some(Token::Value(Value::JsonString(found)))
    }
}

} // verus!
