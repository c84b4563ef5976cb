//! Values as text: scalars as their literals, arrays and objects with
//! one element or member on each line, indented by four spaces for each
//! level of nesting.

use crate::value::Value;
use vstd::prelude::*;
use vstd::string::StringExecFns;

verus! {

/// The digit that stands for a number below ten.
pub open spec fn digit_char(d: int) -> char {
    (d + '0' as int) as char
}

/// The decimal digits of a number, without leading zeros.
pub open spec fn digits(n: nat) -> Seq<char>
    decreases n,
{
    if n < 10 {
        seq![digit_char(n as int)]
    } else {
        digits(n / 10).push(digit_char((n % 10) as int))
    }
}

/// An integer in decimal notation, with a minus sign where it is negative.
pub open spec fn integer_text(i: int) -> Seq<char> {
    if i < 0 {
        seq!['-'] + digits((-i) as nat)
    } else {
        digits(i as nat)
    }
}

/// A string between double quotes. Its characters stand as they are:
/// a quote or a backslash in it is not escaped.
pub open spec fn quoted(text: Seq<char>) -> Seq<char> {
    seq!['"'] + text + seq!['"']
}

/// A line break and the indentation of the line that follows.
pub open spec fn line(indent: Seq<char>) -> Seq<char> {
    seq!['\n'] + indent
}

/// The indentation one level further in.
pub open spec fn deeper(indent: Seq<char>) -> Seq<char> {
    indent + seq![' ', ' ', ' ', ' ']
}

/// The comma after an element that is not the last one.
pub open spec fn separator(more: bool) -> Seq<char> {
    if more {
        seq![',']
    } else {
        Seq::empty()
    }
}

/// The elements of an array, each on a line of its own.
pub open spec fn item_lines(items: Seq<Value>, indent: Seq<char>) -> Seq<char>
    decreases items,
{
    if items.len() == 0 {
        Seq::empty()
    } else {
        line(indent) + rendering(items[0], indent) + separator(items.len() > 1) + item_lines(
            items.skip(1),
            indent,
        )
    }
}

/// The members of an object, each on a line of its own, as the key, a
/// colon, a space and the value.
pub open spec fn member_lines(entries: Seq<(String, Value)>, indent: Seq<char>) -> Seq<char>
    decreases entries,
{
    if entries.len() == 0 {
        Seq::empty()
    } else {
        line(indent) + quoted(entries[0].0@) + seq![':', ' '] + rendering(entries[0].1, indent)
            + separator(entries.len() > 1) + member_lines(entries.skip(1), indent)
    }
}

/// The text of a value that stands at the given indentation.
pub open spec fn rendering(v: Value, indent: Seq<char>) -> Seq<char>
    decreases v,
{
    match v {
        Value::Null => seq!['n', 'u', 'l', 'l'],
        Value::Bool(b) => if b {
            seq!['t', 'r', 'u', 'e']
        } else {
            seq!['f', 'a', 'l', 's', 'e']
        },
        Value::Int(i) => integer_text(i as int),
        Value::Float(text) => text@,
        Value::JsonString(text) => quoted(text@),
        Value::Array(items) => if items@.len() == 0 {
            seq!['[', ']']
        } else {
            seq!['['] + item_lines(items@, deeper(indent)) + line(indent) + seq![']']
        },
        Value::Object(members) => {
            proof {
                members.lemma_entries_decrease();
            }
            if members.entries().len() == 0 {
                seq!['{', '}']
            } else {
                seq!['{'] + member_lines(members.entries(), deeper(indent)) + line(indent)
                    + seq!['}']
            }
        },
    }
}

/// Writes the decimal digits of a number.
fn push_digits(out: &mut String, n: u32)
    ensures
        final(out)@ == old(out)@ + digits(n as nat),
    decreases n,
{
    if n >= 10 {
        push_digits(out, n / 10);
    }
    let digit = ((n % 10) as u8 + 48) as char;
    assert(digit == digit_char((n % 10) as int));
    out.push(digit);
    proof {
        if n >= 10 {
            assert(old(out)@ + digits((n / 10) as nat) + seq![digit] =~= old(out)@ + digits(
                n as nat,
            ));
            assert(final(out)@ =~= old(out)@ + digits(n as nat));
        } else {
            assert(final(out)@ =~= old(out)@ + digits(n as nat));
        }
    }
}

/// Writes an integer in decimal notation.
fn push_integer(out: &mut String, i: i32)
    ensures
        final(out)@ == old(out)@ + integer_text(i as int),
{
    if i < 0 {
        out.push('-');
        let magnitude: u32 = if i == i32::MIN {
            2147483648u32
        } else {
            (-i) as u32
        };
        let ghost mid = out@;
        push_digits(out, magnitude);
        assert(out@ =~= old(out)@ + (seq!['-'] + digits((-i) as nat)));
    } else {
        push_digits(out, i as u32);
    }
}

/// Writes a line break and the indentation of the next line.
fn push_line(out: &mut String, indent: &String)
    ensures
        final(out)@ == old(out)@ + line(indent@),
{
    out.push('\n');
    out.append(indent.as_str());
    assert(out@ =~= old(out)@ + line(indent@));
}

/// Writes a string between double quotes.
fn push_quoted(out: &mut String, text: &String)
    ensures
        final(out)@ == old(out)@ + quoted(text@),
{
    out.push('"');
    out.append(text.as_str());
    out.push('"');
    assert(out@ =~= old(out)@ + quoted(text@));
}

/// The indentation one level further in.
fn indent_deeper(indent: &String) -> (inner: String)
    ensures
        inner@ == deeper(indent@),
{
    let mut inner = indent.clone();
    inner.push(' ');
    inner.push(' ');
    inner.push(' ');
    inner.push(' ');
    assert(inner@ =~= deeper(indent@));
    inner
}

impl Value {
    /// The value as text.
    pub fn render(&self) -> (text: String)
        ensures
            text@ == rendering(*self, Seq::empty()),
    {
        let mut out = String::new();
        let indent = String::new();
        self.render_into(&indent, &mut out);
        assert(out@ =~= rendering(*self, Seq::empty()));
        out
    }

    /// Writes the value, which stands at the given indentation, at the
    /// end of the text.
    fn render_into(&self, indent: &String, out: &mut String)
        ensures
            final(out)@ == old(out)@ + rendering(*self, indent@),
        decreases self,
    {
        match self {
            Value::Null => {
                out.push('n');
                out.push('u');
                out.push('l');
                out.push('l');
                assert(out@ =~= old(out)@ + rendering(*self, indent@));
            },
            Value::Bool(b) => {
                if *b {
                    out.push('t');
                    out.push('r');
                    out.push('u');
                    out.push('e');
                } else {
                    out.push('f');
                    out.push('a');
                    out.push('l');
                    out.push('s');
                    out.push('e');
                }
                assert(out@ =~= old(out)@ + rendering(*self, indent@));
            },
            Value::Int(i) => {
                push_integer(out, *i);
            },
            Value::Float(text) => {
                out.append(text.as_str());
            },
            Value::JsonString(text) => {
                push_quoted(out, text);
            },
            Value::Array(items) => {
                out.push('[');
                if items.len() > 0 {
                    let inner = indent_deeper(indent);
                    let ghost start = out@;
                    let mut i: usize = 0;
                    assert(items@.skip(0) =~= items@);
                    while i < items.len()
                        invariant
                            *self == Value::Array(*items),
                            i <= items.len(),
                            inner@ == deeper(indent@),
                            out@ + item_lines(items@.skip(i as int), inner@) == start + item_lines(
                                items@,
                                inner@,
                            ),
                        decreases items.len() - i,
                    {
                        let ghost before = out@;
                        let ghost rest = items@.skip(i as int);
                        proof {
                            assert(decreases_to!(self->Array_0 => self->Array_0@));
                            assert(decreases_to!(self->Array_0@ => self->Array_0@[i as int]));
                            assert(rest.skip(1) =~= items@.skip(i + 1));
                        }
                        push_line(out, &inner);
                        items[i].render_into(&inner, out);
                        if i + 1 < items.len() {
                            out.push(',');
                        }
                        proof {
                            let tail = item_lines(rest.skip(1), inner@);
                            assert(out@ =~= before + (line(inner@) + rendering(rest[0], inner@)
                                + separator(rest.len() > 1)));
                            assert(out@ + tail =~= before + item_lines(rest, inner@));
                        }
                        i = i + 1;
                    }
                    proof {
                        assert(out@ + Seq::<char>::empty() =~= out@);
                    }
                    let ghost lines = out@;
                    push_line(out, indent);
                    proof {
                        assert(lines + line(indent@) =~= old(out)@ + (seq!['['] + item_lines(
                            items@,
                            inner@,
                        ) + line(indent@)));
                    }
                }
                out.push(']');
                assert(out@ =~= old(out)@ + rendering(*self, indent@));
            },
            Value::Object(members) => {
                out.push('{');
                let count = members.len();
                if count > 0 {
                    let inner = indent_deeper(indent);
                    let ghost start = out@;
                    let ghost entries = members.entries();
                    let mut i: usize = 0;
                    assert(entries.skip(0) =~= entries);
                    while i < count
                        invariant
                            *self == Value::Object(*members),
                            entries == members.entries(),
                            count == entries.len(),
                            i <= count,
                            inner@ == deeper(indent@),
                            out@ + member_lines(entries.skip(i as int), inner@) == start
                                + member_lines(entries, inner@),
                        decreases count - i,
                    {
                        let ghost before = out@;
                        let ghost rest = entries.skip(i as int);
                        proof {
                            assert(rest.skip(1) =~= entries.skip(i + 1));
                        }
                        let (key, value) = members.entry(i);
                        proof {
                            assert(decreases_to!(*self => self->Object_0));
                        }
                        push_line(out, &inner);
                        push_quoted(out, key);
                        out.push(':');
                        out.push(' ');
                        value.render_into(&inner, out);
                        if i + 1 < count {
                            out.push(',');
                        }
                        proof {
                            let tail = member_lines(rest.skip(1), inner@);
                            assert(out@ =~= before + (line(inner@) + quoted(rest[0].0@) + seq![
                                ':',
                                ' ',
                            ] + rendering(rest[0].1, inner@) + separator(rest.len() > 1)));
                            assert(out@ + tail =~= before + member_lines(rest, inner@));
                        }
                        i = i + 1;
                    }
                    proof {
                        assert(out@ + Seq::<char>::empty() =~= out@);
                    }
                    let ghost lines = out@;
                    push_line(out, indent);
                    proof {
                        assert(lines + line(indent@) =~= old(out)@ + (seq!['{'] + member_lines(
                            entries,
                            inner@,
                        ) + line(indent@)));
                    }
                }
                out.push('}');
                assert(out@ =~= old(out)@ + rendering(*self, indent@));
            },
        }
    }
}

} // verus!
