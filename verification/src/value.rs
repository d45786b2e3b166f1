//! Levels, typed field values and the text escaping of the `RLOG/1` format.
use vstd::prelude::*;
use crate::text::{
    byte_len, decimal, hexadecimal, push_char, push_decimal, push_hex, push_signed_decimal,
    push_str, signed_decimal, to_chars,
};

verus! {

/// Ascending severity. Events below the instance threshold are filtered.
#[derive(Clone, Copy, Debug, PartialEq, Eq, Structural)]
pub enum Level {
    Trace,
    Debug,
    Info,
    Warn,
    Error,
}

impl Level {
    /// Position of the level in ascending severity.
    pub open spec fn spec_rank(self) -> nat {
        match self {
            Level::Trace => 0,
            Level::Debug => 1,
            Level::Info => 2,
            Level::Warn => 3,
            Level::Error => 4,
        }
    }

    pub fn rank(&self) -> (r: u8)
        ensures
            r == self.spec_rank(),
    {
        match self {
            Level::Trace => 0,
            Level::Debug => 1,
            Level::Info => 2,
            Level::Warn => 3,
            Level::Error => 4,
        }
    }

    /// Whether `self` is at least as severe as `threshold`.
    pub fn at_least(&self, threshold: Level) -> (r: bool)
        ensures
            r == (self.spec_rank() >= threshold.spec_rank()),
    {
        self.rank() >= threshold.rank()
    }

    /// The upper-case name written in log lines.
    pub open spec fn spec_name(self) -> Seq<char> {
        match self {
            Level::Trace => seq!['T', 'R', 'A', 'C', 'E'],
            Level::Debug => seq!['D', 'E', 'B', 'U', 'G'],
            Level::Info => seq!['I', 'N', 'F', 'O'],
            Level::Warn => seq!['W', 'A', 'R', 'N'],
            Level::Error => seq!['E', 'R', 'R', 'O', 'R'],
        }
    }

    /// Appends the upper-case name of the level.
    pub fn push_name(&self, out: &mut String)
        ensures
            final(out)@ == old(out)@ + self.spec_name(),
    {
        let name: Vec<char> = match self {
            Level::Trace => vec!['T', 'R', 'A', 'C', 'E'],
            Level::Debug => vec!['D', 'E', 'B', 'U', 'G'],
            Level::Info => vec!['I', 'N', 'F', 'O'],
            Level::Warn => vec!['W', 'A', 'R', 'N'],
            Level::Error => vec!['E', 'R', 'R', 'O', 'R'],
        };
        assert(name@ =~= self.spec_name());
        crate::text::push_chars(out, name.as_slice());
    }

    /// The upper-case name of the level.
    pub fn name(&self) -> (r: String)
        ensures
            r@ == self.spec_name(),
    {
        let mut out = String::new();
        self.push_name(&mut out);
        assert(out@ =~= self.spec_name());
        out
    }
}

/// A control character in the sense of `char::is_control` (category Cc).
pub open spec fn is_control(c: char) -> bool {
    c <= '\u{1f}' || ('\u{7f}' <= c <= '\u{9f}')
}

/// The escaped form of one character in `RLOG/1` text.
pub open spec fn escape_char(c: char) -> Seq<char> {
    if c == '\n' {
        seq!['\\', 'n']
    } else if c == '\r' {
        seq!['\\', 'r']
    } else if c == '\t' {
        seq!['\\', 't']
    } else if c == '\\' {
        seq!['\\', '\\']
    } else if c == '"' {
        seq!['\\', '"']
    } else if is_control(c) || c == '\u{2028}' || c == '\u{2029}' {
        seq!['\\', 'u', '{'] + hexadecimal(c as nat) + seq!['}']
    } else {
        seq![c]
    }
}

/// The escaped form of a text: each character escaped in turn.
pub open spec fn escape_text(s: Seq<char>) -> Seq<char>
    decreases s.len(),
{
    if s.len() == 0 {
        seq![]
    } else {
        escape_text(s.drop_last()) + escape_char(s.last())
    }
}

/// Appends the escaped form of one character.
pub fn push_escaped_char(out: &mut String, c: char)
    ensures
        final(out)@ == old(out)@ + escape_char(c),
{
    if c == '\n' {
        push_char(out, '\\');
        push_char(out, 'n');
    } else if c == '\r' {
        push_char(out, '\\');
        push_char(out, 'r');
    } else if c == '\t' {
        push_char(out, '\\');
        push_char(out, 't');
    } else if c == '\\' {
        push_char(out, '\\');
        push_char(out, '\\');
    } else if c == '"' {
        push_char(out, '\\');
        push_char(out, '"');
    } else if c <= '\u{1f}' || (c >= '\u{7f}' && c <= '\u{9f}') || c == '\u{2028}' || c
        == '\u{2029}' {
        push_char(out, '\\');
        push_char(out, 'u');
        push_char(out, '{');
        push_hex(out, c as u32 as u64);
        push_char(out, '}');
    } else {
        push_char(out, c);
    }
    assert(final(out)@ =~= old(out)@ + escape_char(c));
}

/// Appends the escaped form of a text.
pub fn push_escaped(out: &mut String, text: &str)
    ensures
        final(out)@ == old(out)@ + escape_text(text@),
{
    let cs = to_chars(text);
    let mut i: usize = 0;
    assert(cs@.take(0) =~= Seq::<char>::empty());
    while i < cs.len()
        invariant
            i <= cs@.len(),
            cs@ == text@,
            out@ == old(out)@ + escape_text(cs@.take(i as int)),
        decreases cs@.len() - i,
    {
        push_escaped_char(out, cs[i]);
        assert(cs@.take(i + 1).drop_last() =~= cs@.take(i as int));
        assert(escape_text(cs@.take(i + 1)) == escape_text(cs@.take(i as int)) + escape_char(
            cs@[i as int],
        ));
        i = i + 1;
    }
    assert(cs@.take(cs@.len() as int) =~= cs@);
}

/// Escapes control characters, quotes and backslashes; other Unicode is kept.
pub fn escape(text: &str) -> (r: String)
    ensures
        r@ == escape_text(text@),
{
    let mut out = String::new();
    push_escaped(&mut out, text);
    assert(out@ =~= escape_text(text@));
    out
}

/// A field value. Floating values are carried as their IEEE-754 bits together
/// with their `Debug` rendering, which the caller computes; they compare by bits.
#[derive(Clone, Debug)]
pub enum Value {
    Text(String),
    Bool(bool),
    I64(i64),
    U64(u64),
    F64 { bits: u64, debug: String },
}

/// The abstract content of a [`Value`].
pub enum ValueView {
    Text(Seq<char>),
    Bool(bool),
    I64(i64),
    U64(u64),
    F64 { bits: u64, debug: Seq<char> },
}

/// Whether IEEE-754 double bits denote a finite number (exponent not all ones).
pub open spec fn finite_bits(bits: u64) -> bool {
    (bits >> 52u64) & 0x7ffu64 != 0x7ffu64
}

impl ValueView {
    /// Size in bytes that a value counts for in field budgets.
    pub open spec fn size(self) -> nat {
        match self {
            ValueView::Text(t) => byte_len(t),
            _ => 8,
        }
    }

    /// Whether the value may be logged (finite when floating).
    pub open spec fn finite(self) -> bool {
        match self {
            ValueView::F64 { bits, .. } => finite_bits(bits),
            _ => true,
        }
    }

    /// Typed equality: floats compare by bits.
    pub open spec fn same(self, other: ValueView) -> bool {
        match (self, other) {
            (ValueView::Text(a), ValueView::Text(b)) => a == b,
            (ValueView::Bool(a), ValueView::Bool(b)) => a == b,
            (ValueView::I64(a), ValueView::I64(b)) => a == b,
            (ValueView::U64(a), ValueView::U64(b)) => a == b,
            (ValueView::F64 { bits: a, .. }, ValueView::F64 { bits: b, .. }) => a == b,
            _ => false,
        }
    }

    /// The text written for this value in a log line.
    pub open spec fn rendered(self) -> Seq<char> {
        match self {
            ValueView::Text(t) => seq!['"'] + escape_text(t) + seq!['"'],
            ValueView::Bool(b) => if b {
                seq!['t', 'r', 'u', 'e']
            } else {
                seq!['f', 'a', 'l', 's', 'e']
            },
            ValueView::I64(n) => signed_decimal(n as int),
            ValueView::U64(n) => decimal(n as nat),
            ValueView::F64 { debug, .. } => debug,
        }
    }
}

impl Value {
    pub open spec fn view(&self) -> ValueView {
        match self {
            Value::Text(t) => ValueView::Text(t@),
            Value::Bool(b) => ValueView::Bool(*b),
            Value::I64(n) => ValueView::I64(*n),
            Value::U64(n) => ValueView::U64(*n),
            Value::F64 { bits, debug } => ValueView::F64 { bits: *bits, debug: debug@ },
        }
    }

    /// A text value.
    pub fn text(s: &str) -> (r: Value)
        ensures
            r.view() == ValueView::Text(s@),
    {
        Value::Text(s.to_owned())
    }

    /// A copy with the same content.
    pub fn duplicate(&self) -> (r: Value)
        ensures
            r.view() == self.view(),
    {
        match self {
            Value::Text(t) => Value::Text(t.clone()),
            Value::Bool(b) => Value::Bool(*b),
            Value::I64(n) => Value::I64(*n),
            Value::U64(n) => Value::U64(*n),
            Value::F64 { bits, debug } => Value::F64 { bits: *bits, debug: debug.clone() },
        }
    }

    /// Size in bytes that this value counts for in field budgets.
    pub fn size(&self) -> (r: usize)
        ensures
            r == self.view().size(),
    {
        match self {
            Value::Text(t) => crate::text::byte_length(t.as_str()),
            _ => 8,
        }
    }

    /// Whether the value is a finite float or not a float.
    pub fn is_finite(&self) -> (r: bool)
        ensures
            r == self.view().finite(),
    {
        match self {
            Value::F64 { bits, .. } => (*bits >> 52u64) & 0x7ffu64 != 0x7ffu64,
            _ => true,
        }
    }

    /// Typed equality: floats compare by bits.
    pub fn same(&self, other: &Value) -> (r: bool)
        ensures
            r == self.view().same(other.view()),
    {
        match (self, other) {
            (Value::Text(a), Value::Text(b)) => {
                let x = to_chars(a.as_str());
                let y = to_chars(b.as_str());
                crate::text::same_text(&x, &y)
            },
            (Value::Bool(a), Value::Bool(b)) => *a == *b,
            (Value::I64(a), Value::I64(b)) => *a == *b,
            (Value::U64(a), Value::U64(b)) => *a == *b,
            (Value::F64 { bits: a, .. }, Value::F64 { bits: b, .. }) => *a == *b,
            _ => false,
        }
    }

    /// Appends the text written for this value in a log line.
    pub fn push_rendered(&self, out: &mut String)
        ensures
            final(out)@ == old(out)@ + self.view().rendered(),
    {
        match self {
            Value::Text(t) => {
                push_char(out, '"');
                push_escaped(out, t.as_str());
                push_char(out, '"');
            },
            Value::Bool(b) => {
                if *b {
                    push_char(out, 't');
                    push_char(out, 'r');
                    push_char(out, 'u');
                    push_char(out, 'e');
                } else {
                    push_char(out, 'f');
                    push_char(out, 'a');
                    push_char(out, 'l');
                    push_char(out, 's');
                    push_char(out, 'e');
                }
            },
            Value::I64(n) => push_signed_decimal(out, *n),
            Value::U64(n) => push_decimal(out, *n),
            Value::F64 { debug, .. } => push_str(out, debug.as_str()),
        }
        assert(final(out)@ =~= old(out)@ + self.view().rendered());
    }

    /// The text written for this value in a log line.
    pub fn render(&self) -> (r: String)
        ensures
            r@ == self.view().rendered(),
    {
        let mut out = String::new();
        self.push_rendered(&mut out);
        assert(out@ =~= self.view().rendered());
        out
    }
}

} // verus!
