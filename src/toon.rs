use crate::value::{integer_form, integer_magnitude, renders_as_integer, sign_bit, JsonNumber};
use vstd::prelude::*;
use vstd::string::*;

verus! {

/// The escape sequence that stands for one character inside a quoted value.
pub open spec fn escape_char(c: char) -> Seq<char> {
    if c == '"' {
        seq!['\\', '"']
    } else if c == '\\' {
        seq!['\\', '\\']
    } else if c == '\n' {
        seq!['\\', 'n']
    } else if c == '\r' {
        seq!['\\', 'r']
    } else if c == '\t' {
        seq!['\\', 't']
    } else {
        seq![c]
    }
}

/// `s` with every character replaced by its escape sequence.
pub open spec fn escaped(s: Seq<char>) -> Seq<char>
    decreases s.len(),
{
    if s.len() == 0 {
        Seq::empty()
    } else {
        escaped(s.drop_last()) + escape_char(s.last())
    }
}

/// The character that the escape sequence `\x` stands for, where `x` is in the table.
pub open spec fn unescape_char(x: char) -> Option<char> {
    if x == '"' {
        Some('"')
    } else if x == '\\' {
        Some('\\')
    } else if x == 'n' {
        Some('\n')
    } else if x == 'r' {
        Some('\r')
    } else if x == 't' {
        Some('\t')
    } else {
        None
    }
}

/// Decodes escaped text from left to right. `None` where the text holds a bare
/// quote, a backslash at its end, or a backslash before a character outside the table.
pub open spec fn unescaped(t: Seq<char>) -> Option<Seq<char>>
    decreases t.len(),
{
    if t.len() == 0 {
        Some(Seq::empty())
    } else if t[0] == '\\' {
        if t.len() < 2 {
            None
        } else {
            match (unescape_char(t[1]), unescaped(t.skip(2))) {
                (Some(c), Some(rest)) => Some(seq![c] + rest),
                _ => None,
            }
        }
    } else if t[0] == '"' {
        None
    } else {
        match unescaped(t.skip(1)) {
            Some(rest) => Some(seq![t[0]] + rest),
            None => None,
        }
    }
}

/// Escaping works character by character, so it distributes over concatenation.
pub proof fn lemma_escaped_concat(a: Seq<char>, b: Seq<char>)
    ensures
        escaped(a + b) == escaped(a) + escaped(b),
    decreases b.len(),
{
    if b.len() == 0 {
        assert(a + b =~= a);
        assert(escaped(a) + escaped(b) =~= escaped(a));
    } else {
        assert((a + b).drop_last() =~= a + b.drop_last());
        lemma_escaped_concat(a, b.drop_last());
        assert(escaped(a + b) =~= escaped(a) + escaped(b));
    }
}

/// Escaped text holds no quote or backslash outside an escape sequence, and
/// decoding it by the inverse table gives the original text back.
pub proof fn lemma_escape_round_trip(s: Seq<char>)
    ensures
        unescaped(escaped(s)) == Some(s),
    decreases s.len(),
{
    if s.len() == 0 {
        assert(escaped(s) =~= Seq::<char>::empty());
    } else {
        let c = s[0];
        let rest = s.skip(1);
        assert(s =~= seq![c] + rest);
        lemma_escaped_concat(seq![c], rest);
        assert(seq![c].drop_last() =~= Seq::<char>::empty());
        assert(seq![c].last() == c);
        assert(escaped(Seq::<char>::empty()) =~= Seq::<char>::empty());
        assert(escaped(seq![c]) =~= escape_char(c));
        let t = escaped(s);
        assert(t =~= escape_char(c) + escaped(rest));
        lemma_escape_round_trip(rest);
        if escape_char(c).len() == 2 {
            assert(t.skip(2) =~= escaped(rest));
        } else {
            assert(t.skip(1) =~= escaped(rest));
        }
        assert(unescaped(t) =~= Some(s));
    }
}

/// Relies on `String::push`: the character is appended at the end.
pub assume_specification[ std::string::String::push ](s: &mut std::string::String, ch: char)
    ensures
        final(s)@ == old(s)@.push(ch),
;

/// Escapes quotes, backslashes, newlines, carriage returns and tabs.
pub fn escape_string(s: &str) -> (r: String)
    ensures
        r@ == escaped(s@),
{
    let mut result = String::new();
    for ch in it: s.chars()
        invariant
            it.seq() == s@,
            result@ == escaped(s@.take(it.index() as int)),
    {
        proof {
            assert(s@.take(it.index() + 1).drop_last() =~= s@.take(it.index() as int));
        }
        if ch == '"' {
            result.push('\\');
            result.push('"');
        } else if ch == '\\' {
            result.push('\\');
            result.push('\\');
        } else if ch == '\n' {
            result.push('\\');
            result.push('n');
        } else if ch == '\r' {
            result.push('\\');
            result.push('r');
        } else if ch == '\t' {
            result.push('\\');
            result.push('t');
        } else {
            result.push(ch);
        }
    }
    proof {
        assert(s@.take(s@.len() as int) =~= s@);
    }
    result
}

/// The character of a decimal digit.
pub open spec fn digit_char(d: nat) -> char {
    if d == 0 {
        '0'
    } else if d == 1 {
        '1'
    } else if d == 2 {
        '2'
    } else if d == 3 {
        '3'
    } else if d == 4 {
        '4'
    } else if d == 5 {
        '5'
    } else if d == 6 {
        '6'
    } else if d == 7 {
        '7'
    } else if d == 8 {
        '8'
    } else {
        '9'
    }
}

/// The decimal digits of `n`, most significant first, with no leading zero.
pub open spec fn decimal(n: nat) -> Seq<char>
    decreases n,
{
    if n < 10 {
        seq![digit_char(n)]
    } else {
        decimal(n / 10).push(digit_char(n % 10))
    }
}

/// An integer given by its sign and magnitude, in decimal; zero has no sign.
pub open spec fn signed_decimal(negative: bool, magnitude: nat) -> Seq<char> {
    if negative && magnitude != 0 {
        seq!['-'] + decimal(magnitude)
    } else {
        decimal(magnitude)
    }
}

/// How a number is written: as a plain integer where it is finite, integral
/// and below 10^15 in magnitude, else in the value model's own text form.
pub open spec fn number_text(n: JsonNumber) -> Seq<char> {
    if renders_as_integer(n.bits) {
        signed_decimal(sign_bit(n.bits), integer_magnitude(n.bits))
    } else {
        n.text@
    }
}

/// A text value, escaped and in double quotes.
pub open spec fn quoted(s: Seq<char>) -> Seq<char> {
    seq!['"'] + escaped(s) + seq!['"']
}

/// How a boolean is written.
pub open spec fn bool_text(b: bool) -> Seq<char> {
    if b {
        "true"@
    } else {
        "false"@
    }
}

/// One output line: the key, `=`, the rendered value and a newline.
pub open spec fn line(record: (Seq<char>, Seq<char>)) -> Seq<char> {
    record.0 + seq!['='] + record.1 + seq!['\n']
}

/// The text of a sequence of records: their lines, in order.
pub open spec fn render(records: Seq<(Seq<char>, Seq<char>)>) -> Seq<char>
    decreases records.len(),
{
    if records.len() == 0 {
        Seq::empty()
    } else {
        render(records.drop_last()) + line(records.last())
    }
}

fn digit(d: u64) -> (c: char)
    requires
        d < 10,
    ensures
        c == digit_char(d as nat),
{
    if d == 0 {
        '0'
    } else if d == 1 {
        '1'
    } else if d == 2 {
        '2'
    } else if d == 3 {
        '3'
    } else if d == 4 {
        '4'
    } else if d == 5 {
        '5'
    } else if d == 6 {
        '6'
    } else if d == 7 {
        '7'
    } else if d == 8 {
        '8'
    } else {
        '9'
    }
}

/// Appends the decimal digits of `n`.
pub fn push_decimal(out: &mut String, n: u64)
    ensures
        final(out)@ == old(out)@ + decimal(n as nat),
    decreases n,
{
    if n >= 10 {
        push_decimal(out, n / 10);
    }
    out.push(digit(n % 10));
    proof {
        if n < 10 {
            assert(n % 10 == n);
        }
        assert(final(out)@ =~= old(out)@ + decimal(n as nat));
    }
}

/// Appends a number as `number_text` writes it.
pub fn push_number(out: &mut String, n: &JsonNumber)
    ensures
        final(out)@ == old(out)@ + number_text(*n),
{
    match integer_form(n.bits) {
        Some((negative, magnitude)) => {
            if negative && magnitude != 0 {
                out.push('-');
            }
            push_decimal(out, magnitude);
        },
        None => {
            out.append(n.text.as_str());
        },
    }
    proof {
        assert(final(out)@ =~= old(out)@ + number_text(*n));
    }
}

/// Accumulates TOON records, one line each, in the order they are written.
pub struct ToonWriter {
    buffer: String,
    records: Ghost<Seq<(Seq<char>, Seq<char>)>>,
}

impl View for ToonWriter {
    /// The records written so far, each a key and its rendered value.
    type V = Seq<(Seq<char>, Seq<char>)>;

    closed spec fn view(&self) -> Seq<(Seq<char>, Seq<char>)> {
        self.records@
    }
}

impl ToonWriter {
    /// The buffer holds exactly the lines of the records written so far.
    pub closed spec fn wf(&self) -> bool {
        self.buffer@ == render(self.records@)
    }

    pub fn new() -> (r: Self)
        ensures
            r.wf(),
            r@ == Seq::<(Seq<char>, Seq<char>)>::empty(),
    {
        ToonWriter { buffer: String::new(), records: Ghost(Seq::empty()) }
    }

    /// Ends the line begun by `begin_line` and records it.
    fn end_line(&mut self, Ghost(record): Ghost<(Seq<char>, Seq<char>)>)
        requires
            old(self).buffer@ == render(old(self).records@) + record.0 + seq!['='] + record.1,
        ensures
            final(self).wf(),
            final(self)@ == old(self)@.push(record),
    {
        self.buffer.push('\n');
        self.records = Ghost(self.records@.push(record));
        proof {
            assert(self.records@.drop_last() =~= old(self).records@);
            assert(self.buffer@ =~= render(self.records@));
        }
    }

    /// Appends `key="escaped value"`.
    pub fn write_string(&mut self, key: &str, value: &str)
        requires
            old(self).wf(),
        ensures
            final(self).wf(),
            final(self)@ == old(self)@.push((key@, quoted(value@))),
    {
        let escaped = escape_string(value);
        self.buffer.append(key);
        self.buffer.push('=');
        self.buffer.push('"');
        self.buffer.append(escaped.as_str());
        self.buffer.push('"');
        proof {
            assert(self.buffer@ =~= render(old(self).records@) + key@ + seq!['='] + quoted(value@));
        }
        self.end_line(Ghost((key@, quoted(value@))));
    }

    /// Appends `key=number`, the number written as `number_text` says.
    pub fn write_number(&mut self, key: &str, value: &JsonNumber)
        requires
            old(self).wf(),
        ensures
            final(self).wf(),
            final(self)@ == old(self)@.push((key@, number_text(*value))),
    {
        self.buffer.append(key);
        self.buffer.push('=');
        push_number(&mut self.buffer, value);
        proof {
            assert(self.buffer@ =~= render(old(self).records@) + key@ + seq!['='] + number_text(
                *value,
            ));
        }
        self.end_line(Ghost((key@, number_text(*value))));
    }

    /// Appends `key=true` or `key=false`.
    pub fn write_bool(&mut self, key: &str, value: bool)
        requires
            old(self).wf(),
        ensures
            final(self).wf(),
            final(self)@ == old(self)@.push((key@, bool_text(value))),
    {
        self.buffer.append(key);
        self.buffer.push('=');
        if value {
            self.buffer.append("true");
        } else {
            self.buffer.append("false");
        }
        proof {
            assert(self.buffer@ =~= render(old(self).records@) + key@ + seq!['='] + bool_text(value));
        }
        self.end_line(Ghost((key@, bool_text(value))));
    }

    /// Appends `key=null`.
    pub fn write_null(&mut self, key: &str)
        requires
            old(self).wf(),
        ensures
            final(self).wf(),
            final(self)@ == old(self)@.push((key@, "null"@)),
    {
        self.buffer.append(key);
        self.buffer.push('=');
        self.buffer.append("null");
        proof {
            assert(self.buffer@ =~= render(old(self).records@) + key@ + seq!['='] + "null"@);
        }
        self.end_line(Ghost((key@, "null"@)));
    }

    /// The accumulated text; the writer is consumed.
    pub fn finish(self) -> (r: String)
        requires
            self.wf(),
        ensures
            r@ == render(self@),
    {
        self.buffer
    }
}

impl Default for ToonWriter {
    fn default() -> (r: Self)
        ensures
            r.wf(),
            r@ == Seq::<(Seq<char>, Seq<char>)>::empty(),
    {
        ToonWriter::new()
    }
}

} // verus!
