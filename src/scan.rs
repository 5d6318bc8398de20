//! A cursor over the characters of a source text, shared by the markup and
//! stylesheet parsers.
use vstd::prelude::*;
use vstd::std_specs::iter::IteratorSpec;

verus! {

/// Kinds of characters that a run can be made of.
#[derive(Clone, Copy, Debug, PartialEq, Eq, Structural)]
pub enum CharClass {
    /// ASCII letters and digits.
    Alphanumeric,
    /// ASCII letters, digits, `-` and `_`.
    Identifier,
    /// Unicode white space.
    Whitespace,
    /// ASCII digits.
    Digit,
    /// Any character but the one given.
    Not(char),
}

/// Whether `c` has the Unicode `White_Space` property.
pub open spec fn is_space(c: char) -> bool {
    ('\t' <= c && c <= '\r') || c == ' ' || c == '\u{85}' || c == '\u{a0}' || c == '\u{1680}'
        || ('\u{2000}' <= c && c <= '\u{200a}') || c == '\u{2028}' || c == '\u{2029}'
        || c == '\u{202f}' || c == '\u{205f}' || c == '\u{3000}'
}

pub open spec fn is_alnum(c: char) -> bool {
    ('a' <= c && c <= 'z') || ('A' <= c && c <= 'Z') || ('0' <= c && c <= '9')
}

pub open spec fn in_class(c: char, class: CharClass) -> bool {
    match class {
        CharClass::Alphanumeric => is_alnum(c),
        CharClass::Identifier => is_alnum(c) || c == '-' || c == '_',
        CharClass::Whitespace => is_space(c),
        CharClass::Digit => '0' <= c && c <= '9',
        CharClass::Not(x) => c != x,
    }
}

pub fn char_in_class(c: char, class: CharClass) -> (r: bool)
    ensures
        r == in_class(c, class),
{
    match class {
        CharClass::Alphanumeric => ('a' <= c && c <= 'z') || ('A' <= c && c <= 'Z') || ('0' <= c && c <= '9'),
        CharClass::Identifier => ('a' <= c && c <= 'z') || ('A' <= c && c <= 'Z') || ('0' <= c && c <= '9') || c == '-' || c == '_',
        CharClass::Whitespace => ('\t' <= c && c <= '\r') || c == ' ' || c == '\u{85}' || c == '\u{a0}' || c == '\u{1680}'
            || ('\u{2000}' <= c && c <= '\u{200a}') || c == '\u{2028}' || c == '\u{2029}'
            || c == '\u{202f}' || c == '\u{205f}' || c == '\u{3000}',
        CharClass::Digit => '0' <= c && c <= '9',
        CharClass::Not(x) => c != x,
    }
}

/// The end of the run of `class` characters of `s` that starts at `pos`.
pub open spec fn run_end(s: Seq<char>, pos: int, class: CharClass) -> int
    decreases s.len() - pos,
{
    if pos < 0 || pos >= s.len() || !in_class(s[pos], class) {
        pos
    } else {
        run_end(s, pos + 1, class)
    }
}

pub proof fn lemma_run_end(s: Seq<char>, pos: int, class: CharClass)
    requires
        0 <= pos <= s.len(),
    ensures
        pos <= run_end(s, pos, class) <= s.len(),
        forall|j: int| pos <= j < run_end(s, pos, class) ==> in_class(#[trigger] s[j], class),
        run_end(s, pos, class) == s.len() || !in_class(s[run_end(s, pos, class)], class),
    decreases s.len() - pos,
{
    if pos < s.len() && in_class(s[pos], class) {
        lemma_run_end(s, pos + 1, class);
    }
}

/// Whether `lit` is written at `p` of `s`.
pub open spec fn starts_at(s: Seq<char>, p: int, lit: Seq<char>) -> bool {
    0 <= p && p + lit.len() <= s.len() && s.subrange(p, p + lit.len()) == lit
}

/// Relies on `String::push`: appends one character.
#[verifier::external_body]
fn push_char(s: &mut String, c: char)
    ensures
        final(s)@ == old(s)@.push(c),
{
    s.push(c)
}

/// The characters of `s`, in order.
pub fn chars_of(s: &str) -> (r: Vec<char>)
    ensures
        r@ == s@,
{
    let mut out: Vec<char> = Vec::new();
    let mut it = s.chars();
    proof {
        broadcast use vstd::string::axiom_spec_iter;
    }
    assert(it.remaining() == s@);
    loop
        invariant
            out@ + it.remaining() == s@,
            it.obeys_prophetic_iter_laws(),
            it.decrease() is Some,
        ensures
            out@ == s@,
        decreases it.decrease()->0,
    {
        match it.next() {
            Some(c) => {
                out.push(c);
                assert(out@ + it.remaining() =~= s@);
            },
            None => {
                assert(out@ =~= s@);
                break;
            },
        }
    }
    out
}

/// The cursor moved forward over the same text.
pub open spec fn advanced(old_s: Scanner, new_s: Scanner) -> bool {
    &&& new_s.input == old_s.input
    &&& old_s.pos <= new_s.pos <= new_s.input@.len()
}

/// A position in a source text.
#[derive(Debug)]
pub struct Scanner {
    pub pos: usize,
    pub input: Vec<char>,
}

impl Scanner {
    pub fn new(source: &str) -> (r: Scanner)
        ensures
            r.pos == 0,
            r.input@ == source@,
    {
        Scanner { pos: 0, input: chars_of(source) }
    }

    pub open spec fn wf(&self) -> bool {
        self.pos <= self.input@.len()
    }

    pub fn eof(&self) -> (r: bool)
        ensures
            r == (self.pos >= self.input@.len()),
    {
        self.pos >= self.input.len()
    }

    pub fn next_char(&self) -> (r: char)
        requires
            self.pos < self.input@.len(),
        ensures
            r == self.input@[self.pos as int],
    {
        self.input[self.pos]
    }

    /// Whether the text left to read starts with `s`.
    pub fn starts_with(&self, s: &str) -> (r: bool)
        requires
            self.wf(),
        ensures
            r == starts_at(self.input@, self.pos as int, s@),
    {
        let n = s.unicode_len();
        if self.input.len() - self.pos < n {
            return false;
        }
        let len = self.input.len();
        let mut i: usize = 0;
        while i < n
            invariant
                len == self.input@.len(),
                self.wf(),
                n == s@.len(),
                self.input@.len() - self.pos >= n,
                i <= n,
                forall|j: int| 0 <= j < i ==> self.input@[self.pos + j] == s@[j],
            decreases n - i,
        {
            assert(self.pos + i < self.input@.len());
            if self.input[self.pos + i] != s.get_char(i) {
                assert(self.input@.subrange(self.pos as int, self.pos + n)[i as int] != s@[i as int]);
                return false;
            }
            i = i + 1;
        }
        assert(self.input@.subrange(self.pos as int, self.pos + n) =~= s@);
        true
    }

    pub fn consume_char(&mut self) -> (r: char)
        requires
            old(self).pos < old(self).input@.len(),
        ensures
            r == old(self).input@[old(self).pos as int],
            final(self).input == old(self).input,
            final(self).pos == old(self).pos + 1,
    {
        let n = self.input.len();
        let c = self.input[self.pos];
        self.pos = self.pos + 1;
        c
    }

    /// Reads the run of `class` characters at the cursor.
    pub fn consume_while(&mut self, class: CharClass) -> (r: String)
        requires
            old(self).wf(),
        ensures
            final(self).input == old(self).input,
            final(self).pos == run_end(old(self).input@, old(self).pos as int, class),
            old(self).pos <= final(self).pos,
            final(self).wf(),
            r@ == old(self).input@.subrange(old(self).pos as int, final(self).pos as int),
    {
        proof {
            lemma_run_end(self.input@, self.pos as int, class);
        }
        let ghost start = self.pos as int;
        let len = self.input.len();
        let mut result = String::new();
        while self.pos < len && char_in_class(self.input[self.pos], class)
            invariant
                len == self.input@.len(),
                self.input == old(self).input,
                0 <= start <= self.pos <= self.input@.len(),
                run_end(self.input@, start, class) == run_end(self.input@, self.pos as int, class),
                result@ == self.input@.subrange(start, self.pos as int),
            decreases self.input@.len() - self.pos,
        {
            let c = self.input[self.pos];
            let ghost before = result@;
            push_char(&mut result, c);
            assert(result@ == before.push(c));
            assert(self.input@.subrange(start, self.pos + 1) =~= self.input@.subrange(start, self.pos as int).push(c));
            self.pos = self.pos + 1;
        }
        result
    }

    pub fn consume_whitespace(&mut self)
        requires
            old(self).wf(),
        ensures
            final(self).input == old(self).input,
            final(self).pos == run_end(old(self).input@, old(self).pos as int, CharClass::Whitespace),
            old(self).pos <= final(self).pos,
            final(self).wf(),
    {
        self.consume_while(CharClass::Whitespace);
    }
}

} // verus!
