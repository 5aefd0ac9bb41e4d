//! The lexer: it turns one expression string into an ordered token
//! sequence, or rejects the first character that starts no token.

use crate::ast::CompareOp;
use crate::ast::LogicOp;
use crate::ast::SpecValue;
use crate::ast::Value;
use crate::ast::spec_compare_op_of_name;
use crate::ast::spec_logic_op_of_name;
use crate::text::is_digit_char;
use crate::text::is_word_char;
use crate::text::push_char;
use crate::text::word_char;
use crate::token::LexError;
use crate::token::LexItem;
use crate::token::SpecToken;
use crate::token::spec_tokens_of;
use vstd::prelude::*;
use vstd::string::StrSliceExecFns;

verus! {

/// A structural character: one of `(` `)` `,` `.` `=`.
pub open spec fn is_special_char(c: char) -> bool {
    c == '(' || c == ')' || c == ',' || c == '.' || c == '='
}

/// The position where the alphanumeric run that starts at `p` ends.
pub open spec fn word_end(s: Seq<char>, p: int) -> int
    decreases s.len() - p
        when 0 <= p <= s.len()
{
    if p < s.len() && is_word_char(s[p]) {
        word_end(s, p + 1)
    } else {
        p
    }
}

pub proof fn lemma_word_end(s: Seq<char>, p: int)
    requires
        0 <= p <= s.len(),
    ensures
        p <= word_end(s, p) <= s.len(),
        forall|j: int| p <= j < word_end(s, p) ==> is_word_char(s[j]),
        word_end(s, p) < s.len() ==> !is_word_char(s[word_end(s, p)]),
    decreases s.len() - p,
{
    if p < s.len() && is_word_char(s[p]) {
        lemma_word_end(s, p + 1);
    }
}

/// The position where the numeric run that starts at `p` ends: digits, and
/// at most one `.` (none further when `seen_dot` already holds).
pub open spec fn num_end(s: Seq<char>, p: int, seen_dot: bool) -> int
    decreases s.len() - p
        when 0 <= p <= s.len()
{
    if p < s.len() {
        if is_digit_char(s[p]) {
            num_end(s, p + 1, seen_dot)
        } else if s[p] == '.' && !seen_dot {
            num_end(s, p + 1, true)
        } else {
            p
        }
    } else {
        p
    }
}

pub proof fn lemma_num_end(s: Seq<char>, p: int, seen_dot: bool)
    requires
        0 <= p <= s.len(),
    ensures
        p <= num_end(s, p, seen_dot) <= s.len(),
    decreases s.len() - p,
{
    if p < s.len() {
        if is_digit_char(s[p]) {
            lemma_num_end(s, p + 1, seen_dot);
        } else if s[p] == '.' && !seen_dot {
            lemma_num_end(s, p + 1, true);
        }
    }
}

/// The index of the first `"` at or after `p`, or the end of the input.
pub open spec fn string_close(s: Seq<char>, p: int) -> int
    decreases s.len() - p
        when 0 <= p <= s.len()
{
    if p < s.len() {
        if s[p] == '"' {
            p
        } else {
            string_close(s, p + 1)
        }
    } else {
        p
    }
}

pub proof fn lemma_string_close(s: Seq<char>, p: int)
    requires
        0 <= p <= s.len(),
    ensures
        p <= string_close(s, p) <= s.len(),
        string_close(s, p) < s.len() ==> s[string_close(s, p)] == '"',
        forall|j: int| p <= j < string_close(s, p) ==> s[j] != '"',
    decreases s.len() - p,
{
    if p < s.len() && s[p] != '"' {
        lemma_string_close(s, p + 1);
    }
}

/// How an identifier or operator word is classified once read: an operator
/// of one of the two fixed tables, or a plain string atom.
pub open spec fn spec_classify_word(w: Seq<char>) -> SpecToken {
    if spec_compare_op_of_name(w) is Some {
        SpecToken::ComparisonOperator(w)
    } else if spec_logic_op_of_name(w) is Some {
        SpecToken::ArrayOp(w)
    } else {
        SpecToken::Symbol(SpecValue::Str(w))
    }
}

/// The token that starts at position `p` of `s`, with the position right
/// after it; `None` when the character at `p` starts no token.
pub open spec fn spec_next_token(s: Seq<char>, p: int) -> Option<(SpecToken, int)> {
    let c = s[p];
    if is_special_char(c) {
        Some((SpecToken::SpecialChar(c), p + 1))
    } else if c == '"' {
        let close = string_close(s, p + 1);
        let next = if close < s.len() {
            close + 1
        } else {
            close
        };
        Some((SpecToken::Symbol(SpecValue::Str(s.subrange(p + 1, close))), next))
    } else if c == '-' || is_digit_char(c) {
        let digits = if c == '-' {
            p + 1
        } else {
            p
        };
        let end = num_end(s, digits, false);
        Some((SpecToken::Symbol(SpecValue::Num(s.subrange(p, end))), end))
    } else if is_word_char(c) {
        Some((spec_classify_word(s.subrange(p, word_end(s, p))), word_end(s, p)))
    } else {
        None
    }
}

/// Reading one token always consumes at least one character and never runs
/// past the end of the input.
pub proof fn lemma_next_token_progress(s: Seq<char>, p: int)
    requires
        0 <= p < s.len(),
    ensures
        match spec_next_token(s, p) {
            Some((t, q)) => p < q <= s.len(),
            None => true,
        },
{
    let c = s[p];
    if is_special_char(c) {
    } else if c == '"' {
        lemma_string_close(s, p + 1);
    } else if c == '-' || is_digit_char(c) {
        lemma_num_end(s, p + 1, false);
    } else if is_word_char(c) {
        lemma_word_end(s, p + 1);
        assert(word_end(s, p) == word_end(s, p + 1));
    }
}

/// The token sequence of `s` from position `p` on, or the position of the
/// first character that starts no token.
pub open spec fn spec_lex_from(s: Seq<char>, p: int) -> Result<Seq<SpecToken>, int>
    decreases s.len() - p
        when 0 <= p <= s.len()
{
    if p >= s.len() {
        Ok(Seq::empty())
    } else {
        match spec_next_token(s, p) {
            None => Err(p),
            Some((t, q)) => if p < q <= s.len() {
                match spec_lex_from(s, q) {
                    Ok(rest) => Ok(seq![t] + rest),
                    Err(e) => Err(e),
                }
            } else {
                Err(p)
            },
        }
    }
}

/// The token sequence of the whole of `s`, or the position of the first
/// character that starts no token.
pub open spec fn spec_lex(s: Seq<char>) -> Result<Seq<SpecToken>, int> {
    spec_lex_from(s, 0)
}

/// The lexer: a cursor over the characters of one expression string.
pub struct Lexer {
    input: Vec<char>,
    position: usize,
}

impl Lexer {
    /// The characters the lexer was given.
    pub closed spec fn spec_input(&self) -> Seq<char> {
        self.input@
    }

    /// The cursor: how many characters have been consumed.
    pub closed spec fn spec_position(&self) -> int {
        self.position as int
    }

    /// The cursor never stands past the end of the input.
    pub open spec fn wf(&self) -> bool {
        self.spec_position() <= self.spec_input().len()
    }

    /// Makes a lexer over the characters of `input`, with the cursor at the
    /// start.
    pub fn new(input: &str) -> (r: Lexer)
        ensures
            r.wf(),
            r.spec_input() == input@,
            r.spec_position() == 0,
    {
        let n = input.unicode_len();
        let mut chars: Vec<char> = Vec::new();
        let mut i: usize = 0;
        while i < n
            invariant
                i <= n,
                n == input@.len(),
                chars@ == input@.subrange(0, i as int),
            decreases n - i,
        {
            let c = input.get_char(i);
            chars.push(c);
            proof {
                assert(input@.subrange(0, i as int).push(input@[i as int]) =~= input@.subrange(
                    0,
                    i + 1 as int,
                ));
            }
            i += 1;
        }
        proof {
            assert(chars@ =~= input@);
        }
        Lexer { input: chars, position: 0 }
    }

    /// The character under the cursor, if any; the cursor does not move.
    pub fn peek(&self) -> (r: Option<char>)
        ensures
            r == self.spec_peek(),
    {
        if self.position < self.input.len() {
            Some(self.input[self.position])
        } else {
            None
        }
    }

    /// The character under the cursor, if any.
    pub open spec fn spec_peek(&self) -> Option<char> {
        if self.spec_position() < self.spec_input().len() {
            Some(self.spec_input()[self.spec_position()])
        } else {
            None
        }
    }

    /// Returns the character under the cursor and advances past it; at the
    /// end of the input it returns `None` and the cursor stays.
    pub fn next_char(&mut self) -> (r: Option<char>)
        ensures
            r == old(self).spec_peek(),
            final(self).spec_input() == old(self).spec_input(),
            final(self).spec_position() == if old(self).spec_position() < old(self).spec_input().len() {
                old(self).spec_position() + 1
            } else {
                old(self).spec_position()
            },
    {
        if self.position < self.input.len() {
            let c = self.input[self.position];
            self.position += 1;
            Some(c)
        } else {
            None
        }
    }

    /// Reads the alphanumeric run that starts at the cursor (possibly
    /// empty) and leaves the cursor right after it.
    pub fn read_symbol(&mut self) -> (r: String)
        requires
            old(self).wf(),
        ensures
            final(self).wf(),
            final(self).spec_input() == old(self).spec_input(),
            final(self).spec_position() == word_end(
                old(self).spec_input(),
                old(self).spec_position(),
            ),
            r@ == old(self).spec_input().subrange(
                old(self).spec_position(),
                final(self).spec_position(),
            ),
    {
        let ghost s = self.spec_input();
        let ghost p0 = self.spec_position();
        proof {
            lemma_word_end(s, p0);
        }
        let mut result = String::new();
        loop
            invariant
                self.wf(),
                self.spec_input() == s,
                0 <= p0 <= self.spec_position(),
                word_end(s, self.spec_position()) == word_end(s, p0),
                result@ == s.subrange(p0, self.spec_position()),
            ensures
                self.wf(),
                self.spec_input() == s,
                self.spec_position() == word_end(s, p0),
                result@ == s.subrange(p0, self.spec_position()),
            decreases s.len() - self.spec_position(),
        {
            if self.position >= self.input.len() {
                break;
            }
            let c = self.input[self.position];
            if !word_char(c) {
                break;
            }
            push_char(&mut result, c);
            self.position += 1;
            proof {
                assert(s.subrange(p0, self.spec_position() - 1).push(
                    s[self.spec_position() - 1],
                ) =~= s.subrange(p0, self.spec_position()));
            }
        }
        result
    }

    /// Reads a quoted string: the cursor stands on the opening quote, and
    /// ends after the closing quote, or at the end of the input when the
    /// quote is never closed. The quotes are not part of the result.
    pub fn read_string(&mut self) -> (r: String)
        requires
            old(self).wf(),
            old(self).spec_peek() == Some('"'),
        ensures
            final(self).wf(),
            final(self).spec_input() == old(self).spec_input(),
            r@ == old(self).spec_input().subrange(
                old(self).spec_position() + 1,
                string_close(old(self).spec_input(), old(self).spec_position() + 1),
            ),
            final(self).spec_position() == ({
                let close = string_close(old(self).spec_input(), old(self).spec_position() + 1);
                if close < old(self).spec_input().len() {
                    close + 1
                } else {
                    close
                }
            }),
    {
        let ghost s = self.spec_input();
        let ghost p0 = self.spec_position();
        // Skip the opening quote
        self.next_char();
        proof {
            lemma_string_close(s, p0 + 1);
        }
        let mut result = String::new();
        loop
            invariant
                self.wf(),
                self.spec_input() == s,
                0 <= p0,
                p0 + 1 <= self.spec_position(),
                string_close(s, self.spec_position()) == string_close(s, p0 + 1),
                result@ == s.subrange(p0 + 1, self.spec_position()),
            ensures
                self.wf(),
                self.spec_input() == s,
                self.spec_position() == string_close(s, p0 + 1),
                result@ == s.subrange(p0 + 1, self.spec_position()),
            decreases s.len() - self.spec_position(),
        {
            if self.position >= self.input.len() {
                break;
            }
            let c = self.input[self.position];
            if c == '"' {
                break;
            }
            push_char(&mut result, c);
            self.position += 1;
            proof {
                assert(s.subrange(p0 + 1, self.spec_position() - 1).push(
                    s[self.spec_position() - 1],
                ) =~= s.subrange(p0 + 1, self.spec_position()));
            }
        }
        // Skip the closing quote, if the string was closed
        if self.position < self.input.len() {
            self.position += 1;
        }
        result
    }

    /// Reads a numeric literal at the cursor — an optional `-`, then digits
    /// with at most one `.` — and returns the exact captured text. The
    /// boundary that talks to the document store converts the text to a
    /// double-precision number; text it cannot convert stands for zero.
    pub fn read_number(&mut self) -> (r: String)
        requires
            old(self).wf(),
        ensures
            final(self).wf(),
            final(self).spec_input() == old(self).spec_input(),
            final(self).spec_position() == ({
                let s = old(self).spec_input();
                let p0 = old(self).spec_position();
                let digits = if p0 < s.len() && s[p0] == '-' {
                    p0 + 1
                } else {
                    p0
                };
                num_end(s, digits, false)
            }),
            r@ == old(self).spec_input().subrange(
                old(self).spec_position(),
                final(self).spec_position(),
            ),
    {
        let ghost s = self.spec_input();
        let ghost p0 = self.spec_position();
        let mut result = String::new();
        let mut has_dot = false;
        match self.peek() {
            Some(c) if c == '-' => {
                push_char(&mut result, c);
                self.next_char();
                proof {
                    assert(s.subrange(p0, p0 + 1) =~= Seq::empty().push(s[p0]));
                }
            },
            _ => {},
        }
        let ghost digits = self.spec_position();
        proof {
            lemma_num_end(s, digits, false);
        }
        loop
            invariant
                self.wf(),
                self.spec_input() == s,
                0 <= p0 <= digits <= self.spec_position(),
                num_end(s, self.spec_position(), has_dot) == num_end(s, digits, false),
                result@ == s.subrange(p0, self.spec_position()),
            ensures
                self.wf(),
                self.spec_input() == s,
                self.spec_position() == num_end(s, digits, false),
                result@ == s.subrange(p0, self.spec_position()),
            decreases s.len() - self.spec_position(),
        {
            if self.position >= self.input.len() {
                break;
            }
            let c = self.input[self.position];
            if !(('0' <= c && c <= '9') || (c == '.' && !has_dot)) {
                break;
            }
            if c == '.' {
                has_dot = true;
            }
            push_char(&mut result, c);
            self.position += 1;
            proof {
                assert(s.subrange(p0, self.spec_position() - 1).push(
                    s[self.spec_position() - 1],
                ) =~= s.subrange(p0, self.spec_position()));
            }
        }
        result
    }

    /// Reads the next token: `Ok(None)` at the end of the input, and an
    /// error exactly when the character under the cursor starts no token.
    pub fn next_token(&mut self) -> (r: Result<Option<LexItem>, LexError>)
        requires
            old(self).wf(),
        ensures
            final(self).wf(),
            final(self).spec_input() == old(self).spec_input(),
            match r {
                Ok(None) => old(self).spec_position() == old(self).spec_input().len() && final(self).spec_position() == old(self).spec_position(),
                Ok(Some(t)) => old(self).spec_position() < old(self).spec_input().len()
                    && spec_next_token(old(self).spec_input(), old(self).spec_position()) == Some(
                    (t@, final(self).spec_position()),
                ),
                Err(e) => old(self).spec_position() < old(self).spec_input().len()
                    && spec_next_token(old(self).spec_input(), old(self).spec_position()) is None
                    && final(self).spec_position() == old(self).spec_position() && e.position
                    == old(self).spec_position() && e.character == old(self).spec_input()[old(self).spec_position()],
            },
    {
        match self.peek() {
            None => Ok(None),
            Some(c) => {
                if c == '(' || c == ')' || c == ',' || c == '.' || c == '=' {
                    self.next_char();
                    Ok(Some(LexItem::SpecialChar(c)))
                } else if c == '"' {
                    Ok(Some(LexItem::Symbol(Value::Str(self.read_string()))))
                } else if c == '-' || ('0' <= c && c <= '9') {
                    Ok(Some(LexItem::Symbol(Value::Num(self.read_number()))))
                } else if word_char(c) {
                    let w = self.read_symbol();
                    if CompareOp::of_name(&w).is_some() {
                        Ok(Some(LexItem::ComparisonOperator(w)))
                    } else if LogicOp::of_name(&w).is_some() {
                        Ok(Some(LexItem::ArrayOp(w)))
                    } else {
                        Ok(Some(LexItem::Symbol(Value::Str(w))))
                    }
                } else {
                    Err(LexError { position: self.position, character: c })
                }
            },
        }
    }

    /// Turns the whole input into its token sequence, or reports the first
    /// character that starts no token.
    pub fn tokenize(&mut self) -> (r: Result<Vec<LexItem>, LexError>)
        requires
            old(self).wf(),
        ensures
            final(self).wf(),
            final(self).spec_input() == old(self).spec_input(),
            match r {
                Ok(v) => spec_lex_from(old(self).spec_input(), old(self).spec_position()) == Ok::<
                    _,
                    int,
                >(spec_tokens_of(v@)),
                Err(e) => spec_lex_from(old(self).spec_input(), old(self).spec_position()) == Err::<
                    Seq<SpecToken>,
                    _,
                >(e.position as int) && e.character == old(self).spec_input()[e.position as int],
            },
    {
        let ghost s = self.spec_input();
        let ghost p0 = self.spec_position();
        let mut tokens: Vec<LexItem> = Vec::new();
        loop
            invariant
                self.wf(),
                self.spec_input() == s,
                s == old(self).spec_input(),
                0 <= p0 <= self.spec_position(),
                p0 == old(self).spec_position(),
                match spec_lex_from(s, self.spec_position()) {
                    Ok(ts) => spec_lex_from(s, p0) == Ok::<_, int>(spec_tokens_of(tokens@) + ts),
                    Err(e) => spec_lex_from(s, p0) == Err::<Seq<SpecToken>, int>(e),
                },
            decreases s.len() - self.spec_position(),
        {
            let ghost p = self.spec_position();
            match self.next_token() {
                Err(e) => {
                    return Err(e);
                },
                Ok(None) => {
                    proof {
                        assert(spec_lex_from(s, p) == Ok::<_, int>(Seq::<SpecToken>::empty()));
                        assert(spec_tokens_of(tokens@) + Seq::<SpecToken>::empty() =~= spec_tokens_of(
                            tokens@,
                        ));
                    }
                    return Ok(tokens);
                },
                Ok(Some(t)) => {
                    proof {
                        lemma_next_token_progress(s, p);
                    }
                    let ghost q = self.spec_position();
                    let ghost prefix = spec_tokens_of(tokens@);
                    tokens.push(t);
                    proof {
                        assert(spec_tokens_of(tokens@) =~= prefix.push(t@));
                        match spec_lex_from(s, q) {
                            Ok(ts) => {
                                assert(spec_lex_from(s, p) == Ok::<_, int>(seq![t@] + ts));
                                assert(prefix + (seq![t@] + ts) =~= prefix.push(t@) + ts);
                            },
                            Err(_) => {},
                        }
                    }
                },
            }
        }
    }
}

} // verus!
