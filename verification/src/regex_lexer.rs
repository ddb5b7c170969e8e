//! Tokenizer: turns a pattern string into a stream of [`RegexToken`]s.
//!
//! The executable lexer is specified against [`spec_token_at`], a mathematical
//! tokenizer: given the pattern characters and a cursor position it says which
//! token begins there, where the next token begins, and which malformed inputs
//! produce which [`LexError`].

use vstd::prelude::*;
use vstd::string::StrSliceExecFns;

verus! {

/// A single token of the pattern language.
#[derive(Debug, Clone, Copy, PartialEq, Eq)]
pub enum RegexToken {
    /// Literal char in pattern
    Literal(char),
    /// `\d` in pattern
    Digit,
    /// `\w` in pattern
    AlphaNum,
    /// Quantifier: `?`, `*`, `+`, `{x}`, `{x,y}` or `{x,}`
    Quantifier {
        min: usize,
        /// `None` stands for an unbounded repetition
        max: Option<usize>,
    },
    /// `(`
    LParen,
    /// `)`
    RParen,
    /// `[`
    LBracket,
    /// `]`
    RBracket,
    /// `|`
    Pipe,
    /// End of input
    Eof,
    /// `\15`
    BackRef(usize),
    /// `^`
    StartAnchor,
    /// `$`
    EndAnchor,
    /// `.`
    Wildcard,
}

/// A lexical error, carrying the offending position in the pattern
/// (an index into the pattern's character sequence).
#[derive(Debug, Clone, Copy, PartialEq, Eq)]
pub enum LexError {
    /// A brace quantifier that does not follow `{m}`, `{m,}` or `{m,n}`.
    MalformedBrace { pos: usize },
    /// An escape whose target is not `w`, `d`, a digit or punctuation.
    UnsupportedEscape { pos: usize },
    /// A digit was required at this position but none stands there.
    ExpectedDigit { pos: usize },
    /// A numeric bound that does not fit in `usize`.
    NumberTooLarge { pos: usize },
}

/// `c` is an ASCII decimal digit.
pub open spec fn is_digit_char(c: char) -> bool {
    48 <= c as u32 && c as u32 <= 57
}

/// `c` is an ASCII letter, digit or underscore (the `\w` class).
pub open spec fn is_word_char(c: char) -> bool {
    ||| is_digit_char(c)
    ||| 65 <= c as u32 && c as u32 <= 90
    ||| 97 <= c as u32 && c as u32 <= 122
    ||| c == '_'
}

/// `c` is an ASCII punctuation character (the escapable literals).
pub open spec fn is_punct_char(c: char) -> bool {
    ||| 33 <= c as u32 && c as u32 <= 47
    ||| 58 <= c as u32 && c as u32 <= 64
    ||| 91 <= c as u32 && c as u32 <= 96
    ||| 123 <= c as u32 && c as u32 <= 126
}

/// Numeric value of a digit character.
pub open spec fn digit_value(c: char) -> int {
    c as u32 - 48
}

/// Length of the maximal run of digit characters starting at `p`.
pub open spec fn digit_run_len(s: Seq<char>, p: int) -> nat
    decreases s.len() - p,
{
    if p < 0 || p >= s.len() || !is_digit_char(s[p]) {
        0
    } else {
        1 + digit_run_len(s, p + 1)
    }
}

/// Value of the `k` digit characters `s[p .. p + k]` read in base ten.
pub open spec fn decimal_value(s: Seq<char>, p: int, k: nat) -> int
    decreases k,
{
    if k == 0 {
        0
    } else {
        decimal_value(s, p, (k - 1) as nat) * 10 + digit_value(s[p + k - 1])
    }
}

/// Value of the maximal digit run starting at `p`.
pub open spec fn number_value(s: Seq<char>, p: int) -> int {
    decimal_value(s, p, digit_run_len(s, p))
}

/// A digit run lies within the pattern and consists of digits.
pub proof fn lemma_run_in_bounds(s: Seq<char>, p: int)
    requires
        0 <= p <= s.len(),
    ensures
        p + digit_run_len(s, p) <= s.len(),
        forall|j: int| 0 <= j < digit_run_len(s, p) ==> is_digit_char(#[trigger] s[p + j]),
    decreases s.len() - p,
{
    if p < s.len() && is_digit_char(s[p]) {
        lemma_run_in_bounds(s, p + 1);
        assert forall|j: int| 0 <= j < digit_run_len(s, p) implies is_digit_char(
            #[trigger] s[p + j],
        ) by {
            if j > 0 {
                assert(is_digit_char(s[(p + 1) + (j - 1)]));
            }
        }
    }
}

/// The token beginning at position `p + 1` when `s[p]` is a backslash:
/// `\w`, `\d`, `\<number>` (a back-reference) or an escaped punctuation
/// literal.  Returns the token and the position just after it.
pub open spec fn spec_escape_at(s: Seq<char>, p: int) -> Result<(RegexToken, int), LexError> {
    if p + 1 >= s.len() {
        Err(LexError::UnsupportedEscape { pos: (p + 1) as usize })
    } else {
        let c = s[p + 1];
        if c == 'w' {
            Ok((RegexToken::AlphaNum, p + 2))
        } else if c == 'd' {
            Ok((RegexToken::Digit, p + 2))
        } else if is_digit_char(c) {
            if number_value(s, p + 1) <= usize::MAX {
                Ok(
                    (
                        RegexToken::BackRef(number_value(s, p + 1) as usize),
                        p + 1 + digit_run_len(s, p + 1),
                    ),
                )
            } else {
                Err(LexError::NumberTooLarge { pos: (p + 1) as usize })
            }
        } else if is_punct_char(c) {
            Ok((RegexToken::Literal(c), p + 2))
        } else {
            Err(LexError::UnsupportedEscape { pos: (p + 1) as usize })
        }
    }
}

/// The brace quantifier beginning at position `p` when `s[p]` is `{`:
/// `{m}`, `{m,}` or `{m,n}`.  Returns the token and the position just after
/// the closing brace; any other shape is a lexical error.
pub open spec fn spec_brace_at(s: Seq<char>, p: int) -> Result<(RegexToken, int), LexError> {
    if digit_run_len(s, p + 1) == 0 {
        Err(LexError::ExpectedDigit { pos: (p + 1) as usize })
    } else if number_value(s, p + 1) > usize::MAX {
        Err(LexError::NumberTooLarge { pos: (p + 1) as usize })
    } else {
        let min = number_value(s, p + 1) as usize;
        let q = p + 1 + digit_run_len(s, p + 1);
        if q >= s.len() {
            Err(LexError::MalformedBrace { pos: q as usize })
        } else if s[q] == '}' {
            Ok((RegexToken::Quantifier { min, max: Some(min) }, q + 1))
        } else if s[q] == ',' {
            if q + 1 < s.len() && s[q + 1] == '}' {
                Ok((RegexToken::Quantifier { min, max: None }, q + 2))
            } else if digit_run_len(s, q + 1) == 0 {
                Err(LexError::ExpectedDigit { pos: (q + 1) as usize })
            } else if number_value(s, q + 1) > usize::MAX {
                Err(LexError::NumberTooLarge { pos: (q + 1) as usize })
            } else {
                let mx = number_value(s, q + 1) as usize;
                let q2 = q + 1 + digit_run_len(s, q + 1);
                if q2 < s.len() && s[q2] == '}' {
                    Ok((RegexToken::Quantifier { min, max: Some(mx) }, q2 + 1))
                } else {
                    Err(LexError::MalformedBrace { pos: q2 as usize })
                }
            }
        } else {
            Err(LexError::MalformedBrace { pos: q as usize })
        }
    }
}

/// The mathematical tokenizer: the token beginning at position `p` of the
/// pattern `s`, together with the position just after it.  Past the end of
/// the pattern the token is `Eof`, at position `s.len()`, forever.
pub open spec fn spec_token_at(s: Seq<char>, p: int) -> Result<(RegexToken, int), LexError> {
    if p < 0 || p >= s.len() {
        Ok((RegexToken::Eof, s.len() as int))
    } else {
        let c = s[p];
        if c == '|' {
            Ok((RegexToken::Pipe, p + 1))
        } else if c == '(' {
            Ok((RegexToken::LParen, p + 1))
        } else if c == ')' {
            Ok((RegexToken::RParen, p + 1))
        } else if c == '[' {
            Ok((RegexToken::LBracket, p + 1))
        } else if c == ']' {
            Ok((RegexToken::RBracket, p + 1))
        } else if c == '^' {
            Ok((RegexToken::StartAnchor, p + 1))
        } else if c == '$' {
            Ok((RegexToken::EndAnchor, p + 1))
        } else if c == '.' {
            Ok((RegexToken::Wildcard, p + 1))
        } else if c == '*' {
            Ok((RegexToken::Quantifier { min: 0usize, max: None }, p + 1))
        } else if c == '+' {
            Ok((RegexToken::Quantifier { min: 1usize, max: None }, p + 1))
        } else if c == '?' {
            Ok((RegexToken::Quantifier { min: 0usize, max: Some(1usize) }, p + 1))
        } else if c == '\\' {
            spec_escape_at(s, p)
        } else if c == '{' {
            spec_brace_at(s, p)
        } else {
            Ok((RegexToken::Literal(c), p + 1))
        }
    }
}

/// Transforms the pattern into a stream of tokens, one call at a time,
/// over a single forward cursor with one-character lookahead.
#[derive(Debug)]
pub struct RegexLexer {
    /// pattern string as a vec of chars, so that the cursor can move by
    /// character even for a non-ASCII pattern
    chars: Vec<char>,
    /// current position in input (points to current char; equal to the
    /// length once the input is exhausted)
    position: usize,
}

impl RegexLexer {
    /// The pattern, as a sequence of characters.
    pub closed spec fn pattern(&self) -> Seq<char> {
        self.chars@
    }

    /// The cursor: index of the current character.
    pub closed spec fn pos(&self) -> int {
        self.position as int
    }

    /// The cursor never leaves the pattern (position == length means
    /// the input is exhausted), and the pattern is addressable.
    pub open spec fn wf(&self) -> bool {
        0 <= self.pos() <= self.pattern().len() <= usize::MAX
    }

    /// The character under the cursor, `None` once the input is exhausted.
    pub open spec fn cur(&self) -> Option<char> {
        if self.pos() < self.pattern().len() {
            Some(self.pattern()[self.pos()])
        } else {
            None
        }
    }

    pub fn new(input: &str) -> (r: Self)
        ensures
            r.wf(),
            r.pattern() == input@,
            r.pos() == 0,
    {
        let n = input.unicode_len();
        let mut chars: Vec<char> = Vec::new();
        let mut i: usize = 0;
        while i < n
            invariant
                n == input@.len(),
                0 <= i <= n,
                chars@ == input@.subrange(0, i as int),
            decreases n - i,
        {
            chars.push(input.get_char(i));
            i = i + 1;
            proof {
                assert(chars@ =~= input@.subrange(0, i as int));
            }
        }
        proof {
            assert(chars@ =~= input@);
        }
        RegexLexer { chars, position: 0 }
    }

    /// Advance the cursor by one character (no effect once exhausted).
    pub fn read_char(&mut self)
        requires
            old(self).wf(),
        ensures
            final(self).wf(),
            final(self).pattern() == old(self).pattern(),
            final(self).pos() == if old(self).pos() < old(self).pattern().len() {
                old(self).pos() + 1
            } else {
                old(self).pos()
            },
    {
        if self.position < self.chars.len() {
            self.position = self.position + 1;
        }
    }

    /// The character just after the cursor, without moving it.
    pub fn peek_char(&self) -> (r: Option<char>)
        requires
            self.wf(),
        ensures
            r == if self.pos() + 1 < self.pattern().len() {
                Some(self.pattern()[self.pos() + 1])
            } else {
                None::<char>
            },
    {
        if self.position < self.chars.len() && self.position + 1 < self.chars.len() {
            Some(self.chars[self.position + 1])
        } else {
            None
        }
    }

    /// The character under the cursor, `None` once the input is exhausted.
    fn cur_char(&self) -> (r: Option<char>)
        requires
            self.wf(),
        ensures
            r == self.cur(),
    {
        if self.position < self.chars.len() {
            Some(self.chars[self.position])
        } else {
            None
        }
    }

    /// Read the maximal run of digits beginning at the cursor and leave the
    /// cursor on the run's last digit.  Fails if no digit stands at the
    /// cursor or if the value does not fit in `usize`.
    pub fn read_number(&mut self) -> (r: Result<usize, LexError>)
        requires
            old(self).wf(),
        ensures
            final(self).wf(),
            final(self).pattern() == old(self).pattern(),
            ({
                let s = old(self).pattern();
                let p = old(self).pos();
                let k = digit_run_len(s, p);
                if k == 0 {
                    r == Err::<usize, LexError>(LexError::ExpectedDigit { pos: p as usize })
                        && final(self).pos() == p
                } else if number_value(s, p) > usize::MAX {
                    r == Err::<usize, LexError>(LexError::NumberTooLarge { pos: p as usize })
                        && final(self).pos() == p + k - 1
                } else {
                    r == Ok::<usize, LexError>(number_value(s, p) as usize) && final(self).pos()
                        == p + k - 1
                }
            }),
    {
        let ghost s = self.chars@;
        let ghost p0 = self.pos();
        let start = self.position;
        let first_is_digit = match self.cur_char() {
            Some(c) => {
                let u = c as u32;
                48 <= u && u <= 57
            },
            None => false,
        };
        if !first_is_digit {
            return Err(LexError::ExpectedDigit { pos: start });
        }
        let mut acc: usize = 0;
        let mut overflow: bool = false;
        let ghost mut i: int = 0;
        loop
            invariant_except_break
                !overflow ==> acc == decimal_value(s, p0, i as nat),
                overflow ==> decimal_value(s, p0, i as nat) > usize::MAX,
            invariant
                self.wf(),
                self.pattern() == s,
                0 <= p0,
                i >= 0,
                self.pos() == p0 + i,
                p0 + i < s.len(),
                is_digit_char(s[p0 + i]),
                digit_run_len(s, p0) == i + 1 + digit_run_len(s, p0 + i + 1),
            ensures
                self.wf(),
                self.pattern() == s,
                digit_run_len(s, p0) >= 1,
                self.pos() == p0 + digit_run_len(s, p0) - 1,
                !overflow ==> acc == number_value(s, p0),
                overflow ==> number_value(s, p0) > usize::MAX,
            decreases s.len() - p0 - i,
        {
            let c = self.chars[self.position];
            let d: usize = ((c as u32) - 48) as usize;
            proof {
                assert(c == s[p0 + i]);
                assert(0 <= d <= 9);
                assert(d == digit_value(s[p0 + i]));
                assert(decimal_value(s, p0, (i + 1) as nat) == decimal_value(s, p0, i as nat) * 10
                    + digit_value(s[p0 + i]));
            }
            if !overflow {
                if acc <= (usize::MAX - d) / 10 {
                    proof {
                        vstd::arithmetic::div_mod::lemma_fundamental_div_mod(
                            (usize::MAX - d) as int,
                            10,
                        );
                        assert(10 * (acc as int) <= 10 * (((usize::MAX - d) / 10) as int));
                        assert((acc as int) * 10 + d <= usize::MAX);
                    }
                    acc = acc * 10 + d;
                    proof {
                        assert(acc == decimal_value(s, p0, (i + 1) as nat));
                    }
                } else {
                    proof {
                        vstd::arithmetic::div_mod::lemma_fundamental_div_mod(
                            (usize::MAX - d) as int,
                            10,
                        );
                        assert((acc as int) * 10 + d > usize::MAX);
                    }
                    overflow = true;
                    proof {
                        assert(decimal_value(s, p0, (i + 1) as nat) > usize::MAX);
                    }
                }
            } else {
                proof {
                    let prev = decimal_value(s, p0, i as nat);
                    assert(prev * 10 > usize::MAX) by (nonlinear_arith)
                        requires
                            prev > usize::MAX,
                    ;
                    assert(decimal_value(s, p0, (i + 1) as nat) > usize::MAX);
                }
            }
            let peek_is_digit = match self.peek_char() {
                Some(c2) => {
                    let u2 = c2 as u32;
                    48 <= u2 && u2 <= 57
                },
                None => false,
            };
            if peek_is_digit {
                self.read_char();
                proof {
                    i = i + 1;
                }
            } else {
                proof {
                    assert(digit_run_len(s, p0 + i + 1) == 0);
                    assert(digit_run_len(s, p0) == i + 1);
                }
                break ;
            }
        }
        if overflow {
            Err(LexError::NumberTooLarge { pos: start })
        } else {
            Ok(acc)
        }
    }

    /// Read a `{m}` / `{m,}` / `{m,n}` quantifier.  On entry the cursor is on
    /// the opening brace; on success it is left on the closing brace.
    pub fn read_brace_quantifier(&mut self) -> (r: Result<RegexToken, LexError>)
        requires
            old(self).wf(),
            old(self).cur() == Some('{'),
        ensures
            final(self).wf(),
            final(self).pattern() == old(self).pattern(),
            match spec_brace_at(old(self).pattern(), old(self).pos()) {
                Ok((t, q)) => r == Ok::<RegexToken, LexError>(t) && final(self).pos() == q - 1,
                Err(e) => r == Err::<RegexToken, LexError>(e),
            },
    {
        let ghost s = self.pattern();
        let ghost p = self.pos();
        self.read_char();
        let min = match self.read_number() {
            Ok(n) => n,
            Err(e) => {
                return Err(e);
            },
        };
        proof {
            lemma_run_in_bounds(s, p + 1);
        }
        self.read_char();
        let max: Option<usize>;
        match self.cur_char() {
            Some('}') => {
                max = Some(min);
            },
            Some(',') => {
                if let Some('}') = self.peek_char() {
                    max = None;
                    self.read_char();
                } else {
                    self.read_char();
                    let ghost q1 = self.pos();
                    max = match self.read_number() {
                        Ok(n) => Some(n),
                        Err(e) => {
                            return Err(e);
                        },
                    };
                    proof {
                        lemma_run_in_bounds(s, q1);
                    }
                    self.read_char();
                    match self.cur_char() {
                        Some('}') => {},
                        _ => {
                            return Err(LexError::MalformedBrace { pos: self.position });
                        },
                    }
                }
            },
            _ => {
                return Err(LexError::MalformedBrace { pos: self.position });
            },
        }
        Ok(RegexToken::Quantifier { min, max })
    }

    /// Read the token beginning at the cursor and advance past it; past the
    /// end of the pattern the token is `Eof`, forever.
    pub fn next_token(&mut self) -> (r: Result<RegexToken, LexError>)
        requires
            old(self).wf(),
        ensures
            final(self).wf(),
            final(self).pattern() == old(self).pattern(),
            match spec_token_at(old(self).pattern(), old(self).pos()) {
                Ok((t, q)) => r == Ok::<RegexToken, LexError>(t) && final(self).pos() == q,
                Err(e) => r == Err::<RegexToken, LexError>(e),
            },
    {
        let tok = match self.cur_char() {
            None => RegexToken::Eof,
            Some(c) => match c {
                '|' => RegexToken::Pipe,
                '(' => RegexToken::LParen,
                ')' => RegexToken::RParen,
                '[' => RegexToken::LBracket,
                ']' => RegexToken::RBracket,
                '^' => RegexToken::StartAnchor,
                '$' => RegexToken::EndAnchor,
                '.' => RegexToken::Wildcard,
                '*' => RegexToken::Quantifier { min: 0, max: None },
                '+' => RegexToken::Quantifier { min: 1, max: None },
                '?' => RegexToken::Quantifier { min: 0, max: Some(1) },
                '\\' => {
                    let epos = if self.position < self.chars.len() {
                        self.position + 1
                    } else {
                        self.position
                    };
                    match self.peek_char() {
                        Some('w') => {
                            self.read_char();
                            RegexToken::AlphaNum
                        },
                        Some('d') => {
                            self.read_char();
                            RegexToken::Digit
                        },
                        Some(x) => {
                            let u = x as u32;
                            if 48 <= u && u <= 57 {
                                let ghost s = self.pattern();
                                self.read_char();
                                let ghost q1 = self.pos();
                                let num = match self.read_number() {
                                    Ok(n) => n,
                                    Err(e) => {
                                        return Err(e);
                                    },
                                };
                                proof {
                                    lemma_run_in_bounds(s, q1);
                                }
                                RegexToken::BackRef(num)
                            } else if (33 <= u && u <= 47) || (58 <= u && u <= 64) || (91 <= u && u
                                <= 96) || (123 <= u && u <= 126) {
                                self.read_char();
                                RegexToken::Literal(x)
                            } else {
                                return Err(LexError::UnsupportedEscape { pos: epos });
                            }
                        },
                        None => {
                            return Err(LexError::UnsupportedEscape { pos: epos });
                        },
                    }
                },
                '{' => match self.read_brace_quantifier() {
                    Ok(t) => t,
                    Err(e) => {
                        return Err(e);
                    },
                },
                x => RegexToken::Literal(x),
            },
        };
        self.read_char();
        Ok(tok)
    }
}

} // verus!
