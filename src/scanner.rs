use vstd::prelude::*;
use crate::token::{Kind, Token, TokenType};
use vstd::string::StringSliceAdditionalSpecFns;
use crate::text::push_char;

verus! {

pub open spec fn is_alpha(b: u8) -> bool {
    (('a' as u8) <= b && b <= ('z' as u8)) || (('A' as u8) <= b && b <= ('Z' as u8)) || b == ('_' as u8)
}

pub open spec fn is_digit(b: u8) -> bool {
    ('0' as u8) <= b && b <= ('9' as u8)
}

pub open spec fn is_ident_byte(b: u8) -> bool {
    is_alpha(b) || is_digit(b)
}

/// Bytes skipped between lexemes without a line break.
pub open spec fn is_blank(b: u8) -> bool {
    b == (' ' as u8) || b == ('\r' as u8) || b == ('\t' as u8)
}

/// End of the run of identifier bytes that starts at `i`.
pub open spec fn ident_end(s: Seq<u8>, i: int) -> int
    decreases s.len() - i,
{
    if 0 <= i < s.len() && is_ident_byte(s[i]) {
        ident_end(s, i + 1)
    } else {
        i
    }
}

/// End of the run of digits and decimal points that starts at `i`.
pub open spec fn number_end(s: Seq<u8>, i: int) -> int
    decreases s.len() - i,
{
    if 0 <= i < s.len() && (is_digit(s[i]) || s[i] == ('.' as u8)) {
        number_end(s, i + 1)
    } else {
        i
    }
}

/// Index of the first `b` at or after `i`, or the length if there is none.
pub open spec fn find(s: Seq<u8>, i: int, b: u8) -> int
    decreases s.len() - i,
{
    if 0 <= i < s.len() && s[i] != b {
        find(s, i + 1, b)
    } else if i < s.len() {
        i
    } else {
        s.len() as int
    }
}

/// Number of newline bytes in `s[i..j]`.
pub open spec fn newlines(s: Seq<u8>, i: int, j: int) -> nat
    decreases j - i,
{
    if j <= i {
        0
    } else {
        newlines(s, i, j - 1) + if s[j - 1] == ('\n' as u8) {
            1nat
        } else {
            0nat
        }
    }
}

/// Where the next lexeme starts, and the line there, after skipping
/// whitespace and comments from `i` (inside a comment when `in_comment`).
pub open spec fn skip(s: Seq<u8>, i: int, line: nat, in_comment: bool) -> (int, nat)
    decreases s.len() - i,
{
    if 0 <= i < s.len() {
        let b = s[i];
        if in_comment {
            if b == ('\n' as u8) {
                skip(s, i + 1, line + 1, false)
            } else {
                skip(s, i + 1, line, true)
            }
        } else if is_blank(b) {
            skip(s, i + 1, line, false)
        } else if b == ('\n' as u8) {
            skip(s, i + 1, line + 1, false)
        } else if b == ('#' as u8) {
            skip(s, i + 1, line, true)
        } else {
            (i, line)
        }
    } else {
        (i, line)
    }
}

/// The reserved word that `w` spells, or `Identifier`.
pub open spec fn keyword_kind(w: Seq<u8>) -> TokenType {
    if w == seq![('a' as u8), ('n' as u8), ('d' as u8)] {
        TokenType::And
    } else if w == seq![('c' as u8), ('l' as u8), ('a' as u8), ('s' as u8), ('s' as u8)] {
        TokenType::Class
    } else if w == seq![('e' as u8), ('l' as u8), ('s' as u8), ('e' as u8)] {
        TokenType::Else
    } else if w == seq![('f' as u8), ('a' as u8), ('l' as u8), ('s' as u8), ('e' as u8)] {
        TokenType::False
    } else if w == seq![('f' as u8), ('o' as u8), ('r' as u8)] {
        TokenType::For
    } else if w == seq![('f' as u8), ('u' as u8), ('n' as u8)] {
        TokenType::Fun
    } else if w == seq![('i' as u8), ('f' as u8)] {
        TokenType::If
    } else if w == seq![('n' as u8), ('i' as u8), ('l' as u8)] {
        TokenType::Nil
    } else if w == seq![('o' as u8), ('r' as u8)] {
        TokenType::Or
    } else if w == seq![('p' as u8), ('r' as u8), ('i' as u8), ('n' as u8), ('t' as u8)] {
        TokenType::Print
    } else if w == seq![('r' as u8), ('e' as u8), ('t' as u8), ('u' as u8), ('r' as u8), ('n' as u8)] {
        TokenType::Return
    } else if w == seq![('s' as u8), ('u' as u8), ('p' as u8), ('e' as u8), ('r' as u8)] {
        TokenType::Super
    } else if w == seq![('t' as u8), ('h' as u8), ('i' as u8), ('s' as u8)] {
        TokenType::This
    } else if w == seq![('t' as u8), ('r' as u8), ('u' as u8), ('e' as u8)] {
        TokenType::True
    } else if w == seq![('v' as u8), ('a' as u8), ('r' as u8)] {
        TokenType::Var
    } else if w == seq![('w' as u8), ('h' as u8), ('i' as u8), ('l' as u8), ('e' as u8)] {
        TokenType::While
    } else {
        TokenType::Identifier
    }
}

/// Decodes bytes one for one into the characters U+0000 to U+00FF.
pub open spec fn latin1(b: Seq<u8>) -> Seq<char> {
    b.map_values(|x: u8| x as char)
}

/// The kind for a lexeme that is one byte `b`, or two when `b` is followed
/// by `=` and forms a compound operator.
pub open spec fn operator_kind(b: u8, eq_next: bool) -> Option<TokenType> {
    if b == ('(' as u8) {
        Some(TokenType::LeftParen)
    } else if b == (')' as u8) {
        Some(TokenType::RightParen)
    } else if b == ('{' as u8) {
        Some(TokenType::LeftBrace)
    } else if b == ('}' as u8) {
        Some(TokenType::RightBrace)
    } else if b == (';' as u8) {
        Some(TokenType::Semicolon)
    } else if b == (',' as u8) {
        Some(TokenType::Comma)
    } else if b == ('-' as u8) {
        Some(TokenType::Minus)
    } else if b == ('+' as u8) {
        Some(TokenType::Plus)
    } else if b == ('/' as u8) {
        Some(TokenType::Slash)
    } else if b == ('*' as u8) {
        Some(TokenType::Star)
    } else if b == ('!' as u8) {
        Some(if eq_next { TokenType::BangEqual } else { TokenType::Bang })
    } else if b == ('=' as u8) {
        Some(if eq_next { TokenType::EqualEqual } else { TokenType::Equal })
    } else if b == ('<' as u8) {
        Some(if eq_next { TokenType::LessEqual } else { TokenType::Less })
    } else if b == ('>' as u8) {
        Some(if eq_next { TokenType::GreaterEqual } else { TokenType::Greater })
    } else {
        None
    }
}

pub open spec fn is_compound_head(b: u8) -> bool {
    b == ('!' as u8) || b == ('=' as u8) || b == ('<' as u8) || b == ('>' as u8)
}

/// The lexeme that starts at `p` (a byte that is neither whitespace nor a
/// comment marker), on line `line`: its kind, its end, and the line after it.
pub open spec fn lex_at(s: Seq<u8>, p: int, line: nat) -> (Kind, int, nat) {
    let b = s[p];
    let eq_next = p + 1 < s.len() && s[p + 1] == ('=' as u8);
    if operator_kind(b, eq_next) is Some {
        let two = is_compound_head(b) && eq_next;
        (Kind::Plain(operator_kind(b, eq_next)->0), if two { p + 2 } else { p + 1 }, line)
    } else if is_alpha(b) {
        let e = ident_end(s, p + 1);
        (Kind::Plain(keyword_kind(s.subrange(p, e))), e, line)
    } else if is_digit(b) {
        (Kind::Plain(TokenType::Number), number_end(s, p + 1), line)
    } else if b == ('"' as u8) {
        let q = find(s, p + 1, ('"' as u8));
        if q < s.len() {
            (Kind::Text(latin1(s.subrange(p + 1, q + 1))), q + 1, line + newlines(s, p + 1, q))
        } else {
            (Kind::Fault("Unterminated string"@), s.len() as int, line + newlines(s, p + 1, q))
        }
    } else {
        (Kind::Fault("Unknown token"@), p + 1, line)
    }
}

/// The token that scanning from `cur` on line `line` yields: its kind, the
/// start and end of its lexeme, and the line after it.
pub open spec fn next_token(s: Seq<u8>, cur: int, line: nat) -> (Kind, int, int, nat) {
    let (p, l) = skip(s, cur, line, false);
    if p < s.len() {
        let (k, e, l2) = lex_at(s, p, l);
        (k, p, e, l2)
    } else {
        (Kind::Plain(TokenType::Eof), p, p, l)
    }
}

/// The positional state of a scanner over its source bytes.
pub struct ScannerView {
    pub src: Seq<u8>,
    pub start: nat,
    pub current: nat,
    pub line: nat,
}

/// Pulls tokens one at a time from a borrowed source text.
pub struct Scanner<'a> {
    source: &'a [u8],
    start: usize,
    current: usize,
    line: usize,
}

impl<'a> View for Scanner<'a> {
    type V = ScannerView;

    closed spec fn view(&self) -> ScannerView {
        ScannerView {
            src: self.source@,
            start: self.start as nat,
            current: self.current as nat,
            line: self.line as nat,
        }
    }
}

impl<'a> Scanner<'a> {
    pub closed spec fn wf(&self) -> bool {
        &&& self.source@.len() < usize::MAX
        &&& self.start <= self.current <= self.source@.len()
        &&& 1 <= self.line <= self.current + 1
    }

    /// Initialises the scanner at the start of `source`, on line 1.
    pub fn init(source: &'a str) -> (r: Scanner<'a>)
        requires
            source.spec_bytes().len() < usize::MAX,
        ensures
            r.wf(),
            r@ == (ScannerView { src: source.spec_bytes(), start: 0, current: 0, line: 1 }),
            r@.current <= r@.src.len(),
    {
        Scanner { source: source.as_bytes(), start: 0, current: 0, line: 1 }
    }

    /// Moves the cursor past whitespace and comments, counting the lines
    /// they end; the next lexeme starts where the cursor stops.
    fn skip_trivia(&mut self)
        requires
            old(self).wf(),
            old(self).start == old(self).current,
        ensures
            final(self).wf(),
            final(self).source == old(self).source,
            final(self).start == final(self).current,
            (final(self).current as int, final(self).line as nat) == skip(
                old(self).source@,
                old(self).current as int,
                old(self).line as nat,
                false,
            ),
    {
        let n = self.source.len();
        let mut in_comment = false;
        loop
            invariant
                self.wf(),
                self.source == old(self).source,
                n == self.source@.len(),
                self.start == self.current,
                skip(self.source@, self.current as int, self.line as nat, in_comment) == skip(
                    old(self).source@,
                    old(self).current as int,
                    old(self).line as nat,
                    false,
                ),
            ensures
                self.wf(),
                self.source == old(self).source,
                self.start == self.current,
                (self.current as int, self.line as nat) == skip(
                    old(self).source@,
                    old(self).current as int,
                    old(self).line as nat,
                    false,
                ),
            decreases n - self.current,
        {
            if self.current >= n {
                break;
            }
            let b = self.source[self.current];
            if in_comment {
                self.current = self.current + 1;
                self.start = self.start + 1;
                if b == ('\n' as u8) {
                    self.line = self.line + 1;
                    in_comment = false;
                }
            } else if is_blank_byte(b) {
                self.current = self.current + 1;
                self.start = self.start + 1;
            } else if b == ('\n' as u8) {
                self.current = self.current + 1;
                self.start = self.start + 1;
                self.line = self.line + 1;
            } else if b == ('#' as u8) {
                self.current = self.current + 1;
                self.start = self.start + 1;
                in_comment = true;
            } else {
                break;
            }
        }
    }

    /// Consumes the rest of an identifier whose first byte was just consumed,
    /// and classifies it.
    fn scan_identifier(&mut self) -> (r: TokenType)
        requires
            old(self).wf(),
            old(self).start < old(self).current,
        ensures
            final(self).wf(),
            final(self).source == old(self).source,
            final(self).start == old(self).start,
            final(self).line == old(self).line,
            final(self).current == ident_end(old(self).source@, old(self).current as int),
            r == keyword_kind(
                old(self).source@.subrange(old(self).start as int, final(self).current as int),
            ),
    {
        let n = self.source.len();
        while self.current < n && is_ident_byte_exec(self.source[self.current])
            invariant
                self.wf(),
                self.source == old(self).source,
                n == self.source@.len(),
                self.start == old(self).start,
                self.line == old(self).line,
                old(self).current <= self.current,
                ident_end(self.source@, self.current as int) == ident_end(
                    self.source@,
                    old(self).current as int,
                ),
            decreases n - self.current,
        {
            self.current = self.current + 1;
        }
        Self::make_identifier(self.source, self.start, self.current)
    }

    /// Classifies the lexeme `w[start..end]` as a reserved word or a plain
    /// identifier: dispatch on its first one or two bytes, then compare the
    /// length and the remaining bytes exactly.
    fn make_identifier(w: &[u8], start: usize, end: usize) -> (r: TokenType)
        requires
            start < end <= w@.len(),
        ensures
            r == keyword_kind(w@.subrange(start as int, end as int)),
    {
        let len = end - start;
        let c0 = w[start];
        let ghost lexeme = w@.subrange(start as int, end as int);
        let r = if c0 == ('a' as u8) {
                if len == 3 && w[start + 1] == ('n' as u8) && w[start + 2] == ('d' as u8) {
                    proof {
                        assert(lexeme =~= seq![('a' as u8), ('n' as u8), ('d' as u8)]);
                    }
                    TokenType::And
                } else {
                    TokenType::Identifier
                }
            } else if c0 == ('c' as u8) {
                if len == 5 && w[start + 1] == ('l' as u8) && w[start + 2] == ('a' as u8) && w[start + 3] == ('s' as u8) && w[start + 4] == ('s' as u8) {
                    proof {
                        assert(lexeme =~= seq![('c' as u8), ('l' as u8), ('a' as u8), ('s' as u8), ('s' as u8)]);
                    }
                    TokenType::Class
                } else {
                    TokenType::Identifier
                }
            } else if c0 == ('e' as u8) {
                if len == 4 && w[start + 1] == ('l' as u8) && w[start + 2] == ('s' as u8) && w[start + 3] == ('e' as u8) {
                    proof {
                        assert(lexeme =~= seq![('e' as u8), ('l' as u8), ('s' as u8), ('e' as u8)]);
                    }
                    TokenType::Else
                } else {
                    TokenType::Identifier
                }
            } else if c0 == ('f' as u8) {
                if len > 1 {
                    let c1 = w[start + 1];
                    if c1 == ('a' as u8) {
                        if len == 5 && w[start + 2] == ('l' as u8) && w[start + 3] == ('s' as u8) && w[start + 4] == ('e' as u8) {
                            proof {
                                assert(lexeme =~= seq![('f' as u8), ('a' as u8), ('l' as u8), ('s' as u8), ('e' as u8)]);
                            }
                            TokenType::False
                        } else {
                            TokenType::Identifier
                        }
                    } else if c1 == ('o' as u8) {
                        if len == 3 && w[start + 2] == ('r' as u8) {
                            proof {
                                assert(lexeme =~= seq![('f' as u8), ('o' as u8), ('r' as u8)]);
                            }
                            TokenType::For
                        } else {
                            TokenType::Identifier
                        }
                    } else if c1 == ('u' as u8) {
                        if len == 3 && w[start + 2] == ('n' as u8) {
                            proof {
                                assert(lexeme =~= seq![('f' as u8), ('u' as u8), ('n' as u8)]);
                            }
                            TokenType::Fun
                        } else {
                            TokenType::Identifier
                        }
                    } else {
                        TokenType::Identifier
                    }
                } else {
                    TokenType::Identifier
                }
            } else if c0 == ('i' as u8) {
                if len == 2 && w[start + 1] == ('f' as u8) {
                    proof {
                        assert(lexeme =~= seq![('i' as u8), ('f' as u8)]);
                    }
                    TokenType::If
                } else {
                    TokenType::Identifier
                }
            } else if c0 == ('n' as u8) {
                if len == 3 && w[start + 1] == ('i' as u8) && w[start + 2] == ('l' as u8) {
                    proof {
                        assert(lexeme =~= seq![('n' as u8), ('i' as u8), ('l' as u8)]);
                    }
                    TokenType::Nil
                } else {
                    TokenType::Identifier
                }
            } else if c0 == ('o' as u8) {
                if len == 2 && w[start + 1] == ('r' as u8) {
                    proof {
                        assert(lexeme =~= seq![('o' as u8), ('r' as u8)]);
                    }
                    TokenType::Or
                } else {
                    TokenType::Identifier
                }
            } else if c0 == ('p' as u8) {
                if len == 5 && w[start + 1] == ('r' as u8) && w[start + 2] == ('i' as u8) && w[start + 3] == ('n' as u8) && w[start + 4] == ('t' as u8) {
                    proof {
                        assert(lexeme =~= seq![('p' as u8), ('r' as u8), ('i' as u8), ('n' as u8), ('t' as u8)]);
                    }
                    TokenType::Print
                } else {
                    TokenType::Identifier
                }
            } else if c0 == ('r' as u8) {
                if len == 6 && w[start + 1] == ('e' as u8) && w[start + 2] == ('t' as u8) && w[start + 3] == ('u' as u8) && w[start + 4] == ('r' as u8) && w[start + 5] == ('n' as u8) {
                    proof {
                        assert(lexeme =~= seq![('r' as u8), ('e' as u8), ('t' as u8), ('u' as u8), ('r' as u8), ('n' as u8)]);
                    }
                    TokenType::Return
                } else {
                    TokenType::Identifier
                }
            } else if c0 == ('s' as u8) {
                if len == 5 && w[start + 1] == ('u' as u8) && w[start + 2] == ('p' as u8) && w[start + 3] == ('e' as u8) && w[start + 4] == ('r' as u8) {
                    proof {
                        assert(lexeme =~= seq![('s' as u8), ('u' as u8), ('p' as u8), ('e' as u8), ('r' as u8)]);
                    }
                    TokenType::Super
                } else {
                    TokenType::Identifier
                }
            } else if c0 == ('t' as u8) {
                if len > 1 {
                    let c1 = w[start + 1];
                    if c1 == ('h' as u8) {
                        if len == 4 && w[start + 2] == ('i' as u8) && w[start + 3] == ('s' as u8) {
                            proof {
                                assert(lexeme =~= seq![('t' as u8), ('h' as u8), ('i' as u8), ('s' as u8)]);
                            }
                            TokenType::This
                        } else {
                            TokenType::Identifier
                        }
                    } else if c1 == ('r' as u8) {
                        if len == 4 && w[start + 2] == ('u' as u8) && w[start + 3] == ('e' as u8) {
                            proof {
                                assert(lexeme =~= seq![('t' as u8), ('r' as u8), ('u' as u8), ('e' as u8)]);
                            }
                            TokenType::True
                        } else {
                            TokenType::Identifier
                        }
                    } else {
                        TokenType::Identifier
                    }
                } else {
                    TokenType::Identifier
                }
            } else if c0 == ('v' as u8) {
                if len == 3 && w[start + 1] == ('a' as u8) && w[start + 2] == ('r' as u8) {
                    proof {
                        assert(lexeme =~= seq![('v' as u8), ('a' as u8), ('r' as u8)]);
                    }
                    TokenType::Var
                } else {
                    TokenType::Identifier
                }
            } else if c0 == ('w' as u8) {
                if len == 5 && w[start + 1] == ('h' as u8) && w[start + 2] == ('i' as u8) && w[start + 3] == ('l' as u8) && w[start + 4] == ('e' as u8) {
                    proof {
                        assert(lexeme =~= seq![('w' as u8), ('h' as u8), ('i' as u8), ('l' as u8), ('e' as u8)]);
                    }
                    TokenType::While
                } else {
                    TokenType::Identifier
                }
            } else {
                TokenType::Identifier
        };
        proof {
            assert(lexeme.len() == len && lexeme[0] == c0);
            assert(forall|i: int| 0 <= i < len ==> lexeme[i] == w@[start + i]);
            assert(len > 1 ==> lexeme[1] == w@[start + 1]);
            assert(len > 2 ==> lexeme[2] == w@[start + 2]);
            assert(len > 3 ==> lexeme[3] == w@[start + 3]);
            assert(len > 4 ==> lexeme[4] == w@[start + 4]);
            assert(len > 5 ==> lexeme[5] == w@[start + 5]);
        }
        r
    }

    /// Consumes the rest of a number literal whose first digit was just
    /// consumed: digits and decimal points, as many as follow.
    fn scan_number(&mut self)
        requires
            old(self).wf(),
            old(self).start < old(self).current,
        ensures
            final(self).wf(),
            final(self).source == old(self).source,
            final(self).start == old(self).start,
            final(self).line == old(self).line,
            final(self).current == number_end(old(self).source@, old(self).current as int),
    {
        let n = self.source.len();
        while self.current < n && (is_digit_exec(self.source[self.current]) || self.source[self.current] == ('.' as u8))
            invariant
                self.wf(),
                self.source == old(self).source,
                n == self.source@.len(),
                self.start == old(self).start,
                self.line == old(self).line,
                old(self).current <= self.current,
                number_end(self.source@, self.current as int) == number_end(
                    self.source@,
                    old(self).current as int,
                ),
            decreases n - self.current,
        {
            self.current = self.current + 1;
        }
    }

    /// Consumes the rest of a string literal whose opening quote was just
    /// consumed, through the closing quote or to the end of the source.
    fn scan_string(&mut self) -> (r: TokenType)
        requires
            old(self).wf(),
            old(self).start < old(self).current,
        ensures
            final(self).wf(),
            final(self).source == old(self).source,
            final(self).start == old(self).start,
            ({
                let s = old(self).source@;
                let p1 = old(self).current as int;
                let q = find(s, p1, '"' as u8);
                &&& final(self).line == old(self).line + newlines(s, p1, q)
                &&& q < s.len() ==> final(self).current == q + 1 && r@ == Kind::Text(
                    latin1(s.subrange(p1, q + 1)),
                )
                &&& q >= s.len() ==> final(self).current == s.len() && r@ == Kind::Fault(
                    "Unterminated string"@,
                )
            }),
    {
        let n = self.source.len();
        let ghost s = self.source@;
        let ghost p1 = self.current as int;
        let mut text = String::new();
        while self.current < n
            invariant
                self.wf(),
                self.source == old(self).source,
                s == self.source@,
                n == s.len(),
                self.start == old(self).start,
                p1 == old(self).current,
                p1 <= self.current,
                find(s, p1, '"' as u8) == find(s, self.current as int, '"' as u8),
                self.line == old(self).line + newlines(s, p1, self.current as int),
                text@ == latin1(s.subrange(p1, self.current as int)),
            decreases n - self.current,
        {
            let c = self.current;
            let b = self.source[c];
            self.current = c + 1;
            push_char(&mut text, b as char);
            proof {
                let prev = s.subrange(p1, c as int);
                let next = s.subrange(p1, c as int + 1);
                assert(b == s[c as int]);
                assert(p1 <= c < s.len());
                assert(0 <= p1);
                assert(c <= s.len());
                assert(prev.len() == c - p1);
                assert(next.len() == c + 1 - p1);
                assert(next =~= prev.push(b));
                assert forall|i: int| 0 <= i < next.len() implies #[trigger] latin1(next)[i]
                    == latin1(prev).push(b as char)[i] by {
                    if i < prev.len() {
                        assert(next[i] == prev[i]);
                    }
                }
                assert(latin1(next) =~= latin1(prev).push(b as char));
            }
            if b == ('"' as u8) {
                return TokenType::String(text);
            }
            if b == ('\n' as u8) {
                self.line = self.line + 1;
            }
        }
        TokenType::Error("Unterminated string")
    }

    /// Scans the next token. Once the source is exhausted every call yields
    /// `Eof`.
    pub fn scan_token(&mut self) -> (t: Token)
        requires
            old(self).wf(),
        ensures
            final(self).wf(),
            final(self)@.src == old(self)@.src,
            final(self)@.start <= final(self)@.current <= final(self)@.src.len(),
            ({
                let (k, start, end, line) = next_token(
                    old(self)@.src,
                    old(self)@.current as int,
                    old(self)@.line,
                );
                &&& t.token_type@ == k
                &&& t.start == start
                &&& t.start + t.length == end
                &&& t.line == line
                &&& final(self)@.start == start
                &&& final(self)@.current == end
                &&& final(self)@.line == line
            }),
    {
        self.start = self.current;
        self.skip_trivia();
        let n = self.source.len();
        if self.current >= n {
            return Token { token_type: TokenType::Eof, start: self.start, length: 0, line: self.line };
        }
        let p = self.current;
        let b = self.source[p];
        self.current = p + 1;
        let eq_next = p + 1 < n && self.source[p + 1] == ('=' as u8);
        let token_type = match operator(b, eq_next) {
            Some(k) => {
                if is_compound_head_exec(b) && eq_next {
                    self.current = p + 2;
                }
                k
            },
            None => {
                if is_alpha_exec(b) {
                    self.scan_identifier()
                } else if is_digit_exec(b) {
                    self.scan_number();
                    TokenType::Number
                } else if b == ('"' as u8) {
                    self.scan_string()
                } else {
                    TokenType::Error("Unknown token")
                }
            },
        };
        Token { token_type, start: self.start, length: self.current - self.start, line: self.line }
    }
}

fn is_blank_byte(b: u8) -> (r: bool)
    ensures
        r == is_blank(b),
{
    b == (' ' as u8) || b == ('\r' as u8) || b == ('\t' as u8)
}

fn is_alpha_exec(b: u8) -> (r: bool)
    ensures
        r == is_alpha(b),
{
    (('a' as u8) <= b && b <= ('z' as u8)) || (('A' as u8) <= b && b <= ('Z' as u8)) || b == ('_' as u8)
}

fn is_digit_exec(b: u8) -> (r: bool)
    ensures
        r == is_digit(b),
{
    ('0' as u8) <= b && b <= ('9' as u8)
}

fn is_ident_byte_exec(b: u8) -> (r: bool)
    ensures
        r == is_ident_byte(b),
{
    is_alpha_exec(b) || is_digit_exec(b)
}

fn is_compound_head_exec(b: u8) -> (r: bool)
    ensures
        r == is_compound_head(b),
{
    b == ('!' as u8) || b == ('=' as u8) || b == ('<' as u8) || b == ('>' as u8)
}

/// The punctuation or operator kind that byte `b` starts, if any.
fn operator(b: u8, eq_next: bool) -> (r: Option<TokenType>)
    ensures
        r == operator_kind(b, eq_next),
{
    if b == ('(' as u8) {
        Some(TokenType::LeftParen)
    } else if b == (')' as u8) {
        Some(TokenType::RightParen)
    } else if b == ('{' as u8) {
        Some(TokenType::LeftBrace)
    } else if b == ('}' as u8) {
        Some(TokenType::RightBrace)
    } else if b == (';' as u8) {
        Some(TokenType::Semicolon)
    } else if b == (',' as u8) {
        Some(TokenType::Comma)
    } else if b == ('-' as u8) {
        Some(TokenType::Minus)
    } else if b == ('+' as u8) {
        Some(TokenType::Plus)
    } else if b == ('/' as u8) {
        Some(TokenType::Slash)
    } else if b == ('*' as u8) {
        Some(TokenType::Star)
    } else if b == ('!' as u8) {
        Some(if eq_next { TokenType::BangEqual } else { TokenType::Bang })
    } else if b == ('=' as u8) {
        Some(if eq_next { TokenType::EqualEqual } else { TokenType::Equal })
    } else if b == ('<' as u8) {
        Some(if eq_next { TokenType::LessEqual } else { TokenType::Less })
    } else if b == ('>' as u8) {
        Some(if eq_next { TokenType::GreaterEqual } else { TokenType::Greater })
    } else {
        None
    }
}


/// The scanner's position and line after `n` calls from `cur` on `line`.
pub open spec fn state_after(s: Seq<u8>, cur: int, line: nat, n: nat) -> (int, nat)
    decreases n,
{
    if n == 0 {
        (cur, line)
    } else {
        let (k, st, e, l) = next_token(s, cur, line);
        state_after(s, e, l, (n - 1) as nat)
    }
}

/// The token that the `n`-th call (counting from zero) yields, scanning
/// from `cur` on `line`.
pub open spec fn nth_token(s: Seq<u8>, cur: int, line: nat, n: nat) -> (Kind, int, int, nat) {
    let (c, l) = state_after(s, cur, line, n);
    next_token(s, c, l)
}

proof fn lemma_ident_end_bounds(s: Seq<u8>, i: int)
    requires
        0 <= i <= s.len(),
    ensures
        i <= ident_end(s, i) <= s.len(),
    decreases s.len() - i,
{
    if i < s.len() && is_ident_byte(s[i]) {
        lemma_ident_end_bounds(s, i + 1);
    }
}

proof fn lemma_number_end_bounds(s: Seq<u8>, i: int)
    requires
        0 <= i <= s.len(),
    ensures
        i <= number_end(s, i) <= s.len(),
    decreases s.len() - i,
{
    if i < s.len() && (is_digit(s[i]) || s[i] == ('.' as u8)) {
        lemma_number_end_bounds(s, i + 1);
    }
}

proof fn lemma_find_bounds(s: Seq<u8>, i: int, b: u8)
    requires
        0 <= i <= s.len(),
    ensures
        i <= find(s, i, b) <= s.len(),
    decreases s.len() - i,
{
    if i < s.len() && s[i] != b {
        lemma_find_bounds(s, i + 1, b);
    }
}

proof fn lemma_skip_bounds(s: Seq<u8>, i: int, line: nat, in_comment: bool)
    requires
        0 <= i <= s.len(),
    ensures
        i <= skip(s, i, line, in_comment).0 <= s.len(),
    decreases s.len() - i,
{
    if i < s.len() {
        let b = s[i];
        if in_comment {
            if b == ('\n' as u8) {
                lemma_skip_bounds(s, i + 1, line + 1, false);
            } else {
                lemma_skip_bounds(s, i + 1, line, true);
            }
        } else if is_blank(b) {
            lemma_skip_bounds(s, i + 1, line, false);
        } else if b == ('\n' as u8) {
            lemma_skip_bounds(s, i + 1, line + 1, false);
        } else if b == ('#' as u8) {
            lemma_skip_bounds(s, i + 1, line, true);
        }
    }
}

/// Every token but `Eof` consumes at least one byte, and `Eof` comes
/// exactly when only whitespace and comments remain.
pub proof fn lemma_progress(s: Seq<u8>, cur: int, line: nat)
    requires
        0 <= cur <= s.len(),
    ensures
        ({
            let (k, st, e, l) = next_token(s, cur, line);
            &&& cur <= st <= e <= s.len()
            &&& k == Kind::Plain(TokenType::Eof) <==> st == s.len()
            &&& k != Kind::Plain(TokenType::Eof) ==> st < e
            &&& k == Kind::Plain(TokenType::Eof) ==> e == s.len()
        }),
{
    lemma_skip_bounds(s, cur, line, false);
    let (p, l) = skip(s, cur, line, false);
    if p < s.len() {
        lemma_ident_end_bounds(s, p + 1);
        lemma_number_end_bounds(s, p + 1);
        lemma_find_bounds(s, p + 1, '"' as u8);
    }
}

/// Once scanning has yielded `Eof`, every further call yields `Eof` again,
/// at the end of the source and on the same line.
pub proof fn lemma_eof_saturates(s: Seq<u8>, cur: int, line: nat)
    requires
        0 <= cur <= s.len(),
        next_token(s, cur, line).0 == Kind::Plain(TokenType::Eof),
    ensures
        ({
            let (k, st, e, l) = next_token(s, cur, line);
            next_token(s, e, l) == (Kind::Plain(TokenType::Eof), s.len() as int, s.len() as int, l)
        }),
{
    lemma_progress(s, cur, line);
}

proof fn lemma_stays_at_eof(s: Seq<u8>, line: nat, n: nat)
    ensures
        state_after(s, s.len() as int, line, n) == (s.len() as int, line),
    decreases n,
{
    if n > 0 {
        lemma_stays_at_eof(s, line, (n - 1) as nat);
    }
}

/// Repeated scanning of any source ends in `Eof` after at most one call per
/// remaining byte, and every call after that yields `Eof` too.
pub proof fn lemma_scanning_ends_in_eof(s: Seq<u8>, cur: int, line: nat, n: nat)
    requires
        0 <= cur <= s.len(),
        n >= s.len() - cur,
    ensures
        nth_token(s, cur, line, n).0 == Kind::Plain(TokenType::Eof),
    decreases n,
{
    lemma_progress(s, cur, line);
    let (k, st, e, l) = next_token(s, cur, line);
    if n > 0 {
        if k == Kind::Plain(TokenType::Eof) {
            lemma_stays_at_eof(s, l, (n - 1) as nat);
            lemma_eof_saturates(s, cur, line);
        } else {
            lemma_scanning_ends_in_eof(s, e, l, (n - 1) as nat);
        }
    }
}


proof fn lemma_state_after_step(s: Seq<u8>, cur: int, line: nat, n: nat)
    ensures
        ({
            let (c, l) = state_after(s, cur, line, n);
            let (k, st, e, l2) = next_token(s, c, l);
            state_after(s, cur, line, n + 1) == (e, l2)
        }),
    decreases n,
{
    let (k, st, e, l) = next_token(s, cur, line);
    if n > 0 {
        lemma_state_after_step(s, e, l, (n - 1) as nat);
        assert(state_after(s, cur, line, n) == state_after(s, e, l, (n - 1) as nat));
    } else {
        assert(state_after(s, e, l, 0) == (e, l));
    }
    assert(state_after(s, cur, line, n + 1) == state_after(s, e, l, n));
}

/// Scans `source` to its end: every token in order, the last one `Eof` and
/// no other.
pub fn compile(source: &str) -> (r: Vec<Token>)
    requires
        source.spec_bytes().len() < usize::MAX,
    ensures
        r@.len() >= 1,
        r@.last().token_type@ == Kind::Plain(TokenType::Eof),
        forall|i: int| 0 <= i < r@.len() - 1 ==> (#[trigger] r@[i]).token_type@ != Kind::Plain(TokenType::Eof),
        forall|i: int|
            0 <= i < r@.len() ==> {
                let (k, st, e, l) = nth_token(source.spec_bytes(), 0, 1, i as nat);
                &&& (#[trigger] r@[i]).token_type@ == k
                &&& r@[i].start == st
                &&& r@[i].start + r@[i].length == e
                &&& r@[i].line == l
            },
{
    let ghost s = source.spec_bytes();
    let mut scanner = Scanner::init(source);
    let mut tokens: Vec<Token> = Vec::new();
    loop
        invariant_except_break
            forall|i: int| 0 <= i < tokens@.len() ==> (#[trigger] tokens@[i]).token_type@ != Kind::Plain(TokenType::Eof),
        invariant
            scanner.wf(),
            scanner@.src == s,
            (scanner@.current as int, scanner@.line) == state_after(s, 0, 1, tokens@.len()),
            forall|i: int|
                0 <= i < tokens@.len() ==> {
                    let (k, st, e, l) = nth_token(s, 0, 1, i as nat);
                    &&& (#[trigger] tokens@[i]).token_type@ == k
                    &&& tokens@[i].start == st
                    &&& tokens@[i].start + tokens@[i].length == e
                    &&& tokens@[i].line == l
                },
        ensures
            tokens@.len() >= 1,
            tokens@.last().token_type@ == Kind::Plain(TokenType::Eof),
            forall|i: int| 0 <= i < tokens@.len() - 1 ==> (#[trigger] tokens@[i]).token_type@ != Kind::Plain(TokenType::Eof),
        decreases s.len() - scanner@.current,
    {
        proof {
            lemma_progress(s, scanner@.current as int, scanner@.line);
            lemma_state_after_step(s, 0, 1, tokens@.len());
        }
        let token = scanner.scan_token();
        let is_eof = match token.token_type {
            TokenType::Eof => true,
            _ => false,
        };
        tokens.push(token);
        if is_eof {
            break;
        }
    }
    tokens
}


pub open spec fn is_space(b: u8) -> bool {
    is_blank(b) || b == ('\n' as u8)
}

/// The source `lead + ws[0] + gs[0] + ws[1] + gs[1] + ...` over the first
/// `k` pairs.
pub open spec fn layout(lead: Seq<u8>, ws: Seq<Seq<u8>>, gs: Seq<Seq<u8>>, k: nat) -> Seq<u8>
    decreases k,
{
    if k == 0 {
        lead
    } else {
        layout(lead, ws, gs, (k - 1) as nat) + ws[k - 1] + gs[k - 1]
    }
}

/// The whitespace run in front of word `k`.
pub open spec fn gap_before(lead: Seq<u8>, gs: Seq<Seq<u8>>, k: nat) -> Seq<u8> {
    if k == 0 {
        lead
    } else {
        gs[k - 1]
    }
}

/// Reserved words `ws` after a run `lead` of whitespace, each word followed
/// by its run `gs` of whitespace; every run between two words is non-empty.
pub open spec fn keywords_separated(lead: Seq<u8>, ws: Seq<Seq<u8>>, gs: Seq<Seq<u8>>) -> bool {
    &&& forall|j: int| 0 <= j < lead.len() ==> is_space(#[trigger] lead[j])
    &&& ws.len() == gs.len()
    &&& forall|i: int| 0 <= i < ws.len() ==> keyword_kind(#[trigger] ws[i]) != TokenType::Identifier
    &&& forall|i: int, j: int| 0 <= i < gs.len() && 0 <= j < gs[i].len() ==> is_space(#[trigger] gs[i][j])
    &&& forall|i: int| 0 <= i < gs.len() - 1 ==> (#[trigger] gs[i]).len() > 0
}

proof fn lemma_keyword_bytes(w: Seq<u8>)
    requires
        keyword_kind(w) != TokenType::Identifier,
    ensures
        w.len() >= 2,
        forall|i: int| 0 <= i < w.len() ==> ('a' as u8) <= #[trigger] w[i] <= ('z' as u8),
{
}

proof fn lemma_layout_prefix(lead: Seq<u8>, ws: Seq<Seq<u8>>, gs: Seq<Seq<u8>>, k: nat, m: nat)
    requires
        k <= m,
    ensures
        layout(lead, ws, gs, k).len() <= layout(lead, ws, gs, m).len(),
        forall|x: int| 0 <= x < layout(lead, ws, gs, k).len() ==> #[trigger] layout(lead, ws, gs, m)[x] == layout(lead, ws, gs, k)[x],
    decreases m,
{
    if k < m {
        lemma_layout_prefix(lead, ws, gs, k, (m - 1) as nat);
    }
}

proof fn lemma_ident_run(s: Seq<u8>, i: int, j: int)
    requires
        0 <= i <= j <= s.len(),
        forall|t: int| i <= t < j ==> is_ident_byte(#[trigger] s[t]),
        j == s.len() || !is_ident_byte(s[j]),
    ensures
        ident_end(s, i) == j,
    decreases j - i,
{
    if i < j {
        lemma_ident_run(s, i + 1, j);
    }
}

proof fn lemma_skip_spaces(s: Seq<u8>, i: int, j: int, l: nat)
    requires
        0 <= i <= j <= s.len(),
        forall|t: int| i <= t < j ==> is_space(#[trigger] s[t]),
    ensures
        exists|l2: nat| skip(s, i, l, false) == skip(s, j, l2, false),
    decreases j - i,
{
    if i < j {
        let l1 = if s[i] == ('\n' as u8) { l + 1 } else { l };
        lemma_skip_spaces(s, i + 1, j, l1);
        let l2 = choose|l2: nat| skip(s, i + 1, l1, false) == skip(s, j, l2, false);
        assert(skip(s, i, l, false) == skip(s, j, l2, false));
    } else {
        assert(skip(s, i, l, false) == skip(s, j, l, false));
    }
}

/// Where the scanner stands after `k` tokens of a keyword layout: just past
/// the `k`-th word.
pub open spec fn after_word(lead: Seq<u8>, ws: Seq<Seq<u8>>, gs: Seq<Seq<u8>>, k: nat) -> int {
    layout(lead, ws, gs, k).len() - gap_before(lead, gs, k).len()
}

#[verifier::rlimit(60)]
proof fn lemma_keyword_tokens(lead: Seq<u8>, ws: Seq<Seq<u8>>, gs: Seq<Seq<u8>>, k: nat)
    requires
        keywords_separated(lead, ws, gs),
        k <= ws.len(),
    ensures
        forall|j: int|
            0 <= j < k ==> (#[trigger] nth_token(layout(lead, ws, gs, ws.len()), 0, 1, j as nat)).0 == Kind::Plain(
                keyword_kind(ws[j]),
            ),
        state_after(layout(lead, ws, gs, ws.len()), 0, 1, k).0 == after_word(lead, ws, gs, k),
    decreases k,
{
    let n = ws.len();
    let s = layout(lead, ws, gs, n);
    if k == 0 {
        assert(state_after(s, 0, 1, 0) == (0int, 1nat));
    } else {
        let k1 = (k - 1) as nat;
        lemma_keyword_tokens(lead, ws, gs, k1);
        let l = state_after(s, 0, 1, k1).1;
        let w = ws[k1 as int];
        let g = gs[k1 as int];
        let off = layout(lead, ws, gs, k1).len() as int;
        let end = off + w.len();
        lemma_layout_prefix(lead, ws, gs, k, n);
        lemma_keyword_bytes(w);
        let lk = layout(lead, ws, gs, k);
        assert(lk == layout(lead, ws, gs, k1) + w + g);
        assert forall|t: int| 0 <= t < w.len() implies s[off + t] == w[t] by {
            assert(lk[off + t] == w[t]);
        }
        assert forall|t: int| 0 <= t < g.len() implies s[end + t] == g[t] by {
            assert(lk[end + t] == g[t]);
        }
        // skip the run before this word
        let p = after_word(lead, ws, gs, k1);
        let gp = gap_before(lead, gs, k1);
        lemma_layout_prefix(lead, ws, gs, k1, n);
        let lp = layout(lead, ws, gs, k1);
        if k1 > 0 {
            assert(lp == layout(lead, ws, gs, (k1 - 1) as nat) + ws[k1 - 1] + gp);
        }
        assert forall|t: int| p <= t < off implies is_space(#[trigger] s[t]) by {
            assert(lp[t] == gp[t - p]);
            if k1 > 0 {
                assert(is_space(gs[k1 - 1][t - p]));
            }
        }
        lemma_skip_spaces(s, p, off, l);
        let l2 = choose|l2: nat| skip(s, p, l, false) == skip(s, off, l2, false);
        assert(s[off] == w[0]);
        assert(skip(s, off, l2, false) == (off, l2));
        // the word itself
        assert forall|t: int| off + 1 <= t < end implies is_ident_byte(#[trigger] s[t]) by {
            assert(s[t] == w[t - off]);
        }
        if end < s.len() {
            if g.len() > 0 {
                assert(s[end] == g[0]);
                assert(is_space(gs[k1 as int][0]));
            } else {
                assert(k1 == n - 1);
                assert(lk.len() == s.len());
            }
        }
        lemma_ident_run(s, off + 1, end);
        assert(s.subrange(off, end) =~= w);
        assert(next_token(s, p, l) == (Kind::Plain(keyword_kind(w)), off, end, l2));
        lemma_state_after_step(s, 0, 1, k1);
        assert(state_after(s, 0, 1, k) == (after_word(lead, ws, gs, k), l2));
        assert forall|j: int| 0 <= j < k implies (#[trigger] nth_token(s, 0, 1, j as nat)).0 == Kind::Plain(
            keyword_kind(ws[j]),
        ) by {
            if j == k1 {
                assert(nth_token(s, 0, 1, k1) == next_token(s, p, l));
            }
        }
    }
}

/// Scanning reserved words separated by whitespace (with whitespace allowed
/// before the first and after the last) yields exactly their keyword kinds,
/// in order, and then `Eof`.
pub proof fn lemma_keywords_scan_in_order(lead: Seq<u8>, ws: Seq<Seq<u8>>, gs: Seq<Seq<u8>>)
    requires
        keywords_separated(lead, ws, gs),
    ensures
        forall|k: int|
            0 <= k < ws.len() ==> (#[trigger] nth_token(layout(lead, ws, gs, ws.len()), 0, 1, k as nat)).0 == Kind::Plain(
                keyword_kind(ws[k]),
            ),
        nth_token(layout(lead, ws, gs, ws.len()), 0, 1, ws.len()).0 == Kind::Plain(TokenType::Eof),
{
    let n = ws.len();
    let s = layout(lead, ws, gs, n);
    lemma_keyword_tokens(lead, ws, gs, n);
    let l = state_after(s, 0, 1, n).1;
    let p = after_word(lead, ws, gs, n);
    let g = gap_before(lead, gs, n);
    if n > 0 {
        assert(s == layout(lead, ws, gs, (n - 1) as nat) + ws[n - 1] + g);
    }
    assert forall|t: int| p <= t < s.len() implies is_space(#[trigger] s[t]) by {
        assert(s[t] == g[t - p]);
        if n > 0 {
            assert(is_space(gs[n - 1][t - p]));
        }
    }
    lemma_skip_spaces(s, p, s.len() as int, l);
}

} // verus!
