//! The tokenizer: from the text of one statement to its tokens.

use vstd::prelude::*;
use crate::text::{
    characters, digit, identifier_part, identifier_start, is_digit, is_identifier_part,
    is_identifier_start, is_space, space, string_of,
};

verus! {

/// One lexical unit.
#[derive(Debug, PartialEq)]
pub enum Token {
    /// A literal without a decimal point.
    Integer(i64),
    /// A literal with a decimal point, as it was written.
    Float(String),
    /// A string literal, without its quotes.
    Str(String),
    /// A variable name.
    Identifier(String),
    /// The name of a built-in function.
    Functions(String),
    /// One of `+ - * / = ^`.
    Operator(char),
    Semicolon,
    Comma,
    LeftParen,
    RightParen,
    LeftBracket,
    RightBracket,
    /// The end of the input.
    EOF,
}

/// What a token is, with text as sequences of characters.
pub enum TokenView {
    Integer(i64),
    Float(Seq<char>),
    Str(Seq<char>),
    Identifier(Seq<char>),
    Functions(Seq<char>),
    Operator(char),
    Semicolon,
    Comma,
    LeftParen,
    RightParen,
    LeftBracket,
    RightBracket,
    EOF,
}

impl View for Token {
    type V = TokenView;

    open spec fn view(&self) -> TokenView {
        match self {
            Token::Integer(n) => TokenView::Integer(*n),
            Token::Float(t) => TokenView::Float(t@),
            Token::Str(t) => TokenView::Str(t@),
            Token::Identifier(t) => TokenView::Identifier(t@),
            Token::Functions(t) => TokenView::Functions(t@),
            Token::Operator(c) => TokenView::Operator(*c),
            Token::Semicolon => TokenView::Semicolon,
            Token::Comma => TokenView::Comma,
            Token::LeftParen => TokenView::LeftParen,
            Token::RightParen => TokenView::RightParen,
            Token::LeftBracket => TokenView::LeftBracket,
            Token::RightBracket => TokenView::RightBracket,
            Token::EOF => TokenView::EOF,
        }
    }
}

/// The views of a sequence of tokens, one for one.
pub open spec fn token_views(tokens: Seq<Token>) -> Seq<TokenView> {
    tokens.map_values(|t: Token| t@)
}

/// Why a text has no tokens.
#[derive(Debug, Clone, Copy, PartialEq, Eq, Structural)]
pub enum LexError {
    /// A character that begins no token.
    UnexpectedCharacter(char),
    /// A second `.` in one numeric literal.
    SecondDecimalPoint,
    /// A literal without a decimal point that exceeds the largest integer.
    IntegerTooLarge,
}

/// The sets of characters that the tokenizer scans in runs.
#[derive(Debug, Clone, Copy, PartialEq, Eq, Structural)]
pub enum CharClass {
    /// Decimal digits.
    Digit,
    /// What may follow the first character of an identifier.
    IdentifierPart,
    /// Everything but the double quote.
    Quoted,
    /// Everything but the line feed.
    LineText,
}

impl CharClass {
    /// Whether `c` belongs to the class.
    pub open spec fn has(self, c: char) -> bool {
        match self {
            CharClass::Digit => is_digit(c),
            CharClass::IdentifierPart => is_identifier_part(c),
            CharClass::Quoted => c != '"',
            CharClass::LineText => c != '\n',
        }
    }

    /// Whether `c` belongs to the class.
    pub fn contains(self, c: char) -> (r: bool)
        ensures
            r == self.has(c),
    {
        match self {
            CharClass::Digit => digit(c),
            CharClass::IdentifierPart => identifier_part(c),
            CharClass::Quoted => c != '"',
            CharClass::LineText => c != '\n',
        }
    }
}

/// Where the longest run of characters of `class` that begins at `i` ends:
/// the first position from `i` on that holds no character of `class`.
pub open spec fn run_end(s: Seq<char>, i: int, class: CharClass) -> int
    decreases s.len() - i,
{
    if 0 <= i < s.len() && class.has(s[i]) {
        run_end(s, i + 1, class)
    } else {
        i
    }
}

/// The number that a sequence of decimal digits writes.
pub open spec fn decimal_value(digits: Seq<char>) -> nat
    decreases digits.len(),
{
    if digits.len() == 0 {
        0
    } else {
        (decimal_value(digits.drop_last()) * 10 + (digits.last() as int - '0' as int)) as nat
    }
}

pub open spec fn is_operator(c: char) -> bool {
    c == '+' || c == '-' || c == '*' || c == '/' || c == '=' || c == '^'
}

/// The name of the built-in function that writes its arguments.
pub open spec fn print_name() -> Seq<char> {
    seq!['p', 'r', 'i', 'n', 't']
}

/// The name of the built-in function that reads a line.
pub open spec fn write_name() -> Seq<char> {
    seq!['w', 'r', 'i', 't', 'e']
}

/// The token for a word: a built-in function's name, or an identifier.
pub open spec fn word(text: Seq<char>) -> TokenView {
    if text == print_name() || text == write_name() {
        TokenView::Functions(text)
    } else {
        TokenView::Identifier(text)
    }
}

/// The token for a character that is a token by itself.
pub open spec fn punctuation(c: char) -> Option<TokenView> {
    if is_operator(c) {
        Some(TokenView::Operator(c))
    } else if c == ';' {
        Some(TokenView::Semicolon)
    } else if c == ',' {
        Some(TokenView::Comma)
    } else if c == '(' {
        Some(TokenView::LeftParen)
    } else if c == ')' {
        Some(TokenView::RightParen)
    } else if c == '[' {
        Some(TokenView::LeftBracket)
    } else if c == ']' {
        Some(TokenView::RightBracket)
    } else {
        None
    }
}

/// What one scanning step yields: a token or nothing, and where the next
/// step begins.
pub struct Scanned {
    pub token: Option<TokenView>,
    pub next: int,
}

/// The numeric literal that begins at `i`, where `s[i]` is a digit.
pub open spec fn number_at(s: Seq<char>, i: int) -> Result<Scanned, LexError> {
    let whole_end = run_end(s, i, CharClass::Digit);
    if whole_end < s.len() && s[whole_end] == '.' {
        let end = run_end(s, whole_end + 1, CharClass::Digit);
        if end < s.len() && s[end] == '.' {
            Err(LexError::SecondDecimalPoint)
        } else {
            Ok(Scanned { token: Some(TokenView::Float(s.subrange(i, end))), next: end })
        }
    } else {
        let value = decimal_value(s.subrange(i, whole_end));
        if value <= i64::MAX {
            Ok(Scanned { token: Some(TokenView::Integer(value as i64)), next: whole_end })
        } else {
            Err(LexError::IntegerTooLarge)
        }
    }
}

/// One scanning step at position `i` of `s`, by the first rule that applies:
/// a comment, a number, a word, a string, a single character, white space.
pub open spec fn scan_at(s: Seq<char>, i: int) -> Result<Scanned, LexError>
    recommends
        0 <= i < s.len(),
{
    let c = s[i];
    if c == '/' && i + 1 < s.len() && s[i + 1] == '/' {
        Ok(Scanned { token: None, next: run_end(s, i + 2, CharClass::LineText) })
    } else if is_digit(c) {
        number_at(s, i)
    } else if is_identifier_start(c) {
        let end = run_end(s, i + 1, CharClass::IdentifierPart);
        Ok(Scanned { token: Some(word(s.subrange(i, end))), next: end })
    } else if c == '"' {
        let end = run_end(s, i + 1, CharClass::Quoted);
        Ok(
            Scanned {
                token: Some(TokenView::Str(s.subrange(i + 1, end))),
                next: if end < s.len() {
                    end + 1
                } else {
                    end
                },
            },
        )
    } else if punctuation(c) is Some {
        Ok(Scanned { token: punctuation(c), next: i + 1 })
    } else if is_space(c) {
        Ok(Scanned { token: None, next: i + 1 })
    } else {
        Err(LexError::UnexpectedCharacter(c))
    }
}

/// The tokens of `s` from position `i` on, with the end marker last; or the
/// first error met.
pub open spec fn lex_from(s: Seq<char>, i: int) -> Result<Seq<TokenView>, LexError>
    decreases s.len() - i,
{
    if i < 0 || i >= s.len() {
        Ok(seq![TokenView::EOF])
    } else {
        match scan_at(s, i) {
            Err(e) => Err(e),
            Ok(step) => if !(i < step.next <= s.len()) {
                Ok(seq![TokenView::EOF])
            } else {
                match lex_from(s, step.next) {
                    Err(e) => Err(e),
                    Ok(rest) => Ok(
                        match step.token {
                            Some(t) => seq![t] + rest,
                            None => rest,
                        },
                    ),
                }
            },
        }
    }
}

/// The tokens of a whole text.
pub open spec fn lex(s: Seq<char>) -> Result<Seq<TokenView>, LexError> {
    lex_from(s, 0)
}

/// `rest` with the tokens `done` in front of it.
pub open spec fn after(done: Seq<TokenView>, rest: Result<Seq<TokenView>, LexError>) -> Result<
    Seq<TokenView>,
    LexError,
> {
    match rest {
        Ok(tokens) => Ok(done + tokens),
        Err(e) => Err(e),
    }
}

/// A run ends at or after its start and within the text, every character
/// before its end is of the class, and the one at its end is not.
pub proof fn lemma_run_end(s: Seq<char>, i: int, class: CharClass)
    requires
        0 <= i <= s.len(),
    ensures
        i <= run_end(s, i, class) <= s.len(),
        forall|k: int| i <= k < run_end(s, i, class) ==> class.has(#[trigger] s[k]),
        run_end(s, i, class) < s.len() ==> !class.has(s[run_end(s, i, class)]),
    decreases s.len() - i,
{
    if i < s.len() && class.has(s[i]) {
        lemma_run_end(s, i + 1, class);
    }
}

/// A number written with more digits is not smaller than the one written
/// with the first `k` of them.
pub proof fn lemma_decimal_value_grows(digits: Seq<char>, k: int)
    requires
        0 <= k <= digits.len(),
        forall|j: int| 0 <= j < digits.len() ==> is_digit(#[trigger] digits[j]),
    ensures
        decimal_value(digits.take(k)) <= decimal_value(digits),
    decreases digits.len(),
{
    if k == digits.len() {
        assert(digits.take(k) =~= digits);
    } else {
        let shorter = digits.drop_last();
        assert(shorter.take(k) =~= digits.take(k));
        lemma_decimal_value_grows(shorter, k);
        assert(is_digit(digits[digits.len() - 1]));
    }
}

/// Where the run of characters of `class` that begins at `from` ends.
fn skip_run(chars: &Vec<char>, from: usize, class: CharClass) -> (end: usize)
    requires
        from <= chars.len(),
    ensures
        end == run_end(chars@, from as int, class),
        from <= end <= chars.len(),
{
    let mut end: usize = from;
    while end < chars.len() && class.contains(chars[end])
        invariant
            from <= end <= chars.len(),
            run_end(chars@, from as int, class) == run_end(chars@, end as int, class),
        decreases chars.len() - end,
    {
        end += 1;
    }
    end
}

/// The value of the digits `chars[from..to]`, where it fits.
fn integer_value(chars: &Vec<char>, from: usize, to: usize) -> (r: Option<i64>)
    requires
        from <= to <= chars.len(),
        forall|k: int| from <= k < to ==> is_digit(#[trigger] chars@[k]),
    ensures
        match r {
            Some(v) => v == decimal_value(chars@.subrange(from as int, to as int)),
            None => decimal_value(chars@.subrange(from as int, to as int)) > i64::MAX,
        },
{
    let ghost whole = chars@.subrange(from as int, to as int);
    let mut value: i64 = 0;
    let mut j: usize = from;
    while j < to
        invariant
            from <= j <= to <= chars.len(),
            whole == chars@.subrange(from as int, to as int),
            forall|k: int| from <= k < to ==> is_digit(#[trigger] chars@[k]),
            0 <= value,
            value == decimal_value(chars@.subrange(from as int, j as int)),
        decreases to - j,
    {
        let c = chars[j];
        assert(is_digit(chars@[j as int]));
        let d: i64 = (c as u32 - 48) as i64;
        proof {
            let longer = chars@.subrange(from as int, j + 1);
            assert(longer.drop_last() =~= chars@.subrange(from as int, j as int));
            assert(longer.last() == c);
            assert(decimal_value(longer) == value * 10 + d);
            assert(whole.take(j + 1 - from) =~= longer);
            lemma_decimal_value_grows(whole, j + 1 - from);
        }
        if value > (i64::MAX - d) / 10 {
            return None;
        }
        value = value * 10 + d;
        j += 1;
    }
    Some(value)
}

/// Whether `chars[from..to]` spells `print` or `write`.
fn is_function_name(chars: &Vec<char>, from: usize, to: usize) -> (r: bool)
    requires
        from <= to <= chars.len(),
    ensures
        r == (word(chars@.subrange(from as int, to as int)) is Functions),
{
    let ghost text = chars@.subrange(from as int, to as int);
    if to - from != 5 {
        assert(seq!['p', 'r', 'i', 'n', 't'].len() == 5 && seq!['w', 'r', 'i', 't', 'e'].len() == 5);
        return false;
    }
    assert(forall|k: int| 0 <= k < 5 ==> text[k] == chars@[from + k]);
    let print = chars[from] == 'p' && chars[from + 1] == 'r' && chars[from + 2] == 'i' && chars[from
        + 3] == 'n' && chars[from + 4] == 't';
    let write = chars[from] == 'w' && chars[from + 1] == 'r' && chars[from + 2] == 'i' && chars[from
        + 3] == 't' && chars[from + 4] == 'e';
    proof {
        if print {
            assert(text =~= seq!['p', 'r', 'i', 'n', 't']);
        }
        if write {
            assert(text =~= seq!['w', 'r', 'i', 't', 'e']);
        }
        if text == seq!['p', 'r', 'i', 'n', 't'] {
            assert(text[0] == 'p' && text[1] == 'r' && text[2] == 'i' && text[3] == 'n' && text[4]
                == 't');
        }
        if text == seq!['w', 'r', 'i', 't', 'e'] {
            assert(text[0] == 'w' && text[1] == 'r' && text[2] == 'i' && text[3] == 't' && text[4]
                == 'e');
        }
    }
    print || write
}

/// The token that `c` is by itself, if it is one.
fn single(c: char) -> (r: Option<Token>)
    ensures
        match r {
            Some(t) => punctuation(c) == Some(t@),
            None => punctuation(c) is None,
        },
{
    if c == '+' || c == '-' || c == '*' || c == '/' || c == '=' || c == '^' {
        Some(Token::Operator(c))
    } else if c == ';' {
        Some(Token::Semicolon)
    } else if c == ',' {
        Some(Token::Comma)
    } else if c == '(' {
        Some(Token::LeftParen)
    } else if c == ')' {
        Some(Token::RightParen)
    } else if c == '[' {
        Some(Token::LeftBracket)
    } else if c == ']' {
        Some(Token::RightBracket)
    } else {
        None
    }
}

/// Scans the numeric literal that begins at `i`.
fn number(chars: &Vec<char>, i: usize) -> (r: Result<(Token, usize), LexError>)
    requires
        i < chars.len(),
        is_digit(chars@[i as int]),
    ensures
        match r {
            Ok((token, next)) => number_at(chars@, i as int) == Ok::<Scanned, LexError>(
                Scanned { token: Some(token@), next: next as int },
            ) && i < next <= chars.len(),
            Err(e) => number_at(chars@, i as int) == Err::<Scanned, LexError>(e),
        },
{
    let whole_end = skip_run(chars, i, CharClass::Digit);
    proof {
        lemma_run_end(chars@, i as int, CharClass::Digit);
    }
    if whole_end < chars.len() && chars[whole_end] == '.' {
        let end = skip_run(chars, whole_end + 1, CharClass::Digit);
        if end < chars.len() && chars[end] == '.' {
            Err(LexError::SecondDecimalPoint)
        } else {
            Ok((Token::Float(string_of(chars, i, end)), end))
        }
    } else {
        match integer_value(chars, i, whole_end) {
            Some(value) => Ok((Token::Integer(value), whole_end)),
            None => Err(LexError::IntegerTooLarge),
        }
    }
}

/// Makes one scanning step at `i`.
fn scan(chars: &Vec<char>, i: usize) -> (r: Result<(Option<Token>, usize), LexError>)
    requires
        i < chars.len(),
    ensures
        match r {
            Ok((token, next)) => scan_at(chars@, i as int) == Ok::<Scanned, LexError>(
                Scanned {
                    token: match token {
                        Some(t) => Some(t@),
                        None => None,
                    },
                    next: next as int,
                },
            ) && i < next <= chars.len(),
            Err(e) => scan_at(chars@, i as int) == Err::<Scanned, LexError>(e),
        },
{
    let c = chars[i];
    if c == '/' && i + 1 < chars.len() && chars[i + 1] == '/' {
        let end = skip_run(chars, i + 2, CharClass::LineText);
        Ok((None, end))
    } else if digit(c) {
        match number(chars, i) {
            Ok((token, next)) => Ok((Some(token), next)),
            Err(e) => Err(e),
        }
    } else if identifier_start(c) {
        let end = skip_run(chars, i + 1, CharClass::IdentifierPart);
        let text = string_of(chars, i, end);
        if is_function_name(chars, i, end) {
            Ok((Some(Token::Functions(text)), end))
        } else {
            Ok((Some(Token::Identifier(text)), end))
        }
    } else if c == '"' {
        let end = skip_run(chars, i + 1, CharClass::Quoted);
        let text = string_of(chars, i + 1, end);
        let next: usize = if end < chars.len() {
            end + 1
        } else {
            end
        };
        Ok((Some(Token::Str(text)), next))
    } else {
        match single(c) {
            Some(token) => Ok((Some(token), i + 1)),
            None => if space(c) {
                Ok((None, i + 1))
            } else {
                Err(LexError::UnexpectedCharacter(c))
            },
        }
    }
}

/// Splits the text of one statement into its tokens, the end marker last.
///
/// Comments run from `//` to the end of the line. A literal with a second
/// decimal point, an integer literal beyond the largest integer, and a
/// character that begins no token are errors.
pub fn tokenize(input: &str) -> (r: Result<Vec<Token>, LexError>)
    ensures
        match r {
            Ok(tokens) => lex(input@) == Ok::<Seq<TokenView>, LexError>(token_views(tokens@)),
            Err(e) => lex(input@) == Err::<Seq<TokenView>, LexError>(e),
        },
{
    let chars = characters(input);
    let mut tokens: Vec<Token> = Vec::new();
    let mut i: usize = 0;
    while i < chars.len()
        invariant
            i <= chars.len(),
            chars@ == input@,
            lex(chars@) == after(token_views(tokens@), lex_from(chars@, i as int)),
        decreases chars.len() - i,
    {
        let ghost done = token_views(tokens@);
        match scan(&chars, i) {
            Err(e) => {
                return Err(e);
            },
            Ok((token, next)) => {
                match token {
                    Some(t) => {
                        proof {
                            let rest = lex_from(chars@, next as int);
                            assert(token_views(tokens@.push(t)) =~= done.push(t@));
                            if let Ok(more) = rest {
                                assert(done.push(t@) + more =~= done + (seq![t@] + more));
                            }
                        }
                        tokens.push(t);
                    },
                    None => {},
                }
                i = next;
            },
        }
    }
    proof {
        assert(token_views(tokens@.push(Token::EOF)) =~= token_views(tokens@).push(TokenView::EOF));
        assert(token_views(tokens@).push(TokenView::EOF) =~= token_views(tokens@)
            + seq![TokenView::EOF]);
    }
    tokens.push(Token::EOF);
    Ok(tokens)
}

} // verus!
