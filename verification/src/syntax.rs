//! The reader: source text to tokens, tokens to s-expressions.

use vstd::prelude::*;

use crate::text::{char_is_whitespace, chars_of, is_white_space, owned, push_char};
use crate::Error;

verus! {

// ---------------------------------------------------------------------------
// Data
// ---------------------------------------------------------------------------

/// An s-expression as the reader produces it.
#[derive(Debug, PartialEq, Eq)]
pub enum Expression {
    Integer(i64),
    String(String),
    Symbol(String),
    List(Vec<Expression>),
}

/// The mathematical value of an s-expression.
pub enum Form {
    Integer(int),
    String(Seq<char>),
    Symbol(Seq<char>),
    List(Seq<Form>),
}

impl View for Expression {
    type V = Form;

    open spec fn view(&self) -> Form
        decreases self,
    {
        match self {
            Expression::Integer(n) => Form::Integer(*n as int),
            Expression::String(s) => Form::String(s@),
            Expression::Symbol(s) => Form::Symbol(s@),
            Expression::List(v) => Form::List(
                Seq::new(
                    v@.len(),
                    |i: int|
                        if 0 <= i < v@.len() {
                            v@[i].view()
                        } else {
                            Form::Integer(0)
                        },
                ),
            ),
        }
    }
}

/// The values of a sequence of s-expressions.
pub open spec fn forms(v: Seq<Expression>) -> Seq<Form> {
    Seq::new(v.len(), |i: int| v[i]@)
}

impl Expression {
    /// A copy of this s-expression.
    pub fn duplicate(&self) -> (r: Self)
        ensures
            r@ == self@,
        decreases self,
    {
        match self {
            Expression::Integer(n) => Expression::Integer(*n),
            Expression::String(s) => Expression::String(s.clone()),
            Expression::Symbol(s) => Expression::Symbol(s.clone()),
            Expression::List(v) => {
                let mut out: Vec<Expression> = Vec::new();
                let mut i: usize = 0;
                while i < v.len()
                    invariant
                        *self == Expression::List(*v),
                        i <= v@.len(),
                        out@.len() == i,
                        forall|j: int| 0 <= j < i ==> #[trigger] out@[j]@ == v@[j]@,
                    decreases v@.len() - i,
                {
                    proof {
                        assert(decreases_to!(*self => (*self)->List_0));
                        assert(decreases_to!(*v => v@));
                        assert(decreases_to!(v@ => v@[i as int]));
                    }
                    out.push(v[i].duplicate());
                    i += 1;
                }
                let r = Expression::List(out);
                assert(forall|k: int| 0 <= k < v@.len() ==> r@->List_0[k] == out@[k]@);
                assert(r@->List_0 =~= self@->List_0);
                r
            }
        }
    }
}

/// A token of Kal source text.
#[derive(Debug, PartialEq, Eq)]
pub enum Token {
    LeftParenthesis,
    RightParenthesis,
    LeftBracket,
    RightBracket,
    Atom(String),
    String(String),
}

/// The mathematical value of a token.
pub enum Lexeme {
    LeftParenthesis,
    RightParenthesis,
    LeftBracket,
    RightBracket,
    Atom(Seq<char>),
    String(Seq<char>),
}

impl View for Token {
    type V = Lexeme;

    open spec fn view(&self) -> Lexeme {
        match self {
            Token::LeftParenthesis => Lexeme::LeftParenthesis,
            Token::RightParenthesis => Lexeme::RightParenthesis,
            Token::LeftBracket => Lexeme::LeftBracket,
            Token::RightBracket => Lexeme::RightBracket,
            Token::Atom(s) => Lexeme::Atom(s@),
            Token::String(s) => Lexeme::String(s@),
        }
    }
}

/// The values of a sequence of tokens.
pub open spec fn lexemes(v: Seq<Token>) -> Seq<Lexeme> {
    Seq::new(v.len(), |i: int| v[i]@)
}

// ---------------------------------------------------------------------------
// Tokens
// ---------------------------------------------------------------------------

/// Characters that end an atom.
pub open spec fn ends_atom(c: char) -> bool {
    is_white_space(c) || c == '(' || c == ')' || c == '[' || c == ']' || c == ';'
}

/// The index just past the atom characters that start at `i`.
pub open spec fn atom_end(s: Seq<char>, i: int) -> int
    decreases s.len() - i,
{
    if i < 0 || i >= s.len() || ends_atom(s[i]) {
        i
    } else {
        atom_end(s, i + 1)
    }
}

/// The index just past the line break that ends a comment whose text starts at `i`
/// (or the end of the text).
pub open spec fn comment_end(s: Seq<char>, i: int) -> int
    decreases s.len() - i,
{
    if i < 0 || i >= s.len() {
        if i < 0 { i } else { s.len() as int }
    } else if s[i] == '\n' {
        i + 1
    } else {
        comment_end(s, i + 1)
    }
}

/// The character that an escape `\c` stands for inside a string literal.
pub open spec fn escaped(c: char) -> Option<char> {
    if c == 'n' {
        Some('\n')
    } else if c == 'r' {
        Some('\r')
    } else if c == 't' {
        Some('\t')
    } else if c == '"' {
        Some('"')
    } else if c == '\\' {
        Some('\\')
    } else {
        None
    }
}

/// The diagnostic for an escape that Kal does not support.
pub open spec fn unsupported_escape(c: char) -> Seq<char> {
    "unsupported string escape `\\"@ + seq![c] + "`"@
}

/// The value of a string literal whose text starts at `i` (just past the opening quote),
/// with the index just past its closing quote.
pub open spec fn string_literal(s: Seq<char>, i: int) -> Result<(Seq<char>, int), Seq<char>>
    decreases s.len() - i,
{
    if i < 0 || i >= s.len() {
        Err("unterminated string literal"@)
    } else if s[i] == '"' {
        Ok((seq![], i + 1))
    } else if s[i] == '\\' {
        if i + 1 >= s.len() {
            Err("unterminated escape sequence in string"@)
        } else {
            match escaped(s[i + 1]) {
                None => Err(unsupported_escape(s[i + 1])),
                Some(c) => match string_literal(s, i + 2) {
                    Ok((v, j)) => Ok((seq![c] + v, j)),
                    Err(e) => Err(e),
                },
            }
        }
    } else {
        match string_literal(s, i + 1) {
            Ok((v, j)) => Ok((seq![s[i]] + v, j)),
            Err(e) => Err(e),
        }
    }
}

/// `prefix` followed by the tokens of `rest`, or the error of `rest`.
pub open spec fn after<T>(prefix: Seq<T>, rest: Result<Seq<T>, Seq<char>>) -> Result<Seq<T>, Seq<char>> {
    match rest {
        Ok(t) => Ok(prefix + t),
        Err(e) => Err(e),
    }
}

/// The tokens of `s` from index `i` on, or the first lexical error.
pub open spec fn lex(s: Seq<char>, i: int) -> Result<Seq<Lexeme>, Seq<char>>
    decreases s.len() - i,
{
    if i < 0 || i >= s.len() {
        Ok(seq![])
    } else {
        let c = s[i];
        if c == '(' {
            after(seq![Lexeme::LeftParenthesis], lex(s, i + 1))
        } else if c == ')' {
            after(seq![Lexeme::RightParenthesis], lex(s, i + 1))
        } else if c == '[' {
            after(seq![Lexeme::LeftBracket], lex(s, i + 1))
        } else if c == ']' {
            after(seq![Lexeme::RightBracket], lex(s, i + 1))
        } else if c == ';' {
            let j = comment_end(s, i + 1);
            if i < j <= s.len() {
                lex(s, j)
            } else {
                Ok(seq![])
            }
        } else if c == '"' {
            match string_literal(s, i + 1) {
                Ok((v, j)) => if i < j <= s.len() {
                    after(seq![Lexeme::String(v)], lex(s, j))
                } else {
                    Ok(seq![])
                },
                Err(e) => Err(e),
            }
        } else if is_white_space(c) {
            lex(s, i + 1)
        } else {
            let j = atom_end(s, i + 1);
            if i < j <= s.len() {
                after(seq![Lexeme::Atom(s.subrange(i, j))], lex(s, j))
            } else {
                Ok(seq![])
            }
        }
    }
}

/// An atom ends within the text, and holds no character that ends an atom.
proof fn lemma_atom_end(s: Seq<char>, i: int)
    requires
        0 <= i <= s.len(),
    ensures
        i <= atom_end(s, i) <= s.len(),
        forall|k: int| i <= k < atom_end(s, i) ==> !ends_atom(#[trigger] s[k]),
    decreases s.len() - i,
{
    if i < s.len() && !ends_atom(s[i]) {
        lemma_atom_end(s, i + 1);
    }
}

/// A comment ends within the text.
proof fn lemma_comment_end(s: Seq<char>, i: int)
    requires
        0 <= i <= s.len(),
    ensures
        i <= comment_end(s, i) <= s.len(),
    decreases s.len() - i,
{
    if i < s.len() && s[i] != '\n' {
        lemma_comment_end(s, i + 1);
    }
}

/// A string literal that is read ends past its start, within the text.
proof fn lemma_string_literal(s: Seq<char>, i: int)
    requires
        0 <= i <= s.len(),
    ensures
        string_literal(s, i) matches Ok((_, j)) ==> i < j <= s.len(),
    decreases s.len() - i,
{
    if i < s.len() && s[i] != '"' {
        if s[i] == '\\' {
            if i + 1 < s.len() {
                lemma_string_literal(s, i + 2);
            }
        } else {
            lemma_string_literal(s, i + 1);
        }
    }
}

/// Prefixing one token and then a sequence is prefixing the extended sequence.
proof fn lemma_after_push<T>(prefix: Seq<T>, x: T, rest: Result<Seq<T>, Seq<char>>)
    ensures
        after(prefix, after(seq![x], rest)) == after(prefix.push(x), rest),
{
    if let Ok(t) = rest {
        assert(prefix + (seq![x] + t) =~= prefix.push(x) + t);
    }
}

/// Reads the rest of a string literal: `characters[start..]` follows the opening quote.
fn read_string(characters: &Vec<char>, start: usize) -> (result: Result<(String, usize), Error>)
    requires
        start <= characters@.len(),
    ensures
        match string_literal(characters@, start as int) {
            Ok((v, j)) => result matches Ok((value, end)) && value@ == v && end == j,
            Err(m) => result matches Err(e) && e@ == m,
        },
{
    let n = characters.len();
    let mut value = String::new();
    let mut i = start;
    while i < n
        invariant
            n == characters@.len(),
            start <= i <= n,
            match string_literal(characters@, start as int) {
                Ok((v, j)) => string_literal(characters@, i as int) matches Ok((w, k)) && v
                    == value@ + w && j == k,
                Err(m) => string_literal(characters@, i as int) == Err::<(Seq<char>, int), Seq<char>>(m),
            },
        decreases n - i,
    {
        let character = characters[i];
        if character == '"' {
            proof {
                assert(value@ + seq![] =~= value@);
            }
            return Ok((value, i + 1));
        } else if character == '\\' {
            if i + 1 >= n {
                return Err(Error::new(owned("unterminated escape sequence in string")));
            }
            let e = characters[i + 1];
            let c = if e == 'n' {
                '\n'
            } else if e == 'r' {
                '\r'
            } else if e == 't' {
                '\t'
            } else if e == '"' {
                '"'
            } else if e == '\\' {
                '\\'
            } else {
                let mut message = owned("unsupported string escape `\\");
                push_char(&mut message, e);
                message.append("`");
                return Err(Error::new(message));
            };
            let ghost before = value@;
            push_char(&mut value, c);
            proof {
                if let Ok((w, k)) = string_literal(characters@, i + 2) {
                    assert(before + (seq![c] + w) =~= value@ + w);
                }
            }
            i = i + 2;
        } else {
            let ghost before = value@;
            push_char(&mut value, character);
            proof {
                if let Ok((w, k)) = string_literal(characters@, i + 1) {
                    assert(before + (seq![character] + w) =~= value@ + w);
                }
            }
            i = i + 1;
        }
    }
    Err(Error::new(owned("unterminated string literal")))
}

/// Splits source text into tokens. Comments run from `;` to the end of the line.
pub fn tokenize(source: &str) -> (result: Result<Vec<Token>, Error>)
    ensures
        match lex(source@, 0) {
            Ok(t) => result matches Ok(tokens) && lexemes(tokens@) == t,
            Err(m) => result matches Err(e) && e@ == m,
        },
{
    let characters = chars_of(source);
    let n = characters.len();
    let mut tokens: Vec<Token> = Vec::new();
    let mut i: usize = 0;
    while i < n
        invariant
            n == characters@.len(),
            characters@ == source@,
            i <= n,
            lex(source@, 0) == after(lexemes(tokens@), lex(source@, i as int)),
        decreases n - i,
    {
        let ghost s = source@;
        let ghost before = tokens@;
        let c = characters[i];
        if c == '(' || c == ')' || c == '[' || c == ']' {
            let token = if c == '(' {
                Token::LeftParenthesis
            } else if c == ')' {
                Token::RightParenthesis
            } else if c == '[' {
                Token::LeftBracket
            } else {
                Token::RightBracket
            };
            proof {
                lemma_after_push(lexemes(before), token@, lex(s, i + 1));
            }
            tokens.push(token);
            assert(lexemes(tokens@) =~= lexemes(before).push(token@));
            i = i + 1;
        } else if c == ';' {
            let mut j = i + 1;
            while j < n && characters[j] != '\n'
                invariant
                    n == characters@.len(),
                    i < j <= n,
                    comment_end(characters@, i + 1) == comment_end(characters@, j as int),
                decreases n - j,
            {
                j = j + 1;
            }
            if j < n {
                j = j + 1;
            }
            i = j;
        } else if c == '"' {
            proof {
                lemma_string_literal(s, i + 1);
            }
            match read_string(&characters, i + 1) {
                Ok((value, end)) => {
                    let token = Token::String(value);
                    proof {
                        lemma_after_push(lexemes(before), token@, lex(s, end as int));
                    }
                    tokens.push(token);
                    assert(lexemes(tokens@) =~= lexemes(before).push(token@));
                    i = end;
                },
                Err(e) => {
                    return Err(e);
                },
            }
        } else if char_is_whitespace(c) {
            i = i + 1;
        } else {
            let mut atom = String::new();
            push_char(&mut atom, c);
            let mut j = i + 1;
            while j < n && !char_is_whitespace(characters[j]) && characters[j] != '('
                && characters[j] != ')' && characters[j] != '[' && characters[j] != ']'
                && characters[j] != ';'
                invariant
                    n == characters@.len(),
                    i < j <= n,
                    atom_end(characters@, i + 1) == atom_end(characters@, j as int),
                    atom@ == characters@.subrange(i as int, j as int),
                decreases n - j,
            {
                let ghost before_atom = atom@;
                push_char(&mut atom, characters[j]);
                assert(atom@ =~= characters@.subrange(i as int, j + 1));
                j = j + 1;
            }
            let token = Token::Atom(atom);
            proof {
                lemma_after_push(lexemes(before), token@, lex(s, j as int));
            }
            tokens.push(token);
            assert(lexemes(tokens@) =~= lexemes(before).push(token@));
            i = j;
        }
    }
    assert(lexemes(tokens@) + seq![] =~= lexemes(tokens@));
    Ok(tokens)
}

// ---------------------------------------------------------------------------
// Integers
// ---------------------------------------------------------------------------

/// Whether every character of `d` is an ASCII decimal digit.
pub open spec fn all_digits(d: Seq<char>) -> bool {
    forall|k: int| 0 <= k < d.len() ==> '0' <= #[trigger] d[k] <= '9'
}

/// The number that the decimal digits `d` denote.
pub open spec fn digits_value(d: Seq<char>) -> int
    decreases d.len(),
{
    if d.len() == 0 {
        0
    } else {
        digits_value(d.drop_last()) * 10 + (d.last() as int - '0' as int)
    }
}

/// The integer an atom denotes, as `i64::from_str` reads it: an optional sign, then one
/// or more decimal digits, with a value that fits in 64 signed bits.
pub open spec fn atom_integer(a: Seq<char>) -> Option<i64> {
    let signed = a.len() > 0 && (a[0] == '-' || a[0] == '+');
    let digits = if signed {
        a.drop_first()
    } else {
        a
    };
    if digits.len() == 0 || !all_digits(digits) {
        None
    } else {
        let value = if a[0] == '-' {
            -digits_value(digits)
        } else {
            digits_value(digits)
        };
        if i64::MIN <= value <= i64::MAX {
            Some(value as i64)
        } else {
            None
        }
    }
}

/// A bound above every magnitude that fits in an `i64`.
pub open spec fn magnitude_cap() -> int {
    9223372036854775809
}

/// A string of digits denotes a nonnegative number.
proof fn lemma_digits_nonnegative(d: Seq<char>)
    requires
        all_digits(d),
    ensures
        digits_value(d) >= 0,
    decreases d.len(),
{
    if d.len() > 0 {
        assert(all_digits(d.drop_last())) by {
            assert forall|k: int| 0 <= k < d.drop_last().len() implies '0' <= #[trigger] d.drop_last()[k] <= '9' by {
                assert(d.drop_last()[k] == d[k]);
            }
        }
        lemma_digits_nonnegative(d.drop_last());
        assert('0' <= d[d.len() - 1] <= '9');
    }
}

/// Reads an atom as a decimal integer, if it is one.
fn parse_integer(atom: &String) -> (r: Option<i64>)
    ensures
        r == atom_integer(atom@),
{
    let characters = chars_of(atom.as_str());
    let n = characters.len();
    if n == 0 {
        return None;
    }
    let first = characters[0];
    let start: usize = if first == '-' || first == '+' {
        1
    } else {
        0
    };
    if start == n {
        return None;
    }
    let ghost digits = characters@.subrange(start as int, n as int);
    assert(digits =~= if start == 1 { atom@.drop_first() } else { atom@ });
    let mut value: i128 = 0;
    let mut k = start;
    while k < n
        invariant
            n == characters@.len(),
            characters@ == atom@,
            start <= k <= n,
            digits == characters@.subrange(start as int, n as int),
            all_digits(characters@.subrange(start as int, k as int)),
            first == characters@[0],
            start == 1 <==> (first == '-' || first == '+'),
            start == 0 ==> digits =~= atom@,
            start == 1 ==> digits =~= atom@.drop_first(),
            0 <= value <= magnitude_cap(),
            value == (if digits_value(characters@.subrange(start as int, k as int)) < magnitude_cap() {
                digits_value(characters@.subrange(start as int, k as int))
            } else {
                magnitude_cap()
            }),
        decreases n - k,
    {
        let c = characters[k];
        if c < '0' || c > '9' {
            assert(!all_digits(digits)) by {
                assert(digits[k - start] == c);
            }
            return None;
        }
        let ghost prefix = characters@.subrange(start as int, k as int);
        let ghost longer = characters@.subrange(start as int, k + 1);
        assert(longer.drop_last() =~= prefix);
        assert(all_digits(longer)) by {
            assert forall|j: int| 0 <= j < longer.len() implies '0' <= #[trigger] longer[j] <= '9' by {
                if j < prefix.len() {
                    assert(longer[j] == prefix[j]);
                }
            }
        }
        proof {
            lemma_digits_nonnegative(prefix);
        }
        let d = (c as u32 - '0' as u32) as i128;
        let next = value * 10 + d;
        value = if next < 9223372036854775809i128 {
            next
        } else {
            9223372036854775809i128
        };
        k = k + 1;
    }
    assert(characters@.subrange(start as int, n as int) == digits);
    if first == '-' {
        if value <= 9223372036854775808i128 {
            Some((0 - value) as i64)
        } else {
            None
        }
    } else {
        if value <= 9223372036854775807i128 {
            Some(value as i64)
        } else {
            None
        }
    }
}

// ---------------------------------------------------------------------------
// S-expressions
// ---------------------------------------------------------------------------

/// The s-expression that an atom denotes: an integer when it reads as one,
/// otherwise a symbol.
pub open spec fn atom_form(a: Seq<char>) -> Form {
    match atom_integer(a) {
        Some(n) => Form::Integer(n as int),
        None => Form::Symbol(a),
    }
}

/// The s-expression that starts at token `p`, with the index just past it.
pub open spec fn parse_form(t: Seq<Lexeme>, p: int) -> Result<(Form, int), Seq<char>>
    decreases t.len() - p, 1int,
{
    if p < 0 || p >= t.len() {
        Err("expected an expression"@)
    } else {
        match t[p] {
            Lexeme::LeftParenthesis => match parse_items(t, p + 1, Lexeme::RightParenthesis, "unterminated list"@) {
                Ok((items, q)) => Ok((Form::List(items), q)),
                Err(e) => Err(e),
            },
            Lexeme::LeftBracket => match parse_items(t, p + 1, Lexeme::RightBracket, "unterminated generic parameter list"@) {
                Ok((items, q)) => Ok((Form::List(items), q)),
                Err(e) => Err(e),
            },
            Lexeme::RightParenthesis => Err("unexpected `)`"@),
            Lexeme::RightBracket => Err("unexpected `]`"@),
            Lexeme::String(v) => Ok((Form::String(v), p + 1)),
            Lexeme::Atom(a) => Ok((atom_form(a), p + 1)),
        }
    }
}

/// The items of a list whose first item is at token `p`, up to the token `closing`,
/// with the index just past `closing`. `unterminated` is reported when the tokens end first.
pub open spec fn parse_items(t: Seq<Lexeme>, p: int, closing: Lexeme, unterminated: Seq<char>) -> Result<(Seq<Form>, int), Seq<char>>
    decreases t.len() - p, 2int,
{
    if p < 0 || p >= t.len() {
        Err(unterminated)
    } else if t[p] == closing {
        Ok((seq![], p + 1))
    } else {
        match parse_form(t, p) {
            Ok((f, q)) => if p < q <= t.len() {
                match parse_items(t, q, closing, unterminated) {
                    Ok((fs, r)) => Ok((seq![f] + fs, r)),
                    Err(e) => Err(e),
                }
            } else {
                Err(unterminated)
            },
            Err(e) => Err(e),
        }
    }
}

/// The top-level s-expressions from token `p` to the end.
pub open spec fn parse_forms(t: Seq<Lexeme>, p: int) -> Result<Seq<Form>, Seq<char>>
    decreases t.len() - p,
{
    if p < 0 || p >= t.len() {
        Ok(seq![])
    } else {
        match parse_form(t, p) {
            Ok((f, q)) => if p < q <= t.len() {
                after(seq![f], parse_forms(t, q))
            } else {
                Ok(seq![])
            },
            Err(e) => Err(e),
        }
    }
}

/// What reading a Kal source text gives: its top-level s-expressions, of which there
/// is at least one, or the first error.
pub open spec fn read_source(s: Seq<char>) -> Result<Seq<Form>, Seq<char>> {
    match lex(s, 0) {
        Err(e) => Err(e),
        Ok(t) => match parse_forms(t, 0) {
            Err(e) => Err(e),
            Ok(fs) => if fs.len() == 0 {
                Err("expected a top-level form"@)
            } else {
                Ok(fs)
            },
        },
    }
}

/// A form that is read ends past its first token, within the tokens.
proof fn lemma_parse_progress(t: Seq<Lexeme>, p: int)
    ensures
        parse_form(t, p) matches Ok((_, q)) ==> p < q <= t.len(),
    decreases t.len() - p, 1int,
{
    if 0 <= p < t.len() {
        match t[p] {
            Lexeme::LeftParenthesis => lemma_items_progress(t, p + 1, Lexeme::RightParenthesis, "unterminated list"@),
            Lexeme::LeftBracket => lemma_items_progress(t, p + 1, Lexeme::RightBracket, "unterminated generic parameter list"@),
            _ => {},
        }
    }
}

/// The items of a list that are read end past where they start, within the tokens.
proof fn lemma_items_progress(t: Seq<Lexeme>, p: int, closing: Lexeme, unterminated: Seq<char>)
    ensures
        parse_items(t, p, closing, unterminated) matches Ok((_, q)) ==> p < q <= t.len(),
    decreases t.len() - p, 2int,
{
    if 0 <= p < t.len() && t[p] != closing {
        lemma_parse_progress(t, p);
        if let Ok((f, q)) = parse_form(t, p) {
            if p < q <= t.len() {
                lemma_items_progress(t, q, closing, unterminated);
            }
        }
    }
}

/// Whether two tokens are the same.
fn same_token(a: &Token, b: &Token) -> (r: bool)
    ensures
        r == (a@ == b@),
{
    match (a, b) {
        (Token::LeftParenthesis, Token::LeftParenthesis) => true,
        (Token::RightParenthesis, Token::RightParenthesis) => true,
        (Token::LeftBracket, Token::LeftBracket) => true,
        (Token::RightBracket, Token::RightBracket) => true,
        (Token::Atom(x), Token::Atom(y)) => *x == *y,
        (Token::String(x), Token::String(y)) => *x == *y,
        _ => false,
    }
}

struct Parser<'a> {
    tokens: &'a [Token],
}

impl<'a> Parser<'a> {
    /// Reads the s-expression at token `position`, and gives the index just past it.
    fn expression(&self, position: usize) -> (result: Result<(Expression, usize), Error>)
        requires
            position <= self.tokens@.len(),
        ensures
            match parse_form(lexemes(self.tokens@), position as int) {
                Ok((f, q)) => result matches Ok((e, end)) && e@ == f && end == q,
                Err(m) => result matches Err(e) && e@ == m,
            },
        decreases self.tokens@.len() - position, 1int,
    {
        let ghost t = lexemes(self.tokens@);
        if position >= self.tokens.len() {
            return Err(Error::new(owned("expected an expression")));
        }
        let p = position;
        assert(t[p as int] == self.tokens@[p as int]@);
        match &self.tokens[p] {
            Token::LeftParenthesis => self.list(p + 1, &Token::RightParenthesis, "unterminated list"),
            Token::LeftBracket => self.list(p + 1, &Token::RightBracket, "unterminated generic parameter list"),
            Token::RightParenthesis => Err(Error::new(owned("unexpected `)`"))),
            Token::RightBracket => Err(Error::new(owned("unexpected `]`"))),
            Token::String(value) => Ok((Expression::String(value.clone()), p + 1)),
            Token::Atom(atom) => match parse_integer(atom) {
                Some(integer) => Ok((Expression::Integer(integer), p + 1)),
                None => Ok((Expression::Symbol(atom.clone()), p + 1)),
            },
        }
    }

    /// Reads list items from token `position` up to the token `closing`, and gives
    /// the index just past `closing`.
    fn list(&self, position: usize, closing: &Token, unterminated: &str) -> (result: Result<(Expression, usize), Error>)
        requires
            position <= self.tokens@.len(),
        ensures
            match parse_items(lexemes(self.tokens@), position as int, closing@, unterminated@) {
                Ok((fs, q)) => result matches Ok((e, end)) && e@ == Form::List(fs) && end == q,
                Err(m) => result matches Err(e) && e@ == m,
            },
        decreases self.tokens@.len() - position, 2int,
    {
        let ghost t = lexemes(self.tokens@);
        let ghost start = position as int;
        let mut expressions: Vec<Expression> = Vec::new();
        let mut p = position;
        loop
            invariant
                t == lexemes(self.tokens@),
                start == position,
                start <= p <= self.tokens@.len(),
                match parse_items(t, start, closing@, unterminated@) {
                    Ok((fs, q)) => parse_items(t, p as int, closing@, unterminated@) matches Ok((gs, r))
                        && fs == forms(expressions@) + gs && q == r,
                    Err(m) => parse_items(t, p as int, closing@, unterminated@) == Err::<(Seq<Form>, int), Seq<char>>(m),
                },
            decreases self.tokens@.len() - p,
        {
            if p >= self.tokens.len() {
                assert(parse_items(t, p as int, closing@, unterminated@) == Err::<(Seq<Form>, int), Seq<char>>(unterminated@));
                return Err(Error::new(owned(unterminated)));
            }
            assert(t[p as int] == self.tokens@[p as int]@);
            if same_token(&self.tokens[p], closing) {
                let r = Expression::List(expressions);
                proof {
                    assert(r@->List_0 =~= forms(expressions@));
                    if let Ok((fs, q)) = parse_items(t, start, closing@, unterminated@) {
                        assert(forms(expressions@) + seq![] =~= forms(expressions@));
                    }
                }
                return Ok((r, p + 1));
            }
            proof {
                lemma_parse_progress(t, p as int);
            }
            let (e, next) = match self.expression(p) {
                Ok(found) => found,
                Err(error) => {
                    return Err(error);
                },
            };
            let ghost before = forms(expressions@);
            expressions.push(e);
            proof {
                assert(forms(expressions@) =~= before.push(e@));
                if let Ok((fs, q)) = parse_items(t, start, closing@, unterminated@) {
                    if let Ok((gs, r)) = parse_items(t, next as int, closing@, unterminated@) {
                        assert(before + (seq![e@] + gs) =~= forms(expressions@) + gs);
                    }
                }
            }
            p = next;
        }
    }
}

/// Reads Kal source text into its top-level s-expressions.
pub fn parse(source: &str) -> (result: Result<Vec<Expression>, Error>)
    ensures
        match read_source(source@) {
            Ok(fs) => result matches Ok(v) && forms(v@) == fs,
            Err(m) => result matches Err(e) && e@ == m,
        },
{
    let tokens = match tokenize(source) {
        Ok(tokens) => tokens,
        Err(error) => {
            return Err(error);
        },
    };
    let ghost t = lexemes(tokens@);
    let parser = Parser { tokens: tokens.as_slice() };
    let mut expressions: Vec<Expression> = Vec::new();
    let mut position: usize = 0;
    while position != tokens.len()
        invariant
            parser.tokens@ == tokens@,
            t == lexemes(tokens@),
            lex(source@, 0) == Ok::<Seq<Lexeme>, Seq<char>>(t),
            position <= tokens@.len(),
            parse_forms(t, 0) == after(forms(expressions@), parse_forms(t, position as int)),
        decreases tokens@.len() - position,
    {
        proof {
            lemma_parse_progress(t, position as int);
        }
        let (e, next) = match parser.expression(position) {
            Ok(found) => found,
            Err(error) => {
                return Err(error);
            },
        };
        let ghost before = forms(expressions@);
        expressions.push(e);
        proof {
            assert(forms(expressions@) =~= before.push(e@));
            lemma_after_push(before, e@, parse_forms(t, next as int));
        }
        position = next;
    }
    assert(forms(expressions@) + seq![] =~= forms(expressions@));
    if expressions.len() == 0 {
        return Err(Error::new(owned("expected a top-level form")));
    }
    Ok(expressions)
}

} // verus!
