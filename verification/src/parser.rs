//! Recursive-descent parser for LTL formulas.
//!
//! | Token | Meaning |
//! |-------|---------|
//! | `G`, `globally`, `always` | Globally |
//! | `F`, `eventually`, `eventally` | Finally |
//! | `X`, `next` | Next |
//! | `U`, `until` | Until |
//! | `R`, `release` | Release |
//! | `!` | Negation |
//! | `&` | Conjunction |
//! | `\|` | Disjunction |
//! | `->` | Implication |
//!
//! Precedence (lowest to highest): implication, until/release, or, and,
//! negation and unary temporal operators, atoms and parentheses. Every
//! binary operator groups to the right.
use crate::formula::FormulaModel;
use crate::formula::LtlFormula;
use vstd::prelude::*;

verus! {

// ─── Tokens ────────────────────────────────────────────────────────────

/// A lexical token.
enum Token {
    Atom(String),
    Not,
    And,
    Or,
    Implies,
    LParen,
    RParen,
    Globally,
    Finally,
    Next,
    Until,
    Release,
}

/// The mathematical value of a token.
pub enum TokenModel {
    Atom(Seq<char>),
    Not,
    And,
    Or,
    Implies,
    LParen,
    RParen,
    Globally,
    Finally,
    Next,
    Until,
    Release,
}

impl View for Token {
    type V = TokenModel;

    closed spec fn view(&self) -> TokenModel {
        match self {
            Token::Atom(s) => TokenModel::Atom(s@),
            Token::Not => TokenModel::Not,
            Token::And => TokenModel::And,
            Token::Or => TokenModel::Or,
            Token::Implies => TokenModel::Implies,
            Token::LParen => TokenModel::LParen,
            Token::RParen => TokenModel::RParen,
            Token::Globally => TokenModel::Globally,
            Token::Finally => TokenModel::Finally,
            Token::Next => TokenModel::Next,
            Token::Until => TokenModel::Until,
            Token::Release => TokenModel::Release,
        }
    }
}

/// How a token is written in error messages.
pub open spec fn token_text(t: TokenModel) -> Seq<char> {
    match t {
        TokenModel::Atom(s) => s,
        TokenModel::Not => "!"@,
        TokenModel::And => "&"@,
        TokenModel::Or => "|"@,
        TokenModel::Implies => "->"@,
        TokenModel::LParen => "("@,
        TokenModel::RParen => ")"@,
        TokenModel::Globally => "G"@,
        TokenModel::Finally => "F"@,
        TokenModel::Next => "X"@,
        TokenModel::Until => "U"@,
        TokenModel::Release => "R"@,
    }
}

impl Token {
    fn text(&self) -> (s: String)
        ensures
            s@ == token_text(self@),
    {
        match self {
            Token::Atom(s) => s.clone(),
            Token::Not => "!".to_owned(),
            Token::And => "&".to_owned(),
            Token::Or => "|".to_owned(),
            Token::Implies => "->".to_owned(),
            Token::LParen => "(".to_owned(),
            Token::RParen => ")".to_owned(),
            Token::Globally => "G".to_owned(),
            Token::Finally => "F".to_owned(),
            Token::Next => "X".to_owned(),
            Token::Until => "U".to_owned(),
            Token::Release => "R".to_owned(),
        }
    }
}

/// The models of a token list.
spec fn token_models(ts: Seq<Token>) -> Seq<TokenModel> {
    ts.map_values(|t: Token| t@)
}

// ─── Errors ────────────────────────────────────────────────────────────

/// Why an input is rejected.
pub enum ParseErrorModel {
    /// A `-` not followed by `>`, at this character index.
    UnexpectedDash(nat),
    /// An empty word at this character index.
    EmptyToken(nat),
    /// A word that is neither a keyword nor an identifier, at this index.
    InvalidAtom(Seq<char>, nat),
    /// The tokens ran out where a formula was expected.
    UnexpectedEnd,
    /// No `)` at this token position; the text is what stood there.
    ExpectedClose(nat, Seq<char>),
    /// A token (given by its text) that cannot stand at this position.
    UnexpectedToken(Seq<char>, nat),
}

/// Why an input is rejected (executable form).
#[derive(Debug)]
pub enum ParseError {
    UnexpectedDash(usize),
    EmptyToken(usize),
    InvalidAtom(String, usize),
    UnexpectedEnd,
    ExpectedClose(usize, String),
    UnexpectedToken(String, usize),
}

impl View for ParseError {
    type V = ParseErrorModel;

    closed spec fn view(&self) -> ParseErrorModel {
        match self {
            ParseError::UnexpectedDash(i) => ParseErrorModel::UnexpectedDash(*i as nat),
            ParseError::EmptyToken(i) => ParseErrorModel::EmptyToken(*i as nat),
            ParseError::InvalidAtom(w, i) => ParseErrorModel::InvalidAtom(w@, *i as nat),
            ParseError::UnexpectedEnd => ParseErrorModel::UnexpectedEnd,
            ParseError::ExpectedClose(p, got) => ParseErrorModel::ExpectedClose(*p as nat, got@),
            ParseError::UnexpectedToken(t, p) => ParseErrorModel::UnexpectedToken(t@, *p as nat),
        }
    }
}

/// The decimal digits of `n`.
pub open spec fn decimal(n: nat) -> Seq<char>
    decreases n,
{
    if n < 10 {
        seq!["0123456789"@[n as int]]
    } else {
        decimal(n / 10) + seq!["0123456789"@[(n % 10) as int]]
    }
}

/// The text of an error.
pub open spec fn error_message(e: ParseErrorModel) -> Seq<char> {
    match e {
        ParseErrorModel::UnexpectedDash(i) => "Unexpected '-' at index "@ + decimal(i),
        ParseErrorModel::EmptyToken(i) => "Empty token at index "@ + decimal(i),
        ParseErrorModel::InvalidAtom(w, i) => "Invalid atom '"@ + w + "' at index "@ + decimal(i),
        ParseErrorModel::UnexpectedEnd => "Unexpected end of input"@,
        ParseErrorModel::ExpectedClose(p, got) => "Expected ')' at position "@ + decimal(p) + ", got "@ + got,
        ParseErrorModel::UnexpectedToken(t, p) => "Unexpected token '"@ + t + "' at position "@ + decimal(p),
    }
}

/// The decimal digits of `n`.
fn decimal_string(n: usize) -> (s: String)
    ensures
        s@ == decimal(n as nat),
    decreases n,
{
    let digits = "0123456789";
    proof {
        reveal_strlit("0123456789");
    }
    if n < 10 {
        let d = digits.substring_char(n, n + 1);
        assert(d@ =~= seq!["0123456789"@[n as int]]);
        d.to_owned()
    } else {
        let mut s = decimal_string(n / 10);
        let last = n % 10;
        let d = digits.substring_char(last, last + 1);
        assert(d@ =~= seq!["0123456789"@[last as int]]);
        s.append(d);
        s
    }
}

impl ParseError {
    /// The text of this error.
    pub fn message(&self) -> (s: String)
        ensures
            s@ == error_message(self@),
    {
        match self {
            ParseError::UnexpectedDash(i) => {
                let mut s = "Unexpected '-' at index ".to_owned();
                let n = decimal_string(*i);
                s.append(n.as_str());
                s
            },
            ParseError::EmptyToken(i) => {
                let mut s = "Empty token at index ".to_owned();
                let n = decimal_string(*i);
                s.append(n.as_str());
                s
            },
            ParseError::InvalidAtom(w, i) => {
                let mut s = "Invalid atom '".to_owned();
                s.append(w.as_str());
                s.append("' at index ");
                let n = decimal_string(*i);
                s.append(n.as_str());
                s
            },
            ParseError::UnexpectedEnd => "Unexpected end of input".to_owned(),
            ParseError::ExpectedClose(p, got) => {
                let mut s = "Expected ')' at position ".to_owned();
                let n = decimal_string(*p);
                s.append(n.as_str());
                s.append(", got ");
                s.append(got.as_str());
                s
            },
            ParseError::UnexpectedToken(t, p) => {
                let mut s = "Unexpected token '".to_owned();
                s.append(t.as_str());
                s.append("' at position ");
                let n = decimal_string(*p);
                s.append(n.as_str());
                s
            },
        }
    }
}

// ─── Tokenizer ─────────────────────────────────────────────────────────

/// The Unicode "alphanumeric" property of a character, as std's
/// `char::is_alphanumeric` decides it.
pub uninterp spec fn char_is_alphanumeric(c: char) -> bool;

/// An ASCII letter or digit.
pub open spec fn is_ascii_alphanumeric(c: char) -> bool {
    ('a' <= c && c <= 'z') || ('A' <= c && c <= 'Z') || ('0' <= c && c <= '9')
}

/// What std documents of `char::is_alphanumeric` on an ASCII character
/// `c`: it holds exactly of the ASCII letters and digits.
pub open spec fn ascii_classified(c: char) -> bool {
    (c as u32) < 128 ==> (char_is_alphanumeric(c) <==> is_ascii_alphanumeric(c))
}

/// Calls `char::is_alphanumeric`. The result is named: std decides it from
/// the Unicode tables. For an ASCII character std documents it exactly: the
/// letters `A`–`Z`, `a`–`z` and the digits `0`–`9`.
#[verifier::external_body]
fn is_alphanumeric(c: char) -> (r: bool)
    ensures
        r == char_is_alphanumeric(c),
        (c as u32) < 128 ==> (r <==> is_ascii_alphanumeric(c)),
{
    c.is_alphanumeric()
}

/// Blank characters, which only separate tokens.
pub open spec fn is_space(c: char) -> bool {
    c == ' ' || c == '\t' || c == '\n' || c == '\r'
}

/// Characters that end a word.
pub open spec fn is_delimiter(c: char) -> bool {
    is_space(c) || c == '(' || c == ')' || c == '!' || c == '&' || c == '|' || c == '-'
}

/// A character allowed in an atom's name.
pub open spec fn is_atom_char(c: char) -> bool {
    char_is_alphanumeric(c) || c == '_'
}

/// The index at which the word starting at `i` ends.
pub open spec fn word_end(cs: Seq<char>, i: nat) -> nat
    decreases cs.len() - i,
{
    if i < cs.len() && !is_delimiter(cs[i as int]) {
        word_end(cs, i + 1)
    } else {
        i
    }
}

/// The temporal keywords and their aliases.
pub open spec fn keyword(w: Seq<char>) -> Option<TokenModel> {
    if w == "G"@ || w == "globally"@ || w == "always"@ {
        Some(TokenModel::Globally)
    } else if w == "F"@ || w == "eventually"@ || w == "eventally"@ {
        Some(TokenModel::Finally)
    } else if w == "X"@ || w == "next"@ {
        Some(TokenModel::Next)
    } else if w == "U"@ || w == "until"@ {
        Some(TokenModel::Until)
    } else if w == "R"@ || w == "release"@ {
        Some(TokenModel::Release)
    } else {
        None
    }
}

/// The token that the word `w`, found at index `start`, stands for.
pub open spec fn word_token(w: Seq<char>, start: nat) -> Result<TokenModel, ParseErrorModel> {
    match keyword(w) {
        Some(t) => Ok(t),
        None => {
            if w.len() == 0 {
                Err(ParseErrorModel::EmptyToken(start))
            } else if forall|k: int| 0 <= k < w.len() ==> #[trigger] is_atom_char(w[k]) {
                Ok(TokenModel::Atom(w))
            } else {
                Err(ParseErrorModel::InvalidAtom(w, start))
            }
        },
    }
}

/// `t` in front of the tokens of a successful result.
pub open spec fn prepend(t: TokenModel, r: Result<Seq<TokenModel>, ParseErrorModel>) -> Result<
    Seq<TokenModel>,
    ParseErrorModel,
> {
    match r {
        Ok(ts) => Ok(seq![t] + ts),
        Err(e) => Err(e),
    }
}

/// `front` in front of the tokens of a successful result.
pub open spec fn extend(front: Seq<TokenModel>, r: Result<Seq<TokenModel>, ParseErrorModel>) -> Result<
    Seq<TokenModel>,
    ParseErrorModel,
> {
    match r {
        Ok(ts) => Ok(front + ts),
        Err(e) => Err(e),
    }
}

/// The tokens of `cs` from character index `i` on.
pub open spec fn tokens_from(cs: Seq<char>, i: nat) -> Result<Seq<TokenModel>, ParseErrorModel>
    decreases cs.len() - i,
{
    if i >= cs.len() {
        Ok(Seq::empty())
    } else {
        let c = cs[i as int];
        if is_space(c) {
            tokens_from(cs, i + 1)
        } else if c == '(' {
            prepend(TokenModel::LParen, tokens_from(cs, i + 1))
        } else if c == ')' {
            prepend(TokenModel::RParen, tokens_from(cs, i + 1))
        } else if c == '!' {
            prepend(TokenModel::Not, tokens_from(cs, i + 1))
        } else if c == '&' {
            prepend(TokenModel::And, tokens_from(cs, i + 1))
        } else if c == '|' {
            prepend(TokenModel::Or, tokens_from(cs, i + 1))
        } else if c == '-' {
            if i + 1 < cs.len() && cs[i + 1int] == '>' {
                prepend(TokenModel::Implies, tokens_from(cs, i + 2))
            } else {
                Err(ParseErrorModel::UnexpectedDash(i))
            }
        } else {
            let e = word_end(cs, i);
            match word_token(cs.subrange(i as int, e as int), i) {
                Err(err) => Err(err),
                Ok(t) => if i < e <= cs.len() {
                    prepend(t, tokens_from(cs, e))
                } else {
                    Err(ParseErrorModel::EmptyToken(i))
                },
            }
        }
    }
}

/// The tokens of a whole input.
pub open spec fn tokenize_spec(cs: Seq<char>) -> Result<Seq<TokenModel>, ParseErrorModel> {
    tokens_from(cs, 0)
}

proof fn lemma_extend_prepend(front: Seq<TokenModel>, t: TokenModel, r: Result<Seq<TokenModel>, ParseErrorModel>)
    ensures
        extend(front, prepend(t, r)) == extend(front.push(t), r),
{
    if let Ok(ts) = r {
        assert(front + (seq![t] + ts) =~= front.push(t) + ts);
    }
}

/// The word from `i` ends no earlier than `i` and inside the input.
pub(crate) proof fn lemma_word_end_bounds(cs: Seq<char>, i: nat)
    requires
        i <= cs.len(),
    ensures
        i <= word_end(cs, i) <= cs.len(),
    decreases cs.len() - i,
{
    if i < cs.len() && !is_delimiter(cs[i as int]) {
        lemma_word_end_bounds(cs, i + 1);
    }
}

fn is_delimiter_char(c: char) -> (r: bool)
    ensures
        r == is_delimiter(c),
{
    c == ' ' || c == '\t' || c == '\n' || c == '\r' || c == '(' || c == ')' || c == '!' || c == '&' || c
        == '|' || c == '-'
}

/// Whether `chars[start..end]` spells `lit`.
fn word_is(chars: &Vec<char>, start: usize, end: usize, lit: &str) -> (r: bool)
    requires
        start <= end <= chars@.len(),
    ensures
        r == (chars@.subrange(start as int, end as int) == lit@),
{
    let n = lit.unicode_len();
    if n != end - start {
        return false;
    }
    let mut k: usize = 0;
    while k < n
        invariant
            n == lit@.len(),
            n == end - start,
            start <= end <= chars@.len(),
            k <= n,
            forall|m: int| 0 <= m < k ==> chars@[start + m] == lit@[m],
        decreases n - k,
    {
        if chars[start + k] != lit.get_char(k) {
            assert(chars@.subrange(start as int, end as int)[k as int] != lit@[k as int]);
            return false;
        }
        k = k + 1;
    }
    assert(chars@.subrange(start as int, end as int) =~= lit@);
    true
}

/// The token that `chars[start..end]` stands for.
fn word_token_of(input: &str, chars: &Vec<char>, alnum: &Vec<bool>, start: usize, end: usize) -> (r: Result<
    Token,
    ParseError,
>)
    requires
        chars@ == input@,
        alnum@ == alphanumeric_classes(chars@),
        start <= end <= chars@.len(),
    ensures
        match word_token(chars@.subrange(start as int, end as int), start as nat) {
            Ok(t) => r is Ok && r->Ok_0@ == t,
            Err(e) => r is Err && r->Err_0@ == e,
        },
{
    let ghost w = chars@.subrange(start as int, end as int);
    if word_is(chars, start, end, "G") || word_is(chars, start, end, "globally") || word_is(
        chars,
        start,
        end,
        "always",
    ) {
        return Ok(Token::Globally);
    }
    if word_is(chars, start, end, "F") || word_is(chars, start, end, "eventually") || word_is(
        chars,
        start,
        end,
        "eventally",
    ) {
        return Ok(Token::Finally);
    }
    if word_is(chars, start, end, "X") || word_is(chars, start, end, "next") {
        return Ok(Token::Next);
    }
    if word_is(chars, start, end, "U") || word_is(chars, start, end, "until") {
        return Ok(Token::Until);
    }
    if word_is(chars, start, end, "R") || word_is(chars, start, end, "release") {
        return Ok(Token::Release);
    }
    assert(keyword(w) is None);
    let word = input.substring_char(start, end).to_owned();
    let mut classes: Vec<bool> = Vec::new();
    let mut k = start;
    while k < end
        invariant
            start <= k <= end,
            end <= chars@.len(),
            w == chars@.subrange(start as int, end as int),
            alnum@ == alphanumeric_classes(chars@),
            classes@.len() == k - start,
            forall|m: int| 0 <= m < k - start ==> #[trigger] classes@[m] == char_is_alphanumeric(w[m]),
        decreases end - k,
    {
        classes.push(alnum[k]);
        k = k + 1;
    }
    proof {
        assert(classes@ =~= alphanumeric_classes(w));
        assert forall|m: int| 0 <= m < w.len() implies #[trigger] is_atom_char(w[m]) == (classes@[m] || w[m]
            == '_') by {}
        if forall|m: int| 0 <= m < w.len() ==> #[trigger] is_atom_char(w[m]) {
            assert forall|m: int| 0 <= m < w.len() implies #[trigger] classes@[m] || w[m] == '_' by {
                assert(is_atom_char(w[m]));
            }
        }
        assert(word@ == w);
    }
    match atom_token(word.as_str(), start, &classes) {
        Ok(name) => Ok(Token::Atom(name)),
        Err(e) => Err(e),
    }
}

/// For each character of `w`, whether it is alphanumeric.
pub open spec fn alphanumeric_classes(w: Seq<char>) -> Seq<bool> {
    Seq::new(w.len(), |k: int| char_is_alphanumeric(w[k]))
}

/// The atom a word that is not a keyword stands for, found at index
/// `start`, given for each of its characters whether it is alphanumeric:
/// the word itself if it is non-empty and each character is alphanumeric
/// or `_`, else the error.
pub open spec fn atom_outcome(w: Seq<char>, start: nat, alphanumeric: Seq<bool>) -> Result<
    Seq<char>,
    ParseErrorModel,
> {
    if w.len() == 0 {
        Err(ParseErrorModel::EmptyToken(start))
    } else if forall|k: int| 0 <= k < w.len() ==> #[trigger] alphanumeric[k] || w[k] == '_' {
        Ok(w)
    } else {
        Err(ParseErrorModel::InvalidAtom(w, start))
    }
}

/// Decides the atom that `word`, a word found at index `start` that is not
/// a keyword, stands for, given in `alphanumeric` for each of its characters
/// whether `char::is_alphanumeric` holds of it.
pub fn atom_token(word: &str, start: usize, alphanumeric: &Vec<bool>) -> (r: Result<String, ParseError>)
    requires
        alphanumeric@.len() == word@.len(),
    ensures
        match atom_outcome(word@, start as nat, alphanumeric@) {
            Ok(name) => r is Ok && r->Ok_0@ == name,
            Err(e) => r is Err && r->Err_0@ == e,
        },
{
    let n = word.unicode_len();
    if n == 0 {
        return Err(ParseError::EmptyToken(start));
    }
    let mut k: usize = 0;
    while k < n
        invariant
            n == word@.len(),
            n == alphanumeric@.len(),
            k <= n,
            forall|m: int| 0 <= m < k ==> #[trigger] alphanumeric@[m] || word@[m] == '_',
        decreases n - k,
    {
        if !(alphanumeric[k] || word.get_char(k) == '_') {
            return Err(ParseError::InvalidAtom(word.to_owned(), start));
        }
        k = k + 1;
    }
    Ok(word.to_owned())
}

/// Split `input` into tokens.
fn tokenize(input: &str) -> (r: Result<Vec<Token>, ParseError>)
    ensures
        match tokenize_spec(input@) {
            Ok(ts) => r is Ok && token_models(r->Ok_0@) == ts,
            Err(e) => r is Err && r->Err_0@ == e,
        },
        forall|k: int| 0 <= k < input@.len() ==> #[trigger] ascii_classified(input@[k]),
{
    let mut chars: Vec<char> = Vec::new();
    let mut alnum: Vec<bool> = Vec::new();
    let mut it = input.chars();
    loop
        invariant
            chars@ + vstd::std_specs::iter::IteratorSpec::remaining(&it) == input@,
            vstd::std_specs::iter::IteratorSpec::obeys_prophetic_iter_laws(&it),
            alnum@ == alphanumeric_classes(chars@),
            forall|k: int| 0 <= k < chars@.len() ==> #[trigger] ascii_classified(chars@[k]),
        ensures
            chars@ == input@,
            alnum@ == alphanumeric_classes(chars@),
            forall|k: int| 0 <= k < chars@.len() ==> #[trigger] ascii_classified(chars@[k]),
        decreases input@.len() - chars@.len(),
    {
        let ghost before = vstd::std_specs::iter::IteratorSpec::remaining(&it);
        match it.next() {
            Some(c) => {
                let a = is_alphanumeric(c);
                alnum.push(a);
                chars.push(c);
                assert(alnum@ =~= alphanumeric_classes(chars@));
                assert(chars@ + vstd::std_specs::iter::IteratorSpec::remaining(&it) =~= input@);
            },
            None => {
                assert(before.len() == 0);
                assert(chars@ =~= input@);
                break ;
            },
        }
    }
    assert(chars@ =~= input@);
    let ghost cs = input@;
    let n = chars.len();
    let mut tokens: Vec<Token> = Vec::new();
    let mut i: usize = 0;
    while i < n
        invariant
            chars@ == cs,
            cs == input@,
            alnum@ == alphanumeric_classes(cs),
            forall|k: int| 0 <= k < cs.len() ==> #[trigger] ascii_classified(cs[k]),
            n == cs.len(),
            i <= n,
            tokenize_spec(cs) == extend(token_models(tokens@), tokens_from(cs, i as nat)),
        decreases n - i,
    {
        let c = chars[i];
        let ghost front = token_models(tokens@);
        if c == ' ' || c == '\t' || c == '\n' || c == '\r' {
            i = i + 1;
        } else if c == '(' || c == ')' || c == '!' || c == '&' || c == '|' {
            let t = if c == '(' {
                Token::LParen
            } else if c == ')' {
                Token::RParen
            } else if c == '!' {
                Token::Not
            } else if c == '&' {
                Token::And
            } else {
                Token::Or
            };
            proof {
                lemma_extend_prepend(front, t@, tokens_from(cs, (i + 1) as nat));
            }
            tokens.push(t);
            assert(token_models(tokens@) =~= front.push(t@));
            i = i + 1;
        } else if c == '-' {
            if i + 1 < n && chars[i + 1] == '>' {
                proof {
                    lemma_extend_prepend(front, TokenModel::Implies, tokens_from(cs, (i + 2) as nat));
                }
                tokens.push(Token::Implies);
                assert(token_models(tokens@) =~= front.push(TokenModel::Implies));
                i = i + 2;
            } else {
                return Err(ParseError::UnexpectedDash(i));
            }
        } else {
            let start = i;
            i = i + 1;
            while i < n && !is_delimiter_char(chars[i])
                invariant
                    chars@ == cs,
                    n == cs.len(),
                    start < i <= n,
                    word_end(cs, start as nat) == word_end(cs, i as nat),
                decreases n - i,
            {
                i = i + 1;
            }
            assert(word_end(cs, start as nat) == i);
            match word_token_of(input, &chars, &alnum, start, i) {
                Err(e) => {
                    return Err(e);
                },
                Ok(t) => {
                    proof {
                        lemma_extend_prepend(front, t@, tokens_from(cs, i as nat));
                    }
                    tokens.push(t);
                    assert(token_models(tokens@) =~= front.push(t@));
                },
            }
        }
    }
    assert(token_models(tokens@) + Seq::<TokenModel>::empty() =~= token_models(tokens@));
    Ok(tokens)
}

// ─── Grammar ───────────────────────────────────────────────────────────

/// A parsed formula and the position of the first token after it, or the
/// reason for rejecting the tokens.
pub type ParseOutcome = Result<(FormulaModel, nat), ParseErrorModel>;

/// `implication → until_release ( -> implication )?`
pub open spec fn implies_spec(ts: Seq<TokenModel>, pos: nat) -> ParseOutcome
    decreases ts.len() - pos, 5nat,
{
    match until_release_spec(ts, pos) {
        Err(e) => Err(e),
        Ok((left, p1)) => {
            if pos < p1 < ts.len() && ts[p1 as int] is Implies {
                match implies_spec(ts, p1 + 1) {
                    Err(e) => Err(e),
                    Ok((right, p2)) => Ok((FormulaModel::Implies(Box::new(left), Box::new(right)), p2)),
                }
            } else {
                Ok((left, p1))
            }
        },
    }
}

/// `until_release → or ( (U | R) until_release )?`
pub open spec fn until_release_spec(ts: Seq<TokenModel>, pos: nat) -> ParseOutcome
    decreases ts.len() - pos, 4nat,
{
    match or_spec(ts, pos) {
        Err(e) => Err(e),
        Ok((left, p1)) => {
            if pos < p1 < ts.len() && ts[p1 as int] is Until {
                match until_release_spec(ts, p1 + 1) {
                    Err(e) => Err(e),
                    Ok((right, p2)) => Ok((FormulaModel::Until(Box::new(left), Box::new(right)), p2)),
                }
            } else if pos < p1 < ts.len() && ts[p1 as int] is Release {
                match until_release_spec(ts, p1 + 1) {
                    Err(e) => Err(e),
                    Ok((right, p2)) => Ok((FormulaModel::Release(Box::new(left), Box::new(right)), p2)),
                }
            } else {
                Ok((left, p1))
            }
        },
    }
}

/// `or → and ( | or )?`
pub open spec fn or_spec(ts: Seq<TokenModel>, pos: nat) -> ParseOutcome
    decreases ts.len() - pos, 3nat,
{
    match and_spec(ts, pos) {
        Err(e) => Err(e),
        Ok((left, p1)) => {
            if pos < p1 < ts.len() && ts[p1 as int] is Or {
                match or_spec(ts, p1 + 1) {
                    Err(e) => Err(e),
                    Ok((right, p2)) => Ok((FormulaModel::Or(Box::new(left), Box::new(right)), p2)),
                }
            } else {
                Ok((left, p1))
            }
        },
    }
}

/// `and → unary ( & and )?`
pub open spec fn and_spec(ts: Seq<TokenModel>, pos: nat) -> ParseOutcome
    decreases ts.len() - pos, 2nat,
{
    match unary_spec(ts, pos) {
        Err(e) => Err(e),
        Ok((left, p1)) => {
            if pos < p1 < ts.len() && ts[p1 as int] is And {
                match and_spec(ts, p1 + 1) {
                    Err(e) => Err(e),
                    Ok((right, p2)) => Ok((FormulaModel::And(Box::new(left), Box::new(right)), p2)),
                }
            } else {
                Ok((left, p1))
            }
        },
    }
}

/// `op` applied to the result of a successful parse.
pub open spec fn wrap_unary(op: TokenModel, r: ParseOutcome) -> ParseOutcome {
    match r {
        Err(e) => Err(e),
        Ok((inner, p)) => Ok(
            (
                match op {
                    TokenModel::Not => FormulaModel::Not(Box::new(inner)),
                    TokenModel::Globally => FormulaModel::Globally(Box::new(inner)),
                    TokenModel::Finally => FormulaModel::Finally(Box::new(inner)),
                    _ => FormulaModel::Next(Box::new(inner)),
                },
                p,
            ),
        ),
    }
}

/// `unary → (! | G | F | X) unary | primary`
pub open spec fn unary_spec(ts: Seq<TokenModel>, pos: nat) -> ParseOutcome
    decreases ts.len() - pos, 1nat,
{
    if pos >= ts.len() {
        Err(ParseErrorModel::UnexpectedEnd)
    } else {
        let t = ts[pos as int];
        if t is Not || t is Globally || t is Finally || t is Next {
            wrap_unary(t, unary_spec(ts, pos + 1))
        } else {
            primary_spec(ts, pos)
        }
    }
}

/// `primary → ( implication ) | atom`
pub open spec fn primary_spec(ts: Seq<TokenModel>, pos: nat) -> ParseOutcome
    decreases ts.len() - pos, 0nat,
{
    if pos >= ts.len() {
        Err(ParseErrorModel::UnexpectedEnd)
    } else {
        match ts[pos as int] {
            TokenModel::LParen => match implies_spec(ts, pos + 1) {
                Err(e) => Err(e),
                Ok((inner, p)) => {
                    if p < ts.len() && ts[p as int] is RParen {
                        Ok((inner, p + 1))
                    } else {
                        Err(
                            ParseErrorModel::ExpectedClose(
                                p,
                                if p < ts.len() {
                                    token_text(ts[p as int])
                                } else {
                                    "EOF"@
                                },
                            ),
                        )
                    }
                },
            },
            TokenModel::Atom(name) => Ok((FormulaModel::Atomic(name), pos + 1)),
            other => Err(ParseErrorModel::UnexpectedToken(token_text(other), pos)),
        }
    }
}

/// What parsing the text `cs` gives: the formula, or the error message.
pub open spec fn parse_spec(cs: Seq<char>) -> Result<FormulaModel, Seq<char>> {
    match tokenize_spec(cs) {
        Err(e) => Err(error_message(e)),
        Ok(ts) => match implies_spec(ts, 0) {
            Err(e) => Err(error_message(e)),
            Ok((f, p)) => {
                if p < ts.len() {
                    Err(error_message(ParseErrorModel::UnexpectedToken(token_text(ts[p as int]), p)))
                } else {
                    Ok(f)
                }
            },
        },
    }
}

/// The model of an executable parse result and the position it stopped at.
spec fn outcome(r: Result<LtlFormula, ParseError>, p: usize) -> ParseOutcome {
    match r {
        Ok(f) => Ok((f@, p as nat)),
        Err(e) => Err(e@),
    }
}

/// The model of what [`parse`] returns.
pub open spec fn parse_result_model(r: Result<LtlFormula, String>) -> Result<FormulaModel, Seq<char>> {
    match r {
        Ok(f) => Ok(f@),
        Err(s) => Err(s@),
    }
}

fn parse_implies(tokens: &Vec<Token>, pos: &mut usize) -> (r: Result<LtlFormula, ParseError>)
    requires
        *old(pos) <= tokens@.len(),
    ensures
        outcome(r, *final(pos)) == implies_spec(token_models(tokens@), *old(pos) as nat),
        r is Ok ==> *old(pos) < *final(pos) <= tokens@.len(),
    decreases tokens@.len() - *old(pos), 5nat,
{
    let ghost ts = token_models(tokens@);
    let ghost start = *pos as nat;
    let left = parse_until_release(tokens, pos)?;
    if *pos < tokens.len() && matches!(tokens[*pos], Token::Implies) {
        *pos += 1;
        let right = parse_implies(tokens, pos)?;
        Ok(LtlFormula::Implies(Box::new(left), Box::new(right)))
    } else {
        Ok(left)
    }
}

fn parse_until_release(tokens: &Vec<Token>, pos: &mut usize) -> (r: Result<LtlFormula, ParseError>)
    requires
        *old(pos) <= tokens@.len(),
    ensures
        outcome(r, *final(pos)) == until_release_spec(token_models(tokens@), *old(pos) as nat),
        r is Ok ==> *old(pos) < *final(pos) <= tokens@.len(),
    decreases tokens@.len() - *old(pos), 4nat,
{
    let left = parse_or(tokens, pos)?;
    if *pos < tokens.len() {
        match &tokens[*pos] {
            Token::Until => {
                *pos += 1;
                let right = parse_until_release(tokens, pos)?;
                Ok(LtlFormula::Until(Box::new(left), Box::new(right)))
            },
            Token::Release => {
                *pos += 1;
                let right = parse_until_release(tokens, pos)?;
                Ok(LtlFormula::Release(Box::new(left), Box::new(right)))
            },
            _ => Ok(left),
        }
    } else {
        Ok(left)
    }
}

fn parse_or(tokens: &Vec<Token>, pos: &mut usize) -> (r: Result<LtlFormula, ParseError>)
    requires
        *old(pos) <= tokens@.len(),
    ensures
        outcome(r, *final(pos)) == or_spec(token_models(tokens@), *old(pos) as nat),
        r is Ok ==> *old(pos) < *final(pos) <= tokens@.len(),
    decreases tokens@.len() - *old(pos), 3nat,
{
    let left = parse_and(tokens, pos)?;
    if *pos < tokens.len() && matches!(tokens[*pos], Token::Or) {
        *pos += 1;
        let right = parse_or(tokens, pos)?;
        Ok(LtlFormula::Or(Box::new(left), Box::new(right)))
    } else {
        Ok(left)
    }
}

fn parse_and(tokens: &Vec<Token>, pos: &mut usize) -> (r: Result<LtlFormula, ParseError>)
    requires
        *old(pos) <= tokens@.len(),
    ensures
        outcome(r, *final(pos)) == and_spec(token_models(tokens@), *old(pos) as nat),
        r is Ok ==> *old(pos) < *final(pos) <= tokens@.len(),
    decreases tokens@.len() - *old(pos), 2nat,
{
    let left = parse_unary(tokens, pos)?;
    if *pos < tokens.len() && matches!(tokens[*pos], Token::And) {
        *pos += 1;
        let right = parse_and(tokens, pos)?;
        Ok(LtlFormula::And(Box::new(left), Box::new(right)))
    } else {
        Ok(left)
    }
}

fn parse_unary(tokens: &Vec<Token>, pos: &mut usize) -> (r: Result<LtlFormula, ParseError>)
    requires
        *old(pos) <= tokens@.len(),
    ensures
        outcome(r, *final(pos)) == unary_spec(token_models(tokens@), *old(pos) as nat),
        r is Ok ==> *old(pos) < *final(pos) <= tokens@.len(),
    decreases tokens@.len() - *old(pos), 1nat,
{
    if *pos >= tokens.len() {
        return Err(ParseError::UnexpectedEnd);
    }
    match &tokens[*pos] {
        Token::Not => {
            *pos += 1;
            let inner = parse_unary(tokens, pos)?;
            Ok(LtlFormula::Not(Box::new(inner)))
        },
        Token::Globally => {
            *pos += 1;
            let inner = parse_unary(tokens, pos)?;
            Ok(LtlFormula::Globally(Box::new(inner)))
        },
        Token::Finally => {
            *pos += 1;
            let inner = parse_unary(tokens, pos)?;
            Ok(LtlFormula::Finally(Box::new(inner)))
        },
        Token::Next => {
            *pos += 1;
            let inner = parse_unary(tokens, pos)?;
            Ok(LtlFormula::Next(Box::new(inner)))
        },
        _ => parse_primary(tokens, pos),
    }
}

fn parse_primary(tokens: &Vec<Token>, pos: &mut usize) -> (r: Result<LtlFormula, ParseError>)
    requires
        *old(pos) <= tokens@.len(),
    ensures
        outcome(r, *final(pos)) == primary_spec(token_models(tokens@), *old(pos) as nat),
        r is Ok ==> *old(pos) < *final(pos) <= tokens@.len(),
    decreases tokens@.len() - *old(pos), 0nat,
{
    if *pos >= tokens.len() {
        return Err(ParseError::UnexpectedEnd);
    }
    match &tokens[*pos] {
        Token::LParen => {
            *pos += 1;
            let inner = parse_implies(tokens, pos)?;
            if *pos < tokens.len() && matches!(tokens[*pos], Token::RParen) {
                *pos += 1;
                Ok(inner)
            } else {
                let got = if *pos < tokens.len() {
                    tokens[*pos].text()
                } else {
                    "EOF".to_owned()
                };
                Err(ParseError::ExpectedClose(*pos, got))
            }
        },
        Token::Atom(name) => {
            let atom = LtlFormula::Atomic(name.clone());
            *pos += 1;
            Ok(atom)
        },
        other => Err(ParseError::UnexpectedToken(other.text(), *pos)),
    }
}

/// Parse an LTL formula string into an [`LtlFormula`]; on failure, the
/// error describes the first problem found.
pub fn parse(input: &str) -> (r: Result<LtlFormula, String>)
    ensures
        parse_result_model(r) == parse_spec(input@),
        forall|k: int| 0 <= k < input@.len() ==> #[trigger] ascii_classified(input@[k]),
{
    let tokens = match tokenize(input) {
        Ok(t) => t,
        Err(e) => {
            return Err(e.message());
        },
    };
    let mut pos: usize = 0;
    let result = match parse_implies(&tokens, &mut pos) {
        Ok(f) => f,
        Err(e) => {
            return Err(e.message());
        },
    };
    if pos < tokens.len() {
        let e = ParseError::UnexpectedToken(tokens[pos].text(), pos);
        Err(e.message())
    } else {
        Ok(result)
    }
}

} // verus!
