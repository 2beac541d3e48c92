//! Printing a formula and parsing the text gives the formula back.
//!
//! The text that [`LtlFormula::to_string`](crate::formula::LtlFormula::to_string)
//! writes (see [`display`]) is in the parser's syntax: every binary operator
//! is parenthesized and every temporal operator is applied with
//! parentheses. So [`parse`](crate::parser::parse) recovers the formula,
//! provided its atoms are names the parser reads as atoms.
use crate::formula::display;
use crate::formula::FormulaModel;
use crate::parser::and_spec;
use crate::parser::extend;
use crate::parser::implies_spec;
use crate::parser::is_atom_char;
use crate::parser::is_delimiter;
use crate::parser::keyword;
use crate::parser::or_spec;
use crate::parser::parse_spec;
use crate::parser::prepend;
use crate::parser::primary_spec;
use crate::parser::tokenize_spec;
use crate::parser::tokens_from;
use crate::parser::unary_spec;
use crate::parser::until_release_spec;
use crate::parser::word_end;
use crate::parser::word_token;
use crate::parser::TokenModel;
use vstd::prelude::*;

verus! {

/// A name that the tokenizer reads as one atom: non-empty, made of
/// characters allowed in atoms none of which ends a word, and not a keyword.
pub open spec fn is_atom_name(s: Seq<char>) -> bool {
    &&& s.len() > 0
    &&& keyword(s) is None
    &&& forall|k: int| 0 <= k < s.len() ==> #[trigger] is_atom_char(s[k]) && !is_delimiter(s[k])
}

/// Every atom of `f` has a name the parser reads as an atom.
pub open spec fn well_named(f: FormulaModel) -> bool
    decreases f,
{
    match f {
        FormulaModel::Atomic(s) => is_atom_name(s),
        FormulaModel::Not(g) => well_named(*g),
        FormulaModel::Next(g) => well_named(*g),
        FormulaModel::Finally(g) => well_named(*g),
        FormulaModel::Globally(g) => well_named(*g),
        FormulaModel::And(a, b) => well_named(*a) && well_named(*b),
        FormulaModel::Or(a, b) => well_named(*a) && well_named(*b),
        FormulaModel::Implies(a, b) => well_named(*a) && well_named(*b),
        FormulaModel::Until(a, b) => well_named(*a) && well_named(*b),
        FormulaModel::Release(a, b) => well_named(*a) && well_named(*b),
    }
}

/// The tokens of the text of `f`.
pub open spec fn formula_tokens(f: FormulaModel) -> Seq<TokenModel>
    decreases f,
{
    match f {
        FormulaModel::Atomic(s) => seq![TokenModel::Atom(s)],
        FormulaModel::Not(g) => {
            if (*g is Atomic) || (*g is Finally) || (*g is Globally) || (*g is Next) {
                seq![TokenModel::Not] + formula_tokens(*g)
            } else {
                seq![TokenModel::Not, TokenModel::LParen] + formula_tokens(*g) + seq![TokenModel::RParen]
            }
        },
        FormulaModel::Next(g) => seq![TokenModel::Next, TokenModel::LParen] + formula_tokens(*g) + seq![
            TokenModel::RParen,
        ],
        FormulaModel::Finally(g) => seq![TokenModel::Finally, TokenModel::LParen] + formula_tokens(*g)
            + seq![TokenModel::RParen],
        FormulaModel::Globally(g) => seq![TokenModel::Globally, TokenModel::LParen] + formula_tokens(*g)
            + seq![TokenModel::RParen],
        FormulaModel::And(a, b) => binary_tokens(formula_tokens(*a), TokenModel::And, formula_tokens(*b)),
        FormulaModel::Or(a, b) => binary_tokens(formula_tokens(*a), TokenModel::Or, formula_tokens(*b)),
        FormulaModel::Implies(a, b) => binary_tokens(formula_tokens(*a), TokenModel::Implies, formula_tokens(*b)),
        FormulaModel::Until(a, b) => binary_tokens(formula_tokens(*a), TokenModel::Until, formula_tokens(*b)),
        FormulaModel::Release(a, b) => binary_tokens(formula_tokens(*a), TokenModel::Release, formula_tokens(*b)),
    }
}

/// `( l op r )` as tokens.
pub open spec fn binary_tokens(l: Seq<TokenModel>, op: TokenModel, r: Seq<TokenModel>) -> Seq<TokenModel> {
    seq![TokenModel::LParen] + l + seq![op] + r + seq![TokenModel::RParen]
}

// ─── Tokenizing the text ───────────────────────────────────────────────

proof fn lemma_extend_extend(a: Seq<TokenModel>, b: Seq<TokenModel>, r: Result<Seq<TokenModel>, crate::parser::ParseErrorModel>)
    ensures
        extend(a, extend(b, r)) == extend(a + b, r),
{
    if let Ok(ts) = r {
        assert(a + (b + ts) =~= (a + b) + ts);
    }
}

/// One fixed piece of text at index `i` of `cs`.
spec fn piece_at(cs: Seq<char>, i: nat, piece: Seq<char>) -> bool {
    i + piece.len() <= cs.len() && cs.subrange(i as int, (i + piece.len()) as int) == piece
}

/// A single character that is a token by itself.
proof fn lemma_symbol(cs: Seq<char>, i: nat, t: TokenModel)
    requires
        i < cs.len(),
        (cs[i as int] == '(' && t == TokenModel::LParen) || (cs[i as int] == ')' && t == TokenModel::RParen)
            || (cs[i as int] == '!' && t == TokenModel::Not) || (cs[i as int] == '&' && t == TokenModel::And)
            || (cs[i as int] == '|' && t == TokenModel::Or),
    ensures
        tokens_from(cs, i) == extend(seq![t], tokens_from(cs, i + 1)),
{
    let r = tokens_from(cs, i + 1);
    assert(prepend(t, r) == extend(seq![t], r));
}

/// The one-letter keywords.
proof fn lemma_keyword_letter(c: char, t: TokenModel)
    requires
        (c == 'X' && t == TokenModel::Next) || (c == 'F' && t == TokenModel::Finally) || (c == 'G' && t
            == TokenModel::Globally) || (c == 'U' && t == TokenModel::Until) || (c == 'R' && t
            == TokenModel::Release),
    ensures
        keyword(seq![c]) == Some(t),
{
    reveal_strlit("G");
    reveal_strlit("globally");
    reveal_strlit("always");
    reveal_strlit("F");
    reveal_strlit("eventually");
    reveal_strlit("eventally");
    reveal_strlit("X");
    reveal_strlit("next");
    reveal_strlit("U");
    reveal_strlit("until");
    reveal_strlit("R");
    reveal_strlit("release");
    let w = seq![c];
    assert("globally"@.len() == 8 && "always"@.len() == 6 && "eventually"@.len() == 10);
    assert("eventally"@.len() == 9 && "next"@.len() == 4 && "until"@.len() == 5 && "release"@.len() == 7);
    assert(w != "globally"@ && w != "always"@ && w != "eventually"@ && w != "eventally"@ && w != "next"@
        && w != "until"@ && w != "release"@);
    if c == 'G' {
        assert(w =~= "G"@);
    } else {
        assert(w[0] != "G"@[0]);
    }
    if c == 'F' {
        assert(w =~= "F"@);
    } else {
        assert(w[0] != "F"@[0]);
    }
    if c == 'X' {
        assert(w =~= "X"@);
    } else {
        assert(w[0] != "X"@[0]);
    }
    if c == 'U' {
        assert(w =~= "U"@);
    } else {
        assert(w[0] != "U"@[0]);
    }
    if c == 'R' {
        assert(w =~= "R"@);
    }
}

/// A one-letter keyword followed by a character that ends the word.
proof fn lemma_letter(cs: Seq<char>, i: nat, t: TokenModel)
    requires
        i + 1 < cs.len(),
        is_delimiter(cs[(i + 1) as int]),
        (cs[i as int] == 'X' && t == TokenModel::Next) || (cs[i as int] == 'F' && t == TokenModel::Finally)
            || (cs[i as int] == 'G' && t == TokenModel::Globally) || (cs[i as int] == 'U' && t
            == TokenModel::Until) || (cs[i as int] == 'R' && t == TokenModel::Release),
    ensures
        tokens_from(cs, i) == extend(seq![t], tokens_from(cs, i + 1)),
{
    assert(word_end(cs, i + 1) == i + 1);
    assert(word_end(cs, i) == i + 1);
    let w = cs.subrange(i as int, (i + 1) as int);
    assert(w =~= seq![cs[i as int]]);
    lemma_keyword_letter(cs[i as int], t);
    assert(word_token(w, i) == Ok::<TokenModel, crate::parser::ParseErrorModel>(t));
    let r = tokens_from(cs, i + 1);
    assert(prepend(t, r) == extend(seq![t], r));
}

/// The word starting at `i` runs over the characters of `s` and stops
/// where `s` ends.
proof fn lemma_word_end_name(cs: Seq<char>, i: nat, s: Seq<char>, k: nat)
    requires
        is_atom_name(s),
        piece_at(cs, i, s),
        i + s.len() == cs.len() || is_delimiter(cs[(i + s.len()) as int]),
        k <= s.len(),
    ensures
        word_end(cs, i + k) == i + s.len(),
    decreases s.len() - k,
{
    if k < s.len() {
        assert(cs[(i + k) as int] == s[k as int]);
        assert(is_atom_char(s[k as int]));
        assert(!is_delimiter(s[k as int]));
        lemma_word_end_name(cs, i, s, k + 1);
    }
}

/// An atom's name followed by a character that ends the word.
proof fn lemma_atom(cs: Seq<char>, i: nat, s: Seq<char>)
    requires
        is_atom_name(s),
        piece_at(cs, i, s),
        i + s.len() == cs.len() || is_delimiter(cs[(i + s.len()) as int]),
    ensures
        tokens_from(cs, i) == extend(seq![TokenModel::Atom(s)], tokens_from(cs, i + s.len())),
{
    lemma_word_end_name(cs, i, s, 0);
    assert(cs[i as int] == s[0]);
    assert(is_atom_char(s[0]));
    assert(!is_delimiter(s[0]));
    let w = cs.subrange(i as int, (i + s.len()) as int);
    assert(w == s);
    assert(forall|k: int| 0 <= k < w.len() ==> #[trigger] is_atom_char(w[k]));
    assert(word_token(w, i) == Ok::<TokenModel, crate::parser::ParseErrorModel>(TokenModel::Atom(s)));
    let r = tokens_from(cs, i + s.len());
    assert(prepend(TokenModel::Atom(s), r) == extend(seq![TokenModel::Atom(s)], r));
}

/// A blank.
proof fn lemma_blank(cs: Seq<char>, i: nat)
    requires
        i < cs.len(),
        cs[i as int] == ' ',
    ensures
        tokens_from(cs, i) == tokens_from(cs, i + 1),
{
}

/// The characters of the text between the operands of a binary formula.
spec fn operator_text(op: Seq<char>, t: TokenModel) -> bool {
    ||| (op.len() == 3 && op[0] == ' ' && op[2] == ' ' && ((op[1] == '&' && t == TokenModel::And) || (op[1]
        == '|' && t == TokenModel::Or) || (op[1] == 'U' && t == TokenModel::Until) || (op[1] == 'R' && t
        == TokenModel::Release)))
    ||| (op.len() == 4 && op[0] == ' ' && op[1] == '-' && op[2] == '>' && op[3] == ' ' && t == TokenModel::Implies)
}

proof fn lemma_operator_texts()
    ensures
        operator_text(" & "@, TokenModel::And),
        operator_text(" | "@, TokenModel::Or),
        operator_text(" -> "@, TokenModel::Implies),
        operator_text(" U "@, TokenModel::Until),
        operator_text(" R "@, TokenModel::Release),
{
    reveal_strlit(" & ");
    reveal_strlit(" | ");
    reveal_strlit(" -> ");
    reveal_strlit(" U ");
    reveal_strlit(" R ");
}

/// The operator text between the operands of a binary formula.
proof fn lemma_operator(cs: Seq<char>, i: nat, op: Seq<char>, t: TokenModel)
    requires
        operator_text(op, t),
        piece_at(cs, i, op),
    ensures
        tokens_from(cs, i) == extend(seq![t], tokens_from(cs, i + op.len())),
{
    assert(cs[i as int] == op[0]);
    assert(cs[(i + 1) as int] == op[1]);
    assert(cs[(i + 2) as int] == op[2]);
    lemma_blank(cs, i);
    if op.len() == 4 {
        assert(cs[(i + 3) as int] == op[3]);
        let r = tokens_from(cs, i + 3);
        assert(prepend(t, r) == extend(seq![t], r));
        assert(tokens_from(cs, i + 1) == prepend(t, r));
        lemma_blank(cs, i + 3);
    } else if op[1] == 'U' || op[1] == 'R' {
        lemma_letter(cs, i + 1, t);
        lemma_blank(cs, i + 2);
    } else {
        lemma_symbol(cs, i + 1, t);
        lemma_blank(cs, i + 2);
    }
}

/// Every occurrence of the text `d` in `cs` that is followed by a character
/// ending a word (or by the end) is read as the tokens `ts`.
spec fn reads_as(cs: Seq<char>, d: Seq<char>, ts: Seq<TokenModel>) -> bool {
    forall|j: nat|
        #[trigger] piece_at(cs, j, d) && (j + d.len() == cs.len() || is_delimiter(cs[(j + d.len()) as int]))
            ==> tokens_from(cs, j) == extend(ts, tokens_from(cs, j + d.len()))
}

/// The text of `f` at index `i` of `cs`, followed by a character that ends
/// a word (or by the end), is read as the tokens of `f`.
proof fn lemma_tokens_of_display(f: FormulaModel, cs: Seq<char>, i: nat)
    requires
        well_named(f),
        piece_at(cs, i, display(f)),
        i + display(f).len() == cs.len() || is_delimiter(cs[(i + display(f).len()) as int]),
    ensures
        tokens_from(cs, i) == extend(formula_tokens(f), tokens_from(cs, i + display(f).len())),
    decreases f, 0nat,
{
    lemma_operator_texts();
    match f {
        FormulaModel::Atomic(s) => {
            lemma_atom(cs, i, s);
        },
        FormulaModel::Not(g) => {
            let dg = display(*g);
            if (*g is Atomic) || (*g is Finally) || (*g is Globally) || (*g is Next) {
                reveal_strlit("!");
                lemma_reads_as(*g, cs);
                lemma_not_shape(cs, i, dg, formula_tokens(*g));
            } else {
                lemma_reads_as(*g, cs);
                lemma_unary_shape(cs, i, "!("@, TokenModel::Not, dg, formula_tokens(*g));
            }
        },
        FormulaModel::Next(g) => {
            lemma_reads_as(*g, cs);
            lemma_unary_shape(cs, i, "X("@, TokenModel::Next, display(*g), formula_tokens(*g));
        },
        FormulaModel::Finally(g) => {
            lemma_reads_as(*g, cs);
            lemma_unary_shape(cs, i, "F("@, TokenModel::Finally, display(*g), formula_tokens(*g));
        },
        FormulaModel::Globally(g) => {
            lemma_reads_as(*g, cs);
            lemma_unary_shape(cs, i, "G("@, TokenModel::Globally, display(*g), formula_tokens(*g));
        },
        FormulaModel::And(a, b) => {
            lemma_reads_as(*a, cs);
            lemma_reads_as(*b, cs);
            lemma_binary_shape(cs, i, display(*a), formula_tokens(*a), " & "@, TokenModel::And, display(*b), formula_tokens(*b));
        },
        FormulaModel::Or(a, b) => {
            lemma_reads_as(*a, cs);
            lemma_reads_as(*b, cs);
            lemma_binary_shape(cs, i, display(*a), formula_tokens(*a), " | "@, TokenModel::Or, display(*b), formula_tokens(*b));
        },
        FormulaModel::Implies(a, b) => {
            lemma_reads_as(*a, cs);
            lemma_reads_as(*b, cs);
            lemma_binary_shape(cs, i, display(*a), formula_tokens(*a), " -> "@, TokenModel::Implies, display(*b), formula_tokens(*b));
        },
        FormulaModel::Until(a, b) => {
            lemma_reads_as(*a, cs);
            lemma_reads_as(*b, cs);
            lemma_binary_shape(cs, i, display(*a), formula_tokens(*a), " U "@, TokenModel::Until, display(*b), formula_tokens(*b));
        },
        FormulaModel::Release(a, b) => {
            lemma_reads_as(*a, cs);
            lemma_reads_as(*b, cs);
            lemma_binary_shape(cs, i, display(*a), formula_tokens(*a), " R "@, TokenModel::Release, display(*b), formula_tokens(*b));
        },
    }
}

/// `! g` where `g` is written without parentheses.
proof fn lemma_not_shape(cs: Seq<char>, i: nat, dg: Seq<char>, tg: Seq<TokenModel>)
    requires
        reads_as(cs, dg, tg),
        piece_at(cs, i, "!"@ + dg),
        i + 1 + dg.len() == cs.len() || is_delimiter(cs[(i + 1 + dg.len()) as int]),
    ensures
        tokens_from(cs, i) == extend(seq![TokenModel::Not] + tg, tokens_from(cs, i + 1 + dg.len())),
{
    reveal_strlit("!");
    let d = "!"@ + dg;
    assert(cs[i as int] == d[0]);
    lemma_symbol(cs, i, TokenModel::Not);
    assert(cs.subrange((i + 1) as int, (i + 1 + dg.len()) as int) =~= d.subrange(1, (1 + dg.len()) as int));
    assert(d.subrange(1, (1 + dg.len()) as int) =~= dg);
    assert(piece_at(cs, i + 1, dg));
    lemma_extend_extend(seq![TokenModel::Not], tg, tokens_from(cs, i + 1 + dg.len()));
}

/// [`lemma_tokens_of_display`] at every index.
proof fn lemma_reads_as(f: FormulaModel, cs: Seq<char>)
    requires
        well_named(f),
    ensures
        reads_as(cs, display(f), formula_tokens(f)),
    decreases f, 1nat,
{
    assert forall|j: nat|
        #[trigger] piece_at(cs, j, display(f)) && (j + display(f).len() == cs.len() || is_delimiter(
            cs[(j + display(f).len()) as int],
        )) implies tokens_from(cs, j) == extend(formula_tokens(f), tokens_from(cs, j + display(f).len())) by {
        lemma_tokens_of_display(f, cs, j);
    }
}

/// `head g )` where `head` is a unary operator followed by `(`.
proof fn lemma_unary_shape(cs: Seq<char>, i: nat, head: Seq<char>, t: TokenModel, dg: Seq<char>, tg: Seq<TokenModel>)
    requires
        (head == "!("@ && t == TokenModel::Not) || (head == "X("@ && t == TokenModel::Next) || (head == "F("@
            && t == TokenModel::Finally) || (head == "G("@ && t == TokenModel::Globally),
        reads_as(cs, dg, tg),
        piece_at(cs, i, head + dg + ")"@),
    ensures
        tokens_from(cs, i) == extend(
            seq![t, TokenModel::LParen] + tg + seq![TokenModel::RParen],
            tokens_from(cs, i + (head + dg + ")"@).len()),
        ),
{
    reveal_strlit("!(");
    reveal_strlit("X(");
    reveal_strlit("F(");
    reveal_strlit("G(");
    reveal_strlit(")");
    let d = head + dg + ")"@;
    let j = i + 2 + dg.len();
    assert(d.len() == dg.len() + 3);
    assert(cs[i as int] == d[0]);
    assert(cs[(i + 1) as int] == d[1]);
    assert(cs[j as int] == d[(2 + dg.len()) as int]);
    if head == "!("@ {
        lemma_symbol(cs, i, TokenModel::Not);
    } else {
        lemma_letter(cs, i, t);
    }
    lemma_symbol(cs, i + 1, TokenModel::LParen);
    assert(cs.subrange((i + 2) as int, j as int) =~= d.subrange(2, (2 + dg.len()) as int));
    assert(d.subrange(2, (2 + dg.len()) as int) =~= dg);
    assert(piece_at(cs, i + 2, dg));
    assert(tokens_from(cs, i + 2) == extend(tg, tokens_from(cs, j)));
    lemma_symbol(cs, j, TokenModel::RParen);
    let rest = tokens_from(cs, j + 1);
    lemma_extend_extend(tg, seq![TokenModel::RParen], rest);
    lemma_extend_extend(seq![TokenModel::LParen], tg + seq![TokenModel::RParen], rest);
    lemma_extend_extend(seq![t], seq![TokenModel::LParen] + (tg + seq![TokenModel::RParen]), rest);
    assert(seq![t] + (seq![TokenModel::LParen] + (tg + seq![TokenModel::RParen])) =~= seq![t, TokenModel::LParen]
        + tg + seq![TokenModel::RParen]);
}

proof fn lemma_parentheses()
    ensures
        "("@ == seq!['('],
        ")"@ == seq![')'],
{
    reveal_strlit("(");
    reveal_strlit(")");
    assert("("@ =~= seq!['(']);
    assert(")"@ =~= seq![')']);
}

/// `( a op b )`.
proof fn lemma_binary_shape(
    cs: Seq<char>,
    i: nat,
    da: Seq<char>,
    ta: Seq<TokenModel>,
    op: Seq<char>,
    t: TokenModel,
    db: Seq<char>,
    tb: Seq<TokenModel>,
)
    requires
        operator_text(op, t),
        reads_as(cs, da, ta),
        reads_as(cs, db, tb),
        piece_at(cs, i, "("@ + da + op + db + ")"@),
    ensures
        tokens_from(cs, i) == extend(
            binary_tokens(ta, t, tb),
            tokens_from(cs, i + ("("@ + da + op + db + ")"@).len()),
        ),
{
    lemma_parentheses();
    let d = "("@ + da + op + db + ")"@;
    let ia = i + 1;
    let io = ia + da.len();
    let ib = io + op.len();
    let ic = ib + db.len();
    assert(d.len() == da.len() + op.len() + db.len() + 2);
    assert(cs[i as int] == d[0]);
    lemma_symbol(cs, i, TokenModel::LParen);
    assert(cs.subrange(ia as int, io as int) =~= d.subrange(1, (1 + da.len()) as int));
    assert(d.subrange(1, (1 + da.len()) as int) =~= da);
    assert(cs[io as int] == d[(1 + da.len()) as int]);
    assert(d[(1 + da.len()) as int] == op[0]);
    assert(piece_at(cs, ia, da));
    assert(tokens_from(cs, ia) == extend(ta, tokens_from(cs, io)));
    assert(cs.subrange(io as int, ib as int) =~= d.subrange((1 + da.len()) as int, (1 + da.len() + op.len()) as int));
    assert(d.subrange((1 + da.len()) as int, (1 + da.len() + op.len()) as int) =~= op);
    lemma_operator(cs, io, op, t);
    assert(cs.subrange(ib as int, ic as int) =~= d.subrange((1 + da.len() + op.len()) as int, (1 + da.len() + op.len() + db.len()) as int));
    assert(d.subrange((1 + da.len() + op.len()) as int, (1 + da.len() + op.len() + db.len()) as int) =~= db);
    assert(cs[ic as int] == d[(1 + da.len() + op.len() + db.len()) as int]);
    assert(piece_at(cs, ib, db));
    assert(tokens_from(cs, ib) == extend(tb, tokens_from(cs, ic)));
    lemma_symbol(cs, ic, TokenModel::RParen);
    let rest = tokens_from(cs, ic + 1);
    lemma_extend_extend(tb, seq![TokenModel::RParen], rest);
    lemma_extend_extend(seq![t], tb + seq![TokenModel::RParen], rest);
    lemma_extend_extend(ta, seq![t] + (tb + seq![TokenModel::RParen]), rest);
    lemma_extend_extend(seq![TokenModel::LParen], ta + (seq![t] + (tb + seq![TokenModel::RParen])), rest);
    assert(seq![TokenModel::LParen] + (ta + (seq![t] + (tb + seq![TokenModel::RParen]))) =~= binary_tokens(ta, t, tb));
}

// ─── Parsing the tokens ────────────────────────────────────────────────

/// The tokens `t` stand at position `q` of `ts`.
spec fn tokens_at(ts: Seq<TokenModel>, q: nat, t: Seq<TokenModel>) -> bool {
    q + t.len() <= ts.len() && ts.subrange(q as int, (q + t.len()) as int) == t
}

/// Position `e` ends an operand inside parentheses, or the whole input.
spec fn closes(ts: Seq<TokenModel>, e: nat) -> bool {
    e == ts.len() || (e < ts.len() && ts[e as int] is RParen)
}

proof fn lemma_tokens_nonempty(f: FormulaModel)
    ensures
        formula_tokens(f).len() >= 1,
{
}

/// An `and` expression that a closing token follows is also the whole
/// `or`, `until`/`release` and implication expression.
proof fn lemma_from_and(ts: Seq<TokenModel>, q: nat, g: FormulaModel, e: nat)
    requires
        and_spec(ts, q) == Ok::<(FormulaModel, nat), crate::parser::ParseErrorModel>((g, e)),
        q < e,
        closes(ts, e),
    ensures
        or_spec(ts, q) == Ok::<(FormulaModel, nat), crate::parser::ParseErrorModel>((g, e)),
        until_release_spec(ts, q) == Ok::<(FormulaModel, nat), crate::parser::ParseErrorModel>((g, e)),
        implies_spec(ts, q) == Ok::<(FormulaModel, nat), crate::parser::ParseErrorModel>((g, e)),
{
    lemma_from_or(ts, q, g, e);
}

proof fn lemma_from_or(ts: Seq<TokenModel>, q: nat, g: FormulaModel, e: nat)
    requires
        or_spec(ts, q) == Ok::<(FormulaModel, nat), crate::parser::ParseErrorModel>((g, e)),
        q < e,
        closes(ts, e),
    ensures
        until_release_spec(ts, q) == Ok::<(FormulaModel, nat), crate::parser::ParseErrorModel>((g, e)),
        implies_spec(ts, q) == Ok::<(FormulaModel, nat), crate::parser::ParseErrorModel>((g, e)),
{
    lemma_from_until(ts, q, g, e);
}

proof fn lemma_from_until(ts: Seq<TokenModel>, q: nat, g: FormulaModel, e: nat)
    requires
        until_release_spec(ts, q) == Ok::<(FormulaModel, nat), crate::parser::ParseErrorModel>((g, e)),
        q < e,
        closes(ts, e),
    ensures
        implies_spec(ts, q) == Ok::<(FormulaModel, nat), crate::parser::ParseErrorModel>((g, e)),
{
}

/// A unary expression that a closing token follows is also the whole
/// expression at every level of precedence.
proof fn lemma_from_unary(ts: Seq<TokenModel>, q: nat, g: FormulaModel, e: nat)
    requires
        unary_spec(ts, q) == Ok::<(FormulaModel, nat), crate::parser::ParseErrorModel>((g, e)),
        q < e,
        closes(ts, e),
    ensures
        and_spec(ts, q) == Ok::<(FormulaModel, nat), crate::parser::ParseErrorModel>((g, e)),
        or_spec(ts, q) == Ok::<(FormulaModel, nat), crate::parser::ParseErrorModel>((g, e)),
        until_release_spec(ts, q) == Ok::<(FormulaModel, nat), crate::parser::ParseErrorModel>((g, e)),
        implies_spec(ts, q) == Ok::<(FormulaModel, nat), crate::parser::ParseErrorModel>((g, e)),
{
    lemma_from_and(ts, q, g, e);
}

/// The tokens of `f`, wherever they stand, are read back as `f` by the
/// unary level of the grammar.
proof fn lemma_parse_tokens(f: FormulaModel, ts: Seq<TokenModel>, pos: nat)
    requires
        tokens_at(ts, pos, formula_tokens(f)),
    ensures
        unary_spec(ts, pos) == Ok::<(FormulaModel, nat), crate::parser::ParseErrorModel>(
            (f, pos + formula_tokens(f).len()),
        ),
    decreases f, 1nat,
{
    let t = formula_tokens(f);
    let end = pos + t.len();
    assert(ts[pos as int] == t[0]);
    match f {
        FormulaModel::Atomic(s) => {
            assert(ts[pos as int] == TokenModel::Atom(s));
            assert(primary_spec(ts, pos) == Ok::<(FormulaModel, nat), crate::parser::ParseErrorModel>((f, pos + 1)));
            assert(unary_spec(ts, pos) == primary_spec(ts, pos));
        },
        FormulaModel::Not(g) => {
            let tg = formula_tokens(*g);
            if (*g is Atomic) || (*g is Finally) || (*g is Globally) || (*g is Next) {
                assert(ts.subrange((pos + 1) as int, end as int) =~= t.subrange(1, t.len() as int));
                assert(t.subrange(1, t.len() as int) =~= tg);
                lemma_parse_tokens(*g, ts, pos + 1);
            } else {
                lemma_after_operator(*g, ts, pos);
            }
        },
        FormulaModel::Next(g) => lemma_after_operator(*g, ts, pos),
        FormulaModel::Finally(g) => lemma_after_operator(*g, ts, pos),
        FormulaModel::Globally(g) => lemma_after_operator(*g, ts, pos),
        FormulaModel::And(_, _) => {
            let (_, e2) = lemma_binary(f, ts, pos);
            assert(and_spec(ts, pos + 1) == Ok::<(FormulaModel, nat), crate::parser::ParseErrorModel>((f, e2)));
            lemma_from_and(ts, pos + 1, f, e2);
        },
        FormulaModel::Or(a, b) => {
            let (e1, e2) = lemma_binary(f, ts, pos);
            assert(and_spec(ts, pos + 1) == Ok::<(FormulaModel, nat), crate::parser::ParseErrorModel>((*a, e1)));
            assert(or_spec(ts, pos + 1) == Ok::<(FormulaModel, nat), crate::parser::ParseErrorModel>((f, e2)));
            lemma_from_or(ts, pos + 1, f, e2);
        },
        FormulaModel::Until(a, b) => {
            let (e1, e2) = lemma_binary(f, ts, pos);
            assert(and_spec(ts, pos + 1) == Ok::<(FormulaModel, nat), crate::parser::ParseErrorModel>((*a, e1)));
            assert(or_spec(ts, pos + 1) == Ok::<(FormulaModel, nat), crate::parser::ParseErrorModel>((*a, e1)));
            assert(until_release_spec(ts, pos + 1) == Ok::<(FormulaModel, nat), crate::parser::ParseErrorModel>((f, e2)));
            lemma_from_until(ts, pos + 1, f, e2);
        },
        FormulaModel::Release(a, b) => {
            let (e1, e2) = lemma_binary(f, ts, pos);
            assert(and_spec(ts, pos + 1) == Ok::<(FormulaModel, nat), crate::parser::ParseErrorModel>((*a, e1)));
            assert(or_spec(ts, pos + 1) == Ok::<(FormulaModel, nat), crate::parser::ParseErrorModel>((*a, e1)));
            assert(until_release_spec(ts, pos + 1) == Ok::<(FormulaModel, nat), crate::parser::ParseErrorModel>((f, e2)));
            lemma_from_until(ts, pos + 1, f, e2);
        },
        FormulaModel::Implies(a, b) => {
            let (e1, e2) = lemma_binary(f, ts, pos);
            assert(and_spec(ts, pos + 1) == Ok::<(FormulaModel, nat), crate::parser::ParseErrorModel>((*a, e1)));
            assert(or_spec(ts, pos + 1) == Ok::<(FormulaModel, nat), crate::parser::ParseErrorModel>((*a, e1)));
            assert(until_release_spec(ts, pos + 1) == Ok::<(FormulaModel, nat), crate::parser::ParseErrorModel>((*a, e1)));
            assert(implies_spec(ts, pos + 1) == Ok::<(FormulaModel, nat), crate::parser::ParseErrorModel>((f, e2)));
        },
    }
}

/// The left operand of a binary formula.
spec fn left_operand(f: FormulaModel) -> FormulaModel {
    match f {
        FormulaModel::And(a, _) => *a,
        FormulaModel::Or(a, _) => *a,
        FormulaModel::Until(a, _) => *a,
        FormulaModel::Release(a, _) => *a,
        FormulaModel::Implies(a, _) => *a,
        _ => f,
    }
}

/// The right operand of a binary formula.
spec fn right_operand(f: FormulaModel) -> FormulaModel {
    match f {
        FormulaModel::And(_, b) => *b,
        FormulaModel::Or(_, b) => *b,
        FormulaModel::Until(_, b) => *b,
        FormulaModel::Release(_, b) => *b,
        FormulaModel::Implies(_, b) => *b,
        _ => f,
    }
}

/// The operator token of a binary formula.
spec fn operator_token(f: FormulaModel) -> TokenModel {
    match f {
        FormulaModel::And(_, _) => TokenModel::And,
        FormulaModel::Or(_, _) => TokenModel::Or,
        FormulaModel::Until(_, _) => TokenModel::Until,
        FormulaModel::Release(_, _) => TokenModel::Release,
        _ => TokenModel::Implies,
    }
}

/// The operands of a binary formula whose tokens stand at `pos`: the left
/// one is read at the unary level up to the operator, the right one at
/// every level up to the closing parenthesis. Returns the positions of the
/// operator and of `)`.
proof fn lemma_binary(f: FormulaModel, ts: Seq<TokenModel>, pos: nat) -> (r: (nat, nat))
    requires
        f is And || f is Or || f is Until || f is Release || f is Implies,
        tokens_at(ts, pos, formula_tokens(f)),
    ensures
        pos + 1 < r.0 < r.1 < ts.len(),
        r.1 + 1 == pos + formula_tokens(f).len(),
        ts[r.0 as int] == operator_token(f),
        ts[r.1 as int] is RParen,
        unary_spec(ts, pos + 1) == Ok::<(FormulaModel, nat), crate::parser::ParseErrorModel>((left_operand(f), r.0)),
        and_spec(ts, r.0 + 1) == Ok::<(FormulaModel, nat), crate::parser::ParseErrorModel>((right_operand(f), r.1)),
        or_spec(ts, r.0 + 1) == Ok::<(FormulaModel, nat), crate::parser::ParseErrorModel>((right_operand(f), r.1)),
        until_release_spec(ts, r.0 + 1) == Ok::<(FormulaModel, nat), crate::parser::ParseErrorModel>(
            (right_operand(f), r.1),
        ),
        implies_spec(ts, r.0 + 1) == Ok::<(FormulaModel, nat), crate::parser::ParseErrorModel>((right_operand(f), r.1)),
    decreases f, 0nat,
{
    let a = left_operand(f);
    let b = right_operand(f);
    let op = operator_token(f);
    assert(formula_tokens(f) == binary_tokens(formula_tokens(a), op, formula_tokens(b)));
    lemma_parses(a, ts);
    lemma_parses(b, ts);
    lemma_tokens_nonempty(a);
    lemma_tokens_nonempty(b);
    let (e1, e2) = lemma_operands(a, formula_tokens(a), op, b, formula_tokens(b), ts, pos);
    lemma_from_unary(ts, e1 + 1, b, e2);
    (e1, e2)
}

/// `op ( g )` at `pos`: the tokens after the operator are read as `g`.
proof fn lemma_after_operator(g: FormulaModel, ts: Seq<TokenModel>, pos: nat)
    requires
        pos + 1 < ts.len(),
        tokens_at(ts, pos, seq![ts[pos as int], TokenModel::LParen] + formula_tokens(g) + seq![TokenModel::RParen]),
    ensures
        unary_spec(ts, pos + 1) == Ok::<(FormulaModel, nat), crate::parser::ParseErrorModel>(
            (g, pos + 1 + formula_tokens(g).len() + 2),
        ),
    decreases g, 3nat,
{
    let tg = formula_tokens(g);
    let t = seq![ts[pos as int], TokenModel::LParen] + tg + seq![TokenModel::RParen];
    let inner = seq![TokenModel::LParen] + tg + seq![TokenModel::RParen];
    assert(ts.subrange((pos + 1) as int, (pos + 1 + inner.len()) as int) =~= t.subrange(1, t.len() as int));
    assert(t.subrange(1, t.len() as int) =~= inner);
    lemma_tokens_nonempty(g);
    lemma_parses(g, ts);
    lemma_parenthesized(g, tg, ts, pos + 1);
}

/// Wherever the tokens `tg` stand, the unary level reads them as `g`.
spec fn parses_as(ts: Seq<TokenModel>, tg: Seq<TokenModel>, g: FormulaModel) -> bool {
    forall|q: nat|
        #[trigger] tokens_at(ts, q, tg) ==> unary_spec(ts, q) == Ok::<(FormulaModel, nat), crate::parser::ParseErrorModel>(
            (g, q + tg.len()),
        )
}

/// [`lemma_parse_tokens`] at every position.
proof fn lemma_parses(g: FormulaModel, ts: Seq<TokenModel>)
    ensures
        parses_as(ts, formula_tokens(g), g),
    decreases g, 2nat,
{
    assert forall|q: nat| #[trigger] tokens_at(ts, q, formula_tokens(g)) implies unary_spec(ts, q) == Ok::<
        (FormulaModel, nat),
        crate::parser::ParseErrorModel,
    >((g, q + formula_tokens(g).len())) by {
        lemma_parse_tokens(g, ts, q);
    }
}

/// `( g )` at `q` is read as `g` by the unary level.
proof fn lemma_parenthesized(g: FormulaModel, tg: Seq<TokenModel>, ts: Seq<TokenModel>, q: nat)
    requires
        parses_as(ts, tg, g),
        tg.len() >= 1,
        tokens_at(ts, q, seq![TokenModel::LParen] + tg + seq![TokenModel::RParen]),
    ensures
        unary_spec(ts, q) == Ok::<(FormulaModel, nat), crate::parser::ParseErrorModel>((g, q + tg.len() + 2)),
{
    let t = seq![TokenModel::LParen] + tg + seq![TokenModel::RParen];
    let e = q + 1 + tg.len();
    assert(ts[q as int] == t[0]);
    assert(ts[e as int] == t[(1 + tg.len()) as int]);
    assert(ts.subrange((q + 1) as int, e as int) =~= t.subrange(1, (1 + tg.len()) as int));
    assert(t.subrange(1, (1 + tg.len()) as int) =~= tg);
    assert(tokens_at(ts, q + 1, tg));
    assert(ts[q as int] is LParen);
    lemma_from_unary(ts, q + 1, g, e);
    assert(implies_spec(ts, q + 1) == Ok::<(FormulaModel, nat), crate::parser::ParseErrorModel>((g, e)));
    assert(primary_spec(ts, q) == Ok::<(FormulaModel, nat), crate::parser::ParseErrorModel>((g, e + 1)));
}

/// The two operands of `( a op b )` at `pos`, read at the unary level;
/// returns the positions of `op` and of `)`.
proof fn lemma_operands(
    a: FormulaModel,
    ta: Seq<TokenModel>,
    op: TokenModel,
    b: FormulaModel,
    tb: Seq<TokenModel>,
    ts: Seq<TokenModel>,
    pos: nat,
) -> (r: (nat, nat))
    requires
        parses_as(ts, ta, a),
        parses_as(ts, tb, b),
        tokens_at(ts, pos, binary_tokens(ta, op, tb)),
    ensures
        r.0 == pos + 1 + ta.len(),
        r.1 == r.0 + 1 + tb.len(),
        ts[r.0 as int] == op,
        ts[r.1 as int] is RParen,
        r.1 < ts.len(),
        unary_spec(ts, pos + 1) == Ok::<(FormulaModel, nat), crate::parser::ParseErrorModel>((a, r.0)),
        unary_spec(ts, r.0 + 1) == Ok::<(FormulaModel, nat), crate::parser::ParseErrorModel>((b, r.1)),
{
    let t = binary_tokens(ta, op, tb);
    let e1 = pos + 1 + ta.len();
    let e2 = e1 + 1 + tb.len();
    assert(t.len() == ta.len() + tb.len() + 3);
    assert(ts[e1 as int] == t[(1 + ta.len()) as int]);
    assert(ts[e2 as int] == t[(2 + ta.len() + tb.len()) as int]);
    assert(ts.subrange((pos + 1) as int, e1 as int) =~= t.subrange(1, (1 + ta.len()) as int));
    assert(t.subrange(1, (1 + ta.len()) as int) =~= ta);
    assert(tokens_at(ts, pos + 1, ta));
    assert(ts.subrange((e1 + 1) as int, e2 as int) =~= t.subrange((2 + ta.len()) as int, (2 + ta.len() + tb.len()) as int));
    assert(t.subrange((2 + ta.len()) as int, (2 + ta.len() + tb.len()) as int) =~= tb);
    assert(tokens_at(ts, e1 + 1, tb));
    (e1, e2)
}

/// Printing a formula and parsing the printed text gives back the same
/// formula, for every formula whose atoms are names the parser reads as
/// atoms.
pub proof fn lemma_parse_display(f: FormulaModel)
    requires
        well_named(f),
    ensures
        parse_spec(display(f)) == Ok::<FormulaModel, Seq<char>>(f),
{
    let cs = display(f);
    let ts = formula_tokens(f);
    assert(piece_at(cs, 0, display(f))) by {
        assert(cs.subrange(0, cs.len() as int) =~= cs);
    }
    lemma_tokens_of_display(f, cs, 0);
    assert(tokens_from(cs, cs.len()) == Ok::<Seq<TokenModel>, crate::parser::ParseErrorModel>(Seq::empty()));
    assert(ts + Seq::<TokenModel>::empty() =~= ts);
    assert(tokenize_spec(cs) == Ok::<Seq<TokenModel>, crate::parser::ParseErrorModel>(ts));
    assert(ts.subrange(0, ts.len() as int) =~= ts);
    lemma_parse_tokens(f, ts, 0);
    lemma_tokens_nonempty(f);
    lemma_from_unary(ts, 0, f, ts.len());
}

// ─── What the parser returns is well named ─────────────────────────────

/// Every atom among the tokens has a name the parser reads as an atom.
spec fn atoms_named(ts: Seq<TokenModel>) -> bool {
    forall|k: int| 0 <= k < ts.len() && (#[trigger] ts[k]) is Atom ==> is_atom_name(ts[k]->Atom_0)
}

/// The characters of the word starting at `i` are no delimiters.
proof fn lemma_word_chars(cs: Seq<char>, i: nat, k: nat)
    requires
        i <= k < word_end(cs, i),
    ensures
        k < cs.len(),
        !is_delimiter(cs[k as int]),
    decreases cs.len() - i,
{
    if i < cs.len() && !is_delimiter(cs[i as int]) {
        if k > i {
            lemma_word_chars(cs, i + 1, k);
        }
    }
}

/// A token that is not an atom keeps the atoms of what follows named.
proof fn lemma_prepend_named(t: TokenModel, ts: Seq<TokenModel>)
    requires
        atoms_named(ts),
        t is Atom ==> is_atom_name(t->Atom_0),
    ensures
        atoms_named(seq![t] + ts),
{
    let all = seq![t] + ts;
    assert forall|k: int| 0 <= k < all.len() && (#[trigger] all[k]) is Atom implies is_atom_name(all[k]->Atom_0) by {
        if k > 0 {
            assert(all[k] == ts[k - 1]);
        }
    }
}

/// An atom that the word at `i` stands for has a name the parser reads as
/// an atom.
proof fn lemma_word_atom_named(cs: Seq<char>, i: nat, name: Seq<char>)
    requires
        i < word_end(cs, i) <= cs.len(),
        word_token(cs.subrange(i as int, word_end(cs, i) as int), i) == Ok::<
            TokenModel,
            crate::parser::ParseErrorModel,
        >(TokenModel::Atom(name)),
    ensures
        is_atom_name(name),
{
    let e = word_end(cs, i);
    let w = cs.subrange(i as int, e as int);
    assert(name == w);
    assert forall|k: int| 0 <= k < name.len() implies #[trigger] is_atom_char(name[k]) && !is_delimiter(name[k]) by {
        lemma_word_chars(cs, i, (i + k) as nat);
        assert(name[k] == cs[i + k]);
    }
}

/// The tokenizer only makes atoms of names the parser reads as atoms.
proof fn lemma_tokens_named(cs: Seq<char>, i: nat)
    ensures
        tokens_from(cs, i) is Ok ==> atoms_named(tokens_from(cs, i)->Ok_0),
    decreases cs.len() - i,
{
    if i < cs.len() {
        let c = cs[i as int];
        if crate::parser::is_space(c) {
            lemma_tokens_named(cs, i + 1);
        } else if c == '(' || c == ')' || c == '!' || c == '&' || c == '|' {
            lemma_tokens_named(cs, i + 1);
            if let Ok(rest) = tokens_from(cs, i + 1) {
                let t = if c == '(' {
                    TokenModel::LParen
                } else if c == ')' {
                    TokenModel::RParen
                } else if c == '!' {
                    TokenModel::Not
                } else if c == '&' {
                    TokenModel::And
                } else {
                    TokenModel::Or
                };
                lemma_prepend_named(t, rest);
            }
        } else if c == '-' {
            if i + 1 < cs.len() && cs[i + 1int] == '>' {
                lemma_tokens_named(cs, i + 2);
                if let Ok(rest) = tokens_from(cs, i + 2) {
                    lemma_prepend_named(TokenModel::Implies, rest);
                }
            }
        } else {
            let e = word_end(cs, i);
            if i < e <= cs.len() {
                let w = cs.subrange(i as int, e as int);
                lemma_tokens_named(cs, e);
                if let (Ok(t), Ok(rest)) = (word_token(w, i), tokens_from(cs, e)) {
                    if let TokenModel::Atom(name) = t {
                        lemma_word_atom_named(cs, i, name);
                    }
                    lemma_prepend_named(t, rest);
                }
            }
        }
    }
}

proof fn lemma_implies_named(ts: Seq<TokenModel>, pos: nat)
    requires
        atoms_named(ts),
    ensures
        implies_spec(ts, pos) is Ok ==> well_named(implies_spec(ts, pos)->Ok_0.0),
    decreases ts.len() - pos, 5nat,
{
    lemma_until_named(ts, pos);
    if let Ok((left, p1)) = until_release_spec(ts, pos) {
        if pos < p1 < ts.len() && ts[p1 as int] is Implies {
            lemma_implies_named(ts, p1 + 1);
        }
    }
}

proof fn lemma_until_named(ts: Seq<TokenModel>, pos: nat)
    requires
        atoms_named(ts),
    ensures
        until_release_spec(ts, pos) is Ok ==> well_named(until_release_spec(ts, pos)->Ok_0.0),
    decreases ts.len() - pos, 4nat,
{
    lemma_or_named(ts, pos);
    if let Ok((left, p1)) = or_spec(ts, pos) {
        if pos < p1 < ts.len() && (ts[p1 as int] is Until || ts[p1 as int] is Release) {
            lemma_until_named(ts, p1 + 1);
        }
    }
}

proof fn lemma_or_named(ts: Seq<TokenModel>, pos: nat)
    requires
        atoms_named(ts),
    ensures
        or_spec(ts, pos) is Ok ==> well_named(or_spec(ts, pos)->Ok_0.0),
    decreases ts.len() - pos, 3nat,
{
    lemma_and_named(ts, pos);
    if let Ok((left, p1)) = and_spec(ts, pos) {
        if pos < p1 < ts.len() && ts[p1 as int] is Or {
            lemma_or_named(ts, p1 + 1);
        }
    }
}

proof fn lemma_and_named(ts: Seq<TokenModel>, pos: nat)
    requires
        atoms_named(ts),
    ensures
        and_spec(ts, pos) is Ok ==> well_named(and_spec(ts, pos)->Ok_0.0),
    decreases ts.len() - pos, 2nat,
{
    lemma_unary_named(ts, pos);
    if let Ok((left, p1)) = unary_spec(ts, pos) {
        if pos < p1 < ts.len() && ts[p1 as int] is And {
            lemma_and_named(ts, p1 + 1);
        }
    }
}

proof fn lemma_unary_named(ts: Seq<TokenModel>, pos: nat)
    requires
        atoms_named(ts),
    ensures
        unary_spec(ts, pos) is Ok ==> well_named(unary_spec(ts, pos)->Ok_0.0),
    decreases ts.len() - pos, 1nat,
{
    if pos < ts.len() {
        let t = ts[pos as int];
        if t is Not || t is Globally || t is Finally || t is Next {
            lemma_unary_named(ts, pos + 1);
        } else {
            lemma_primary_named(ts, pos);
        }
    }
}

proof fn lemma_primary_named(ts: Seq<TokenModel>, pos: nat)
    requires
        atoms_named(ts),
    ensures
        primary_spec(ts, pos) is Ok ==> well_named(primary_spec(ts, pos)->Ok_0.0),
    decreases ts.len() - pos, 0nat,
{
    if pos < ts.len() {
        match ts[pos as int] {
            TokenModel::LParen => lemma_implies_named(ts, pos + 1),
            TokenModel::Atom(_) => {},
            _ => {},
        }
    }
}

/// Every formula that parsing returns has atoms whose names the parser
/// reads as atoms.
pub proof fn lemma_parse_well_named(cs: Seq<char>)
    ensures
        parse_spec(cs) is Ok ==> well_named(parse_spec(cs)->Ok_0),
{
    lemma_tokens_named(cs, 0);
    if let Ok(ts) = tokenize_spec(cs) {
        lemma_implies_named(ts, 0);
    }
}

/// Parsing, printing and parsing again gives what the first parse gave:
/// the text a parse result prints as is read back as the same formula.
pub proof fn lemma_parse_print_parse(cs: Seq<char>)
    requires
        parse_spec(cs) is Ok,
    ensures
        parse_spec(display(parse_spec(cs)->Ok_0)) == parse_spec(cs),
{
    lemma_parse_well_named(cs);
    lemma_parse_display(parse_spec(cs)->Ok_0);
}

// ─── Chains of one operator, without parentheses ──────────────────────

/// A token that joins two operands.
pub open spec fn is_binary_operator(t: TokenModel) -> bool {
    t is And || t is Or || t is Until || t is Release || t is Implies
}

/// How the binary operator `t` is written between its operands.
pub open spec fn infix(t: TokenModel) -> Seq<char> {
    match t {
        TokenModel::And => " & "@,
        TokenModel::Or => " | "@,
        TokenModel::Until => " U "@,
        TokenModel::Release => " R "@,
        _ => " -> "@,
    }
}

/// The formula `a t b`.
pub open spec fn combine(t: TokenModel, a: FormulaModel, b: FormulaModel) -> FormulaModel {
    match t {
        TokenModel::And => FormulaModel::And(Box::new(a), Box::new(b)),
        TokenModel::Or => FormulaModel::Or(Box::new(a), Box::new(b)),
        TokenModel::Until => FormulaModel::Until(Box::new(a), Box::new(b)),
        TokenModel::Release => FormulaModel::Release(Box::new(a), Box::new(b)),
        _ => FormulaModel::Implies(Box::new(a), Box::new(b)),
    }
}

/// The printed formulas `fs` joined by the binary operators `ops`, with no
/// parentheses around the chain: `f0 ops[0] f1 ops[1] ... fn`.
pub open spec fn chain_text(fs: Seq<FormulaModel>, ops: Seq<TokenModel>) -> Seq<char>
    decreases fs.len(),
{
    if fs.len() <= 1 {
        display(fs[0])
    } else {
        display(fs[0]) + infix(ops[0]) + chain_text(fs.drop_first(), ops.drop_first())
    }
}

/// `n` times the operator `t`.
pub open spec fn uniform(t: TokenModel, n: nat) -> Seq<TokenModel> {
    Seq::new(n, |i: int| t)
}

/// The formulas `fs` joined by `t`, grouped to the right:
/// `f0 t (f1 t (... t fn))`.
pub open spec fn right_grouped(fs: Seq<FormulaModel>, t: TokenModel) -> FormulaModel
    decreases fs.len(),
{
    if fs.len() <= 1 {
        fs[0]
    } else {
        combine(t, fs[0], right_grouped(fs.drop_first(), t))
    }
}

/// The tokens of [`chain_text`].
spec fn chain_tokens(fs: Seq<FormulaModel>, ops: Seq<TokenModel>) -> Seq<TokenModel>
    decreases fs.len(),
{
    if fs.len() <= 1 {
        formula_tokens(fs[0])
    } else {
        formula_tokens(fs[0]) + seq![ops[0]] + chain_tokens(fs.drop_first(), ops.drop_first())
    }
}

/// Each of `ops` is a binary operator, one between each two of `fs`.
spec fn operators_between(fs: Seq<FormulaModel>, ops: Seq<TokenModel>) -> bool {
    &&& fs.len() >= 1
    &&& ops.len() + 1 == fs.len()
    &&& forall|k: int| 0 <= k < ops.len() ==> is_binary_operator(#[trigger] ops[k])
}

/// The level of the grammar at which chains of `t` are read.
spec fn level_spec(t: TokenModel, ts: Seq<TokenModel>, pos: nat) -> crate::parser::ParseOutcome {
    match t {
        TokenModel::And => and_spec(ts, pos),
        TokenModel::Or => or_spec(ts, pos),
        TokenModel::Until => until_release_spec(ts, pos),
        TokenModel::Release => until_release_spec(ts, pos),
        _ => implies_spec(ts, pos),
    }
}

proof fn lemma_infix_text(t: TokenModel)
    requires
        is_binary_operator(t),
    ensures
        operator_text(infix(t), t),
        infix(t)[0] == ' ',
{
    lemma_operator_texts();
    reveal_strlit(" & ");
    reveal_strlit(" | ");
    reveal_strlit(" -> ");
    reveal_strlit(" U ");
    reveal_strlit(" R ");
}

/// The text of a chain, followed by a character that ends a word (or by
/// the end), is read as the chain's tokens.
proof fn lemma_chain_tokens(fs: Seq<FormulaModel>, ops: Seq<TokenModel>, cs: Seq<char>, i: nat)
    requires
        operators_between(fs, ops),
        forall|k: int| 0 <= k < fs.len() ==> well_named(#[trigger] fs[k]),
        piece_at(cs, i, chain_text(fs, ops)),
        i + chain_text(fs, ops).len() == cs.len() || is_delimiter(cs[(i + chain_text(fs, ops).len()) as int]),
    ensures
        tokens_from(cs, i) == extend(chain_tokens(fs, ops), tokens_from(cs, i + chain_text(fs, ops).len())),
    decreases fs.len(),
{
    assert(well_named(fs[0]));
    let d0 = display(fs[0]);
    if fs.len() <= 1 {
        lemma_tokens_of_display(fs[0], cs, i);
    } else {
        let t = ops[0];
        let op = infix(t);
        let rest = fs.drop_first();
        let rops = ops.drop_first();
        let dr = chain_text(rest, rops);
        let whole = d0 + op + dr;
        assert(chain_text(fs, ops) == whole);
        lemma_infix_text(t);
        let j = i + d0.len();
        let k = j + op.len();
        assert(cs.subrange(i as int, j as int) =~= whole.subrange(0, d0.len() as int));
        assert(whole.subrange(0, d0.len() as int) =~= d0);
        assert(cs[j as int] == whole[d0.len() as int]);
        assert(piece_at(cs, i, d0));
        lemma_tokens_of_display(fs[0], cs, i);
        assert(cs.subrange(j as int, k as int) =~= whole.subrange(d0.len() as int, (d0.len() + op.len()) as int));
        assert(whole.subrange(d0.len() as int, (d0.len() + op.len()) as int) =~= op);
        lemma_operator(cs, j, op, t);
        assert(cs.subrange(k as int, (k + dr.len()) as int) =~= whole.subrange(
            (d0.len() + op.len()) as int,
            whole.len() as int,
        ));
        assert(whole.subrange((d0.len() + op.len()) as int, whole.len() as int) =~= dr);
        assert forall|m: int| 0 <= m < rest.len() implies well_named(#[trigger] rest[m]) by {
            assert(rest[m] == fs[m + 1]);
        }
        assert forall|m: int| 0 <= m < rops.len() implies is_binary_operator(#[trigger] rops[m]) by {
            assert(rops[m] == ops[m + 1]);
        }
        lemma_chain_tokens(rest, rops, cs, k);
        let tail = tokens_from(cs, k + dr.len());
        lemma_extend_extend(seq![t], chain_tokens(rest, rops), tail);
        lemma_extend_extend(formula_tokens(fs[0]), seq![t] + chain_tokens(rest, rops), tail);
        assert(formula_tokens(fs[0]) + (seq![t] + chain_tokens(rest, rops)) =~= chain_tokens(fs, ops));
    }
}

/// The tokens of a chain that runs to the end of `ts` are read at the
/// chain's level, and at the top level, as the right-grouped formula.
proof fn lemma_chain_parses(fs: Seq<FormulaModel>, t: TokenModel, ts: Seq<TokenModel>, pos: nat)
    requires
        fs.len() >= 1,
        is_binary_operator(t),
        pos + chain_tokens(fs, uniform(t, (fs.len() - 1) as nat)).len() == ts.len(),
        ts.subrange(pos as int, ts.len() as int) == chain_tokens(fs, uniform(t, (fs.len() - 1) as nat)),
    ensures
        level_spec(t, ts, pos) == Ok::<(FormulaModel, nat), crate::parser::ParseErrorModel>((right_grouped(fs, t), ts.len())),
        implies_spec(ts, pos) == Ok::<(FormulaModel, nat), crate::parser::ParseErrorModel>((right_grouped(fs, t), ts.len())),
    decreases fs.len(),
{
    let ct = chain_tokens(fs, uniform(t, (fs.len() - 1) as nat));
    let f0 = fs[0];
    let ft0 = formula_tokens(f0);
    let e1 = pos + ft0.len();
    lemma_tokens_nonempty(f0);
    if fs.len() <= 1 {
        assert(ts.subrange(pos as int, e1 as int) =~= ft0);
        lemma_parse_tokens(f0, ts, pos);
        lemma_from_unary(ts, pos, f0, e1);
    } else {
        let rest = fs.drop_first();
        let cr = chain_tokens(rest, uniform(t, (rest.len() - 1) as nat));
        assert(uniform(t, (fs.len() - 1) as nat).drop_first() =~= uniform(t, (rest.len() - 1) as nat));
        assert(ct == ft0 + seq![t] + cr);
        assert(ts.subrange(pos as int, e1 as int) =~= ct.subrange(0, ft0.len() as int));
        assert(ct.subrange(0, ft0.len() as int) =~= ft0);
        lemma_parse_tokens(f0, ts, pos);
        assert(ts[e1 as int] == ct[ft0.len() as int]);
        assert(ts[e1 as int] == t);
        assert(ts.subrange(e1 + 1int, ts.len() as int) =~= ct.subrange(ft0.len() + 1int, ct.len() as int));
        assert(ct.subrange(ft0.len() + 1int, ct.len() as int) =~= cr);
        lemma_chain_parses(rest, t, ts, e1 + 1);
        let g = right_grouped(fs, t);
        let n = ts.len();
        assert(g == combine(t, f0, right_grouped(rest, t)));
        if t is And {
            assert(and_spec(ts, pos) == Ok::<(FormulaModel, nat), crate::parser::ParseErrorModel>((g, n)));
            lemma_from_and(ts, pos, g, n);
        } else if t is Or {
            assert(and_spec(ts, pos) == Ok::<(FormulaModel, nat), crate::parser::ParseErrorModel>((f0, e1)));
            assert(or_spec(ts, pos) == Ok::<(FormulaModel, nat), crate::parser::ParseErrorModel>((g, n)));
            lemma_from_or(ts, pos, g, n);
        } else if t is Until || t is Release {
            assert(and_spec(ts, pos) == Ok::<(FormulaModel, nat), crate::parser::ParseErrorModel>((f0, e1)));
            assert(or_spec(ts, pos) == Ok::<(FormulaModel, nat), crate::parser::ParseErrorModel>((f0, e1)));
            assert(until_release_spec(ts, pos) == Ok::<(FormulaModel, nat), crate::parser::ParseErrorModel>((g, n)));
            lemma_from_until(ts, pos, g, n);
        } else {
            assert(and_spec(ts, pos) == Ok::<(FormulaModel, nat), crate::parser::ParseErrorModel>((f0, e1)));
            assert(or_spec(ts, pos) == Ok::<(FormulaModel, nat), crate::parser::ParseErrorModel>((f0, e1)));
            assert(until_release_spec(ts, pos) == Ok::<(FormulaModel, nat), crate::parser::ParseErrorModel>((f0, e1)));
            assert(implies_spec(ts, pos) == Ok::<(FormulaModel, nat), crate::parser::ParseErrorModel>((g, n)));
        }
    }
}

/// A chain of printed formulas joined by one binary operator, with no
/// parentheses, parses to the formulas grouped to the right: `a | b | c`
/// is `a | (b | c)`, `a & b & c` is `a & (b & c)`, `a U b U c` is
/// `a U (b U c)`, and likewise for `R` and `->`. In particular the second
/// operand of each operator is read at that operator's own level.
pub proof fn lemma_parse_chain(fs: Seq<FormulaModel>, t: TokenModel)
    requires
        fs.len() >= 1,
        is_binary_operator(t),
        forall|k: int| 0 <= k < fs.len() ==> well_named(#[trigger] fs[k]),
    ensures
        parse_spec(chain_text(fs, uniform(t, (fs.len() - 1) as nat))) == Ok::<FormulaModel, Seq<char>>(
            right_grouped(fs, t),
        ),
{
    let ops = uniform(t, (fs.len() - 1) as nat);
    let cs = chain_text(fs, ops);
    assert(cs.subrange(0, cs.len() as int) =~= cs);
    lemma_chain_tokens(fs, ops, cs, 0);
    let ts = chain_tokens(fs, ops);
    assert(ts + Seq::<TokenModel>::empty() =~= ts);
    assert(tokenize_spec(cs) == Ok::<Seq<TokenModel>, crate::parser::ParseErrorModel>(ts));
    assert(ts.subrange(0, ts.len() as int) =~= ts);
    lemma_chain_parses(fs, t, ts, 0);
}

// ─── Precedence ───────────────────────────────────────────────────────

/// How loosely the binary operator `t` binds: `&` binds tightest, then
/// `|`, then `U` and `R`, and `->` loosest.
pub open spec fn looseness(t: TokenModel) -> nat {
    match t {
        TokenModel::And => 1,
        TokenModel::Or => 2,
        TokenModel::Until => 3,
        TokenModel::Release => 3,
        _ => 4,
    }
}

/// The grammar's levels, from the unary level (0) to implication (4).
spec fn level(k: nat, ts: Seq<TokenModel>, pos: nat) -> crate::parser::ParseOutcome {
    if k == 0 {
        unary_spec(ts, pos)
    } else if k == 1 {
        and_spec(ts, pos)
    } else if k == 2 {
        or_spec(ts, pos)
    } else if k == 3 {
        until_release_spec(ts, pos)
    } else {
        implies_spec(ts, pos)
    }
}

/// What follows a formula read up to `e` is not an operator of level `k`.
spec fn not_at_level(ts: Seq<TokenModel>, e: nat, k: nat) -> bool {
    e >= ts.len() || !is_binary_operator(ts[e as int]) || looseness(ts[e as int]) != k
}

/// A formula read at level `k - 1` up to `e` is the whole result at level
/// `k` when no operator of level `k` follows.
proof fn lemma_level_pass(k: nat, ts: Seq<TokenModel>, q: nat, g: FormulaModel, e: nat)
    requires
        1 <= k <= 4,
        level((k - 1) as nat, ts, q) == Ok::<(FormulaModel, nat), crate::parser::ParseErrorModel>((g, e)),
        q < e <= ts.len(),
        not_at_level(ts, e, k),
    ensures
        level(k, ts, q) == Ok::<(FormulaModel, nat), crate::parser::ParseErrorModel>((g, e)),
{
}

/// Levels `j + 1` to `k` pass a formula read at level `j` through.
proof fn lemma_level_climb(j: nat, k: nat, ts: Seq<TokenModel>, q: nat, g: FormulaModel, e: nat)
    requires
        j <= k <= 4,
        level(j, ts, q) == Ok::<(FormulaModel, nat), crate::parser::ParseErrorModel>((g, e)),
        q < e <= ts.len(),
        forall|m: nat| j < m <= k ==> #[trigger] not_at_level(ts, e, m),
    ensures
        level(k, ts, q) == Ok::<(FormulaModel, nat), crate::parser::ParseErrorModel>((g, e)),
    decreases k - j,
{
    if j < k {
        assert(not_at_level(ts, e, j + 1));
        lemma_level_pass(j + 1, ts, q, g, e);
        lemma_level_climb(j + 1, k, ts, q, g, e);
    }
}

/// At level `k`, a formula read at level `k - 1`, an operator of level `k`
/// and the rest read at level `k` combine.
proof fn lemma_level_combine(
    k: nat,
    ts: Seq<TokenModel>,
    q: nat,
    g: FormulaModel,
    e: nat,
    h: FormulaModel,
    e2: nat,
)
    requires
        1 <= k <= 4,
        level((k - 1) as nat, ts, q) == Ok::<(FormulaModel, nat), crate::parser::ParseErrorModel>((g, e)),
        q < e < ts.len(),
        is_binary_operator(ts[e as int]),
        looseness(ts[e as int]) == k,
        level(k, ts, e + 1) == Ok::<(FormulaModel, nat), crate::parser::ParseErrorModel>((h, e2)),
    ensures
        level(k, ts, q) == Ok::<(FormulaModel, nat), crate::parser::ParseErrorModel>((combine(ts[e as int], g, h), e2)),
{
}

/// The tokens of `f` at `q`, followed by the end of `ts` or an operator
/// that binds looser than level `k`, are read as `f` at level `k`.
proof fn lemma_operand_at_level(f: FormulaModel, ts: Seq<TokenModel>, q: nat, k: nat)
    requires
        k <= 4,
        tokens_at(ts, q, formula_tokens(f)),
        q + formula_tokens(f).len() == ts.len() || (is_binary_operator(ts[(q + formula_tokens(f).len()) as int])
            && looseness(ts[(q + formula_tokens(f).len()) as int]) > k),
    ensures
        level(k, ts, q) == Ok::<(FormulaModel, nat), crate::parser::ParseErrorModel>((f, q + formula_tokens(f).len())),
{
    let e = q + formula_tokens(f).len();
    lemma_tokens_nonempty(f);
    lemma_parse_tokens(f, ts, q);
    assert forall|m: nat| 0 < m <= k implies #[trigger] not_at_level(ts, e, m) by {}
    lemma_level_climb(0, k, ts, q, f, e);
}

/// The three-operand texts `a hi b lo c` and `a lo b hi c` with `hi`
/// binding tighter than `lo`: the tokens, the positions of the operators,
/// and where each operand stands.
proof fn lemma_three_tokens(a: FormulaModel, b: FormulaModel, c: FormulaModel, o1: TokenModel, o2: TokenModel)
    requires
        well_named(a),
        well_named(b),
        well_named(c),
        is_binary_operator(o1),
        is_binary_operator(o2),
    ensures
        tokenize_spec(chain_text(seq![a, b, c], seq![o1, o2])) == Ok::<
            Seq<TokenModel>,
            crate::parser::ParseErrorModel,
        >(formula_tokens(a) + seq![o1] + formula_tokens(b) + seq![o2] + formula_tokens(c)),
{
    let fs = seq![a, b, c];
    let ops = seq![o1, o2];
    let cs = chain_text(fs, ops);
    assert(fs.drop_first() =~= seq![b, c]);
    assert(seq![b, c].drop_first() =~= seq![c]);
    assert(ops.drop_first() =~= seq![o2]);
    assert(cs.subrange(0, cs.len() as int) =~= cs);
    assert forall|k: int| 0 <= k < fs.len() implies well_named(#[trigger] fs[k]) by {}
    lemma_chain_tokens(fs, ops, cs, 0);
    let ts = chain_tokens(fs, ops);
    assert(chain_tokens(seq![c], seq![o2].drop_first()) == formula_tokens(c));
    assert(chain_tokens(seq![b, c], seq![o2]) == formula_tokens(b) + seq![o2] + formula_tokens(c));
    assert(ts == formula_tokens(a) + seq![o1] + chain_tokens(seq![b, c], seq![o2]));
    assert(ts =~= formula_tokens(a) + seq![o1] + formula_tokens(b) + seq![o2] + formula_tokens(c));
    assert(ts + Seq::<TokenModel>::empty() =~= ts);
}

/// An operator that binds tighter groups first, wherever it stands: for
/// `hi` binding tighter than `lo`, `a hi b lo c` parses as `(a hi b) lo c`
/// and `a lo b hi c` as `a lo (b hi c)`; so `a & b | c` is `(a & b) | c`,
/// `a | b U c` is `(a | b) U c`, `a U b -> c` is `(a U b) -> c`.
pub proof fn lemma_parse_precedence(a: FormulaModel, b: FormulaModel, c: FormulaModel, hi: TokenModel, lo: TokenModel)
    requires
        well_named(a),
        well_named(b),
        well_named(c),
        is_binary_operator(hi),
        is_binary_operator(lo),
        looseness(hi) < looseness(lo),
    ensures
        parse_spec(chain_text(seq![a, b, c], seq![hi, lo])) == Ok::<FormulaModel, Seq<char>>(
            combine(lo, combine(hi, a, b), c),
        ),
        parse_spec(chain_text(seq![a, b, c], seq![lo, hi])) == Ok::<FormulaModel, Seq<char>>(
            combine(lo, a, combine(hi, b, c)),
        ),
{
    let ta = formula_tokens(a);
    let tb = formula_tokens(b);
    let tc = formula_tokens(c);
    let h = looseness(hi);
    let l = looseness(lo);
    let e1 = ta.len();
    let e2 = e1 + 1 + tb.len();
    // a hi b lo c
    lemma_three_tokens(a, b, c, hi, lo);
    let ts = ta + seq![hi] + tb + seq![lo] + tc;
    let n = ts.len();
    assert(ts.subrange(0, e1 as int) =~= ta);
    assert(ts.subrange(e1 + 1int, e2 as int) =~= tb);
    assert(ts.subrange(e2 + 1int, n as int) =~= tc);
    assert(ts[e1 as int] == hi);
    assert(ts[e2 as int] == lo);
    lemma_operand_at_level(a, ts, 0, (h - 1) as nat);
    lemma_operand_at_level(b, ts, e1 + 1, h);
    lemma_level_combine(h, ts, 0, a, e1, b, e2);
    let ab = combine(hi, a, b);
    assert forall|m: nat| h < m <= (l - 1) as nat implies #[trigger] not_at_level(ts, e2, m) by {}
    lemma_level_climb(h, (l - 1) as nat, ts, 0, ab, e2);
    lemma_operand_at_level(c, ts, e2 + 1, l);
    lemma_level_combine(l, ts, 0, ab, e2, c, n);
    assert forall|m: nat| l < m <= 4 implies #[trigger] not_at_level(ts, n, m) by {}
    lemma_level_climb(l, 4, ts, 0, combine(lo, ab, c), n);
    // a lo b hi c
    lemma_three_tokens(a, b, c, lo, hi);
    let us = ta + seq![lo] + tb + seq![hi] + tc;
    assert(us.len() == n);
    assert(us.subrange(0, e1 as int) =~= ta);
    assert(us.subrange(e1 + 1int, e2 as int) =~= tb);
    assert(us.subrange(e2 + 1int, n as int) =~= tc);
    assert(us[e1 as int] == lo);
    assert(us[e2 as int] == hi);
    lemma_operand_at_level(a, us, 0, (l - 1) as nat);
    lemma_operand_at_level(b, us, e1 + 1, (h - 1) as nat);
    lemma_operand_at_level(c, us, e2 + 1, h);
    lemma_level_combine(h, us, e1 + 1, b, e2, c, n);
    let bc = combine(hi, b, c);
    assert forall|m: nat| h < m <= l implies #[trigger] not_at_level(us, n, m) by {}
    lemma_level_climb(h, l, us, e1 + 1, bc, n);
    lemma_level_combine(l, us, 0, a, e1, bc, n);
    assert forall|m: nat| l < m <= 4 implies #[trigger] not_at_level(us, n, m) by {}
    lemma_level_climb(l, 4, us, 0, combine(lo, a, bc), n);
}

} // verus!
