//! Blanks next to symbols do not matter.
//!
//! The tokenizer skips blanks, and a blank ends a word just as a symbol
//! does. So a blank put next to a symbol or another blank, right after an
//! arrow `->`, or at either end of the input, but never between the two
//! characters of `->`, changes
//! neither whether the input parses nor what it parses to.
use crate::parser::is_delimiter;
use crate::parser::is_space;
use crate::parser::lemma_word_end_bounds;
use crate::parser::parse_spec;
use crate::parser::tokenize_spec;
use crate::parser::tokens_from;
use crate::parser::word_end;
use crate::parser::word_token;
use crate::parser::ParseErrorModel;
use crate::parser::TokenModel;
use vstd::prelude::*;

verus! {

/// `cs` with the character `b` put in at index `k`.
pub open spec fn with_blank(cs: Seq<char>, k: nat, b: char) -> Seq<char> {
    cs.subrange(0, k as int) + seq![b] + cs.subrange(k as int, cs.len() as int)
}

/// Index `k` of `cs` comes right after an arrow `->`.
pub open spec fn after_arrow(cs: Seq<char>, k: nat) -> bool {
    2 <= k <= cs.len() && cs[k - 2] == '-' && cs[k - 1] == '>'
}

/// A blank may go in at index `k` of `cs`: at an end of the text, or next to
/// a symbol or a blank, or right after an arrow, and not between the `-` and
/// the `>` of an arrow.
pub open spec fn blank_allowed_at(cs: Seq<char>, k: nat) -> bool {
    &&& k <= cs.len()
    &&& k == 0 || k == cs.len() || is_delimiter(cs[k - 1]) || is_delimiter(cs[k as int]) || after_arrow(cs, k)
    &&& !(0 < k < cs.len() && cs[k - 1] == '-' && cs[k as int] == '>')
}

/// A word that stops inside the text stops at a delimiter.
proof fn lemma_word_end_stops(cs: Seq<char>, i: nat)
    requires
        i <= cs.len(),
    ensures
        word_end(cs, i) < cs.len() ==> is_delimiter(cs[word_end(cs, i) as int]),
    decreases cs.len() - i,
{
    if i < cs.len() && !is_delimiter(cs[i as int]) {
        lemma_word_end_stops(cs, i + 1);
    }
}

/// Two tokenizer results agree: both fail, or both give the same tokens.
pub(crate) open spec fn agree(r1: Result<Seq<TokenModel>, ParseErrorModel>, r2: Result<Seq<TokenModel>, ParseErrorModel>) -> bool {
    (r1 is Ok <==> r2 is Ok) && (r1 is Ok ==> r1 == r2)
}

/// A word read at another index stands for the same token, or fails too.
pub(crate) proof fn lemma_word_token_moved(w: Seq<char>, i: nat, j: nat)
    ensures
        word_token(w, i) is Ok <==> word_token(w, j) is Ok,
        word_token(w, i) is Ok ==> word_token(w, i) == word_token(w, j),
{
}

/// Behind the inserted blank, a word ends one index later.
proof fn lemma_word_end_after(cs: Seq<char>, k: nat, b: char, j: nat)
    requires
        k <= j <= cs.len(),
    ensures
        word_end(with_blank(cs, k, b), j + 1) == word_end(cs, j) + 1,
    decreases cs.len() - j,
{
    let cs2 = with_blank(cs, k, b);
    if j < cs.len() {
        assert(cs2[j + 1int] == cs[j as int]);
        if !is_delimiter(cs[j as int]) {
            lemma_word_end_after(cs, k, b, j + 1);
        }
    }
}

/// In front of the inserted blank, a word ends where it ended, no later
/// than the blank.
proof fn lemma_word_end_before(cs: Seq<char>, k: nat, b: char, i: nat)
    requires
        blank_allowed_at(cs, k),
        is_space(b),
        i < k,
        !(after_arrow(cs, k) && i + 1 == k),
    ensures
        word_end(with_blank(cs, k, b), i) == word_end(cs, i),
        word_end(cs, i) <= k,
    decreases k - i,
{
    let cs2 = with_blank(cs, k, b);
    assert(cs2[i as int] == cs[i as int]);
    if !is_delimiter(cs[i as int]) {
        if i + 1 < k {
            assert(!(after_arrow(cs, k) && i + 2 == k));
            lemma_word_end_before(cs, k, b, i + 1);
        } else {
            assert(cs2[k as int] == b);
            assert(word_end(cs2, k) == k);
            assert(word_end(cs, k) == k);
        }
    }
}

/// From the inserted blank on, the two texts tokenize alike.
proof fn lemma_agree_after(cs: Seq<char>, k: nat, b: char, i: nat)
    requires
        k <= i <= cs.len(),
    ensures
        agree(tokens_from(with_blank(cs, k, b), i + 1), tokens_from(cs, i)),
    decreases cs.len() - i,
{
    let cs2 = with_blank(cs, k, b);
    if i < cs.len() {
        let c = cs[i as int];
        assert(cs2[i + 1int] == c);
        if is_space(c) || c == '(' || c == ')' || c == '!' || c == '&' || c == '|' {
            lemma_agree_after(cs, k, b, i + 1);
        } else if c == '-' {
            if i + 1 < cs.len() {
                assert(cs2[i + 2int] == cs[i + 1int]);
            }
            if i + 1 < cs.len() && cs[i + 1int] == '>' {
                lemma_agree_after(cs, k, b, i + 2);
            }
        } else {
            let e = word_end(cs, i);
            lemma_word_end_after(cs, k, b, i);
            lemma_word_end_bounds(cs, i);
            assert(cs2.subrange(i + 1int, e + 1int) =~= cs.subrange(i as int, e as int));
            lemma_word_token_moved(cs.subrange(i as int, e as int), i + 1, i);
            if i < e {
                lemma_agree_after(cs, k, b, e);
            }
        }
    }
}

/// Up to the inserted blank, the two texts tokenize alike.
proof fn lemma_agree_before(cs: Seq<char>, k: nat, b: char, i: nat)
    requires
        blank_allowed_at(cs, k),
        is_space(b),
        i <= k,
        !(after_arrow(cs, k) && i + 1 == k),
    ensures
        agree(tokens_from(with_blank(cs, k, b), i), tokens_from(cs, i)),
    decreases k - i,
{
    let cs2 = with_blank(cs, k, b);
    if i == k {
        assert(cs2[k as int] == b);
        lemma_agree_after(cs, k, b, k);
    } else {
        let c = cs[i as int];
        assert(cs2[i as int] == c);
        if is_space(c) || c == '(' || c == ')' || c == '!' || c == '&' || c == '|' {
            lemma_agree_before(cs, k, b, i + 1);
        } else if c == '-' {
            if i + 1 < k {
                assert(cs2[i + 1int] == cs[i + 1int]);
                if cs[i + 1int] == '>' {
                    lemma_agree_before(cs, k, b, i + 2);
                }
            } else {
                assert(cs2[i + 1int] == b);
            }
        } else {
            let e = word_end(cs, i);
            lemma_word_end_before(cs, k, b, i);
            lemma_word_end_bounds(cs, i);
            lemma_word_end_stops(cs, i);
            assert(cs2.subrange(i as int, e as int) =~= cs.subrange(i as int, e as int));
            if i < e {
                lemma_agree_before(cs, k, b, e);
            }
        }
    }
}

/// A blank put in next to a symbol or a blank, right after an arrow, or at
/// either end, but not inside `->`, changes neither whether the text parses nor the formula it
/// parses to.
pub proof fn lemma_blank_insertion(cs: Seq<char>, k: nat, b: char)
    requires
        blank_allowed_at(cs, k),
        is_space(b),
    ensures
        parse_spec(with_blank(cs, k, b)) is Ok <==> parse_spec(cs) is Ok,
        parse_spec(cs) is Ok ==> parse_spec(with_blank(cs, k, b)) == parse_spec(cs),
{
    lemma_agree_before(cs, k, b, 0);
    assert(agree(tokenize_spec(with_blank(cs, k, b)), tokenize_spec(cs)));
}

/// A word that starts in the rest of a text ends where it ends in the
/// rest alone, moved by the length of what comes before.
proof fn lemma_word_end_in_rest(p: Seq<char>, rest: Seq<char>, j: nat)
    requires
        j <= rest.len(),
    ensures
        word_end(p + rest, p.len() + j) == p.len() + word_end(rest, j),
    decreases rest.len() - j,
{
    let cs = p + rest;
    if j < rest.len() {
        assert(cs[(p.len() + j) as int] == rest[j as int]);
        if !is_delimiter(rest[j as int]) {
            lemma_word_end_in_rest(p, rest, j + 1);
        }
    }
}

/// Whatever comes before it, the rest of a text tokenizes as it does alone.
pub(crate) proof fn lemma_agree_in_rest(p: Seq<char>, rest: Seq<char>, j: nat)
    requires
        j <= rest.len(),
    ensures
        agree(tokens_from(p + rest, p.len() + j), tokens_from(rest, j)),
    decreases rest.len() - j,
{
    let cs = p + rest;
    let i = p.len() + j;
    if j < rest.len() {
        let c = rest[j as int];
        assert(cs[i as int] == c);
        if is_space(c) || c == '(' || c == ')' || c == '!' || c == '&' || c == '|' {
            lemma_agree_in_rest(p, rest, j + 1);
        } else if c == '-' {
            if j + 1 < rest.len() {
                assert(cs[i + 1int] == rest[j + 1int]);
            }
            if j + 1 < rest.len() && rest[j + 1int] == '>' {
                lemma_agree_in_rest(p, rest, j + 2);
            }
        } else {
            let e = word_end(rest, j);
            lemma_word_end_in_rest(p, rest, j);
            lemma_word_end_bounds(rest, j);
            assert(cs.subrange(i as int, (p.len() + e) as int) =~= rest.subrange(j as int, e as int));
            lemma_word_token_moved(rest.subrange(j as int, e as int), i, j);
            if j < e {
                lemma_agree_in_rest(p, rest, e);
            }
        }
    }
}

} // verus!
