//! The long names of the temporal operators read as their letters.
//!
//! `globally` and `always` are `G`, `eventually` (and its misspelling
//! `eventally`) is `F`, `next` is `X`, `until` is `U` and `release` is `R`:
//! written as a whole word, each long name can stand wherever its letter
//! stands, and the text parses the same.
use crate::parser::is_delimiter;
use crate::parser::keyword;
use crate::parser::parse_spec;
use crate::parser::tokenize_spec;
use crate::parser::tokens_from;
use crate::parser::word_end;
use crate::parser::word_token;
use crate::spacing::agree;
use crate::spacing::lemma_agree_in_rest;
use vstd::prelude::*;

verus! {

/// `w` is a long name of the operator whose letter is `l`.
pub open spec fn is_alias(w: Seq<char>, l: Seq<char>) -> bool {
    ||| w == "globally"@ && l == "G"@
    ||| w == "always"@ && l == "G"@
    ||| w == "eventually"@ && l == "F"@
    ||| w == "eventally"@ && l == "F"@
    ||| w == "next"@ && l == "X"@
    ||| w == "until"@ && l == "U"@
    ||| w == "release"@ && l == "R"@
}

/// A word of letters, none of which ends a word.
spec fn plain_word(w: Seq<char>) -> bool {
    w.len() > 0 && forall|k: int| 0 <= k < w.len() ==> !is_delimiter(#[trigger] w[k])
}

/// A long name and its letter are both plain words and both keywords of
/// the same operator.
proof fn lemma_alias_keyword(w: Seq<char>, l: Seq<char>)
    requires
        is_alias(w, l),
    ensures
        plain_word(w),
        plain_word(l),
        keyword(w) is Some,
        keyword(w) == keyword(l),
{
    reveal_strlit("G");
    reveal_strlit("globally");
    reveal_strlit("always");
    reveal_strlit("F");
    reveal_strlit("eventually");
    reveal_strlit("eventally");
    reveal_strlit("X");
    reveal_strlit("next");
    reveal_strlit("U");
    reveal_strlit("until");
    reveal_strlit("R");
    reveal_strlit("release");
    assert("G"@.len() == 1 && "F"@.len() == 1 && "X"@.len() == 1 && "U"@.len() == 1 && "R"@.len() == 1);
    assert("globally"@.len() == 8 && "always"@.len() == 6 && "eventually"@.len() == 10);
    assert("eventally"@.len() == 9 && "next"@.len() == 4 && "until"@.len() == 5 && "release"@.len() == 7);
    assert("G"@ != "F"@ && "G"@ != "X"@ && "G"@ != "U"@ && "G"@ != "R"@) by {
        assert("G"@[0] != "F"@[0] && "G"@[0] != "X"@[0] && "G"@[0] != "U"@[0] && "G"@[0] != "R"@[0]);
    }
    assert("F"@ != "X"@ && "F"@ != "U"@ && "F"@ != "R"@) by {
        assert("F"@[0] != "X"@[0] && "F"@[0] != "U"@[0] && "F"@[0] != "R"@[0]);
    }
    assert("X"@ != "U"@ && "X"@ != "R"@) by {
        assert("X"@[0] != "U"@[0] && "X"@[0] != "R"@[0]);
    }
    assert("U"@ != "R"@) by {
        assert("U"@[0] != "R"@[0]);
    }
    assert(keyword("G"@) == Some(crate::parser::TokenModel::Globally));
    assert(keyword("F"@) == Some(crate::parser::TokenModel::Finally));
    assert(keyword("X"@) == Some(crate::parser::TokenModel::Next));
    assert(keyword("U"@) == Some(crate::parser::TokenModel::Until));
    assert(keyword("R"@) == Some(crate::parser::TokenModel::Release));
    if w == "globally"@ || w == "always"@ {
        assert(keyword(w) == Some(crate::parser::TokenModel::Globally));
    } else if w == "eventually"@ || w == "eventally"@ {
        assert(keyword(w) == Some(crate::parser::TokenModel::Finally));
    } else if w == "next"@ {
        assert(keyword(w) == Some(crate::parser::TokenModel::Next));
    } else if w == "until"@ {
        assert(keyword(w) == Some(crate::parser::TokenModel::Until));
    } else {
        assert(keyword(w) == Some(crate::parser::TokenModel::Release));
    }
}

/// A plain word followed by the end or by a character that ends a word is
/// read as one word.
proof fn lemma_word_at_start(w: Seq<char>, rest: Seq<char>, k: nat)
    requires
        plain_word(w),
        rest.len() == 0 || is_delimiter(rest[0]),
        k <= w.len(),
    ensures
        word_end(w + rest, k) == w.len(),
    decreases w.len() - k,
{
    let cs = w + rest;
    if k < w.len() {
        assert(cs[k as int] == w[k as int]);
        assert(!is_delimiter(w[k as int]));
        lemma_word_at_start(w, rest, k + 1);
    } else if rest.len() > 0 {
        assert(cs[k as int] == rest[0]);
    }
}

/// A keyword that starts a text is read as its operator's token, followed
/// by the tokens of the rest.
proof fn lemma_keyword_start(w: Seq<char>, rest: Seq<char>)
    requires
        plain_word(w),
        keyword(w) is Some,
        rest.len() == 0 || is_delimiter(rest[0]),
    ensures
        agree(
            tokens_from(w + rest, 0),
            match tokens_from(rest, 0) {
                Ok(ts) => Ok(seq![keyword(w)->0] + ts),
                Err(e) => Err(e),
            },
        ),
{
    let cs = w + rest;
    lemma_word_at_start(w, rest, 0);
    assert(cs[0] == w[0]);
    assert(!is_delimiter(w[0]));
    assert(cs.subrange(0, w.len() as int) =~= w);
    assert(word_token(w, 0) == Ok::<crate::parser::TokenModel, crate::parser::ParseErrorModel>(keyword(w)->0));
    lemma_agree_in_rest(w, rest, 0);
}

/// A long name of a temporal operator, written as a whole word at the
/// start of a text, reads exactly as the operator's letter: the two texts
/// both fail to parse, or both parse to the same formula.
pub proof fn lemma_alias_reads_as_letter(w: Seq<char>, l: Seq<char>, rest: Seq<char>)
    requires
        is_alias(w, l),
        rest.len() == 0 || is_delimiter(rest[0]),
    ensures
        parse_spec(w + rest) is Ok <==> parse_spec(l + rest) is Ok,
        parse_spec(w + rest) is Ok ==> parse_spec(w + rest) == parse_spec(l + rest),
{
    lemma_alias_keyword(w, l);
    lemma_keyword_start(w, rest);
    lemma_keyword_start(l, rest);
    assert(agree(tokenize_spec(w + rest), tokenize_spec(l + rest)));
}

} // verus!
