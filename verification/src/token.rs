//! The tokenizer: splits raw text into parenthesis markers and maximal
//! non-delimiter runs, discarding whitespace. This step never fails.

use vstd::prelude::*;
use vstd::string::StrSliceExecFns;

verus! {

/// The mathematical model of a [`Token`]: a word carries its character
/// sequence.
pub enum TokenV {
    Open,
    Close,
    Word(Seq<char>),
}

/// One primitive token: an open parenthesis, a close parenthesis, or a
/// maximal run of non-whitespace, non-parenthesis characters.
#[derive(Debug, Clone)]
pub enum Token {
    Open,
    Close,
    Word(String),
}

impl View for Token {
    type V = TokenV;

    open spec fn view(&self) -> TokenV {
        match self {
            Token::Open => TokenV::Open,
            Token::Close => TokenV::Close,
            Token::Word(s) => TokenV::Word(s@),
        }
    }
}

impl PartialEq for Token {
    fn eq(&self, other: &Token) -> (r: bool) {
        match (self, other) {
            (Token::Open, Token::Open) => true,
            (Token::Close, Token::Close) => true,
            (Token::Word(a), Token::Word(b)) => *a == *b,
            _ => false,
        }
    }
}

impl vstd::std_specs::cmp::PartialEqSpecImpl for Token {
    open spec fn obeys_eq_spec() -> bool {
        true
    }

    open spec fn eq_spec(&self, other: &Token) -> bool {
        self@ == other@
    }
}

/// The models of a sequence of tokens, in order.
pub open spec fn tokens_view(ts: Seq<Token>) -> Seq<TokenV> {
    ts.map_values(|t: Token| t@)
}

/// A whitespace character (the Unicode white-space set).
pub open spec fn is_space(c: char) -> bool {
    let u = c as u32;
    ||| u == 9
    ||| u == 10
    ||| u == 11
    ||| u == 12
    ||| u == 13
    ||| u == 32
    ||| u == 0x85
    ||| u == 0xA0
    ||| u == 0x1680
    ||| (0x2000 <= u && u <= 0x200A)
    ||| u == 0x2028
    ||| u == 0x2029
    ||| u == 0x202F
    ||| u == 0x205F
    ||| u == 0x3000
}

/// A character that ends a word: a parenthesis or whitespace.
pub open spec fn is_delim(c: char) -> bool {
    c == '(' || c == ')' || is_space(c)
}

/// The length of the maximal word prefix of `s`.
pub open spec fn word_len(s: Seq<char>) -> int
    decreases s.len(),
{
    if s.len() == 0 || is_delim(s[0]) {
        0
    } else {
        1 + word_len(s.skip(1))
    }
}

proof fn lemma_word_len(s: Seq<char>)
    ensures
        0 <= word_len(s) <= s.len(),
    decreases s.len(),
{
    if s.len() > 0 && !is_delim(s[0]) {
        lemma_word_len(s.skip(1));
    }
}

/// `word_len` is characterized by its first delimiter.
proof fn lemma_word_len_exact(s: Seq<char>, m: int)
    requires
        0 <= m <= s.len(),
        forall|k: int| 0 <= k < m ==> !is_delim(s[k]),
        m < s.len() ==> is_delim(s[m]),
    ensures
        word_len(s) == m,
    decreases m,
{
    if m == 0 {
        assert(s.len() == 0 || is_delim(s[0]));
    } else {
        assert(!is_delim(s[0]));
        assert forall|k: int| 0 <= k < m - 1 implies !is_delim(s.skip(1)[k]) by {
            assert(s.skip(1)[k] == s[k + 1]);
        }
        assert(m - 1 < s.skip(1).len() ==> is_delim(s.skip(1)[m - 1]));
        lemma_word_len_exact(s.skip(1), m - 1);
    }
}

/// The token sequence of raw text: each parenthesis is its own token, words
/// are maximal non-delimiter runs, whitespace separates and is dropped.
pub open spec fn spec_tokenize(s: Seq<char>) -> Seq<TokenV>
    decreases s.len(),
    via spec_tokenize_dec
{
    if s.len() == 0 {
        Seq::empty()
    } else if s[0] == '(' {
        seq![TokenV::Open] + spec_tokenize(s.skip(1))
    } else if s[0] == ')' {
        seq![TokenV::Close] + spec_tokenize(s.skip(1))
    } else if is_space(s[0]) {
        spec_tokenize(s.skip(1))
    } else {
        seq![TokenV::Word(s.take(word_len(s)))] + spec_tokenize(s.skip(word_len(s)))
    }
}

#[via_fn]
proof fn spec_tokenize_dec(s: Seq<char>) {
    if s.len() > 0 && !is_delim(s[0]) {
        lemma_word_len(s.skip(1));
    }
}

fn is_space_char(c: char) -> (r: bool)
    ensures
        r == is_space(c),
{
    let u = c as u32;
    u == 9 || u == 10 || u == 11 || u == 12 || u == 13 || u == 32 || u == 0x85 || u == 0xA0 || u
        == 0x1680 || (0x2000 <= u && u <= 0x200A) || u == 0x2028 || u == 0x2029 || u == 0x202F || u
        == 0x205F || u == 0x3000
}

fn is_delim_char(c: char) -> (r: bool)
    ensures
        r == is_delim(c),
{
    c == '(' || c == ')' || is_space_char(c)
}

/// Splits raw text into its ordered token sequence. Never fails; empty input
/// gives an empty sequence.
pub fn tokenize(code: &str) -> (r: Vec<Token>)
    ensures
        tokens_view(r@) == spec_tokenize(code@),
{
    let n = code.unicode_len();
    let mut toks: Vec<Token> = Vec::new();
    let mut i: usize = 0;
    proof {
        assert(code@.skip(0) =~= code@);
        assert(tokens_view(toks@) =~= Seq::<TokenV>::empty());
        assert(tokens_view(toks@) + spec_tokenize(code@) =~= spec_tokenize(code@));
    }
    while i < n
        invariant
            0 <= i <= n,
            n == code@.len(),
            tokens_view(toks@) + spec_tokenize(code@.skip(i as int)) == spec_tokenize(code@),
        decreases n - i,
    {
        let ghost rest = code@.skip(i as int);
        proof {
            assert(rest[0] == code@[i as int]);
            assert(rest.skip(1) =~= code@.skip(i as int + 1));
        }
        let c = code.get_char(i);
        if c == '(' {
            toks.push(Token::Open);
            i += 1;
            proof {
                assert(tokens_view(toks@) =~= tokens_view(toks@.drop_last()) + seq![
                    TokenV::Open,
                ]);
                assert(tokens_view(toks@) + spec_tokenize(code@.skip(i as int)) =~= tokens_view(
                    toks@.drop_last(),
                ) + spec_tokenize(rest));
            }
        } else if c == ')' {
            toks.push(Token::Close);
            i += 1;
            proof {
                assert(tokens_view(toks@) =~= tokens_view(toks@.drop_last()) + seq![
                    TokenV::Close,
                ]);
                assert(tokens_view(toks@) + spec_tokenize(code@.skip(i as int)) =~= tokens_view(
                    toks@.drop_last(),
                ) + spec_tokenize(rest));
            }
        } else if is_space_char(c) {
            i += 1;
        } else {
            let mut j = i + 1;
            while j < n
                invariant
                    i < j <= n,
                    n == code@.len(),
                    forall|k: int| i < k < j ==> !is_delim(code@[k]),
                ensures
                    i < j <= n,
                    forall|k: int| i < k < j ==> !is_delim(code@[k]),
                    j == n || is_delim(code@[j as int]),
                decreases n - j,
            {
                if is_delim_char(code.get_char(j)) {
                    break ;
                }
                j += 1;
            }
            proof {
                assert forall|k: int| 0 <= k < j - i implies !is_delim(rest[k]) by {
                    assert(rest[k] == code@[i + k]);
                }
                assert(j - i < rest.len() ==> is_delim(rest[j - i]));
                lemma_word_len_exact(rest, j - i);
                assert(rest.take(j - i) =~= code@.subrange(i as int, j as int));
                assert(rest.skip(j - i) =~= code@.skip(j as int));
            }
            let w = code.substring_char(i, j);
            toks.push(Token::Word(w.to_owned()));
            proof {
                assert(tokens_view(toks@) =~= tokens_view(toks@.drop_last()) + seq![
                    TokenV::Word(rest.take(j - i)),
                ]);
                assert(tokens_view(toks@) + spec_tokenize(code@.skip(j as int)) =~= tokens_view(
                    toks@.drop_last(),
                ) + spec_tokenize(rest));
            }
            i = j;
        }
    }
    proof {
        assert(code@.skip(n as int) =~= Seq::<char>::empty());
        assert(tokens_view(toks@) + spec_tokenize(code@.skip(n as int)) =~= tokens_view(toks@));
    }
    toks
}

} // verus!
