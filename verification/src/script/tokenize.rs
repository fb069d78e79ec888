use vstd::prelude::*;

use crate::script::parse::{tokens_view, HoldStr, HoldStrV, HoldUsize, Token, TokenV};
use crate::text::{
    chars_of, chars_range, is_alphabetic, is_ascii_alphabetic, is_ascii_digit, is_whitespace,
    spec_is_ascii_alphabetic, spec_is_ascii_digit, string_of, unicode_alphabetic,
    spec_is_whitespace,
};

verus! {

/// The kind of a character, by which the tokenizer groups characters.
#[derive(Debug, PartialEq, Eq, Clone, Copy, Structural)]
pub enum TokenKind {
    BraceL,
    BraceR,
    BracketL,
    BracketR,
    ParenL,
    ParenR,
    QuoteDouble,
    QuoteSingle,
    Period,
    Comma,
    Colon,
    Semicolon,
    Linebreak,
    Octothorpe,
    Hyphen,
    Equal,
    Tilda,
    LessThan,
    QuestionMark,
    Tab,
    AsciiSpace,
    AsciiAlpha,
    AsciiDigit,
    Alpha,
    Space,
    Else,
}

/// The kind of a character: its punctuation kind, else an ASCII digit, an
/// ASCII letter, another alphabetic character, other whitespace, or else.
pub open spec fn char_kind(c: char) -> TokenKind {
    if c == ' ' {
        TokenKind::AsciiSpace
    } else if c == '[' {
        TokenKind::BracketL
    } else if c == ']' {
        TokenKind::BracketR
    } else if c == '(' {
        TokenKind::ParenL
    } else if c == ')' {
        TokenKind::ParenR
    } else if c == '{' {
        TokenKind::BraceL
    } else if c == '}' {
        TokenKind::BraceR
    } else if c == '.' {
        TokenKind::Period
    } else if c == ',' {
        TokenKind::Comma
    } else if c == ':' {
        TokenKind::Colon
    } else if c == ';' {
        TokenKind::Semicolon
    } else if c == '\t' {
        TokenKind::Tab
    } else if c == '\n' {
        TokenKind::Linebreak
    } else if c == '\'' {
        TokenKind::QuoteSingle
    } else if c == '"' {
        TokenKind::QuoteDouble
    } else if c == '#' {
        TokenKind::Octothorpe
    } else if c == '-' {
        TokenKind::Hyphen
    } else if c == '=' {
        TokenKind::Equal
    } else if c == '~' {
        TokenKind::Tilda
    } else if c == '<' {
        TokenKind::LessThan
    } else if c == '?' {
        TokenKind::QuestionMark
    } else if spec_is_ascii_digit(c) {
        TokenKind::AsciiDigit
    } else if spec_is_ascii_alphabetic(c) {
        TokenKind::AsciiAlpha
    } else if unicode_alphabetic(c) {
        TokenKind::Alpha
    } else if spec_is_whitespace(c) {
        TokenKind::Space
    } else {
        TokenKind::Else
    }
}

impl TokenKind {
    /// The kind of a character; never an error.
    pub fn try_from(value: char) -> (r: Result<TokenKind, String>)
        ensures
            r == Ok::<TokenKind, String>(char_kind(value)),
    {
        match value {
            ' ' => Ok(TokenKind::AsciiSpace),
            '[' => Ok(TokenKind::BracketL),
            ']' => Ok(TokenKind::BracketR),
            '(' => Ok(TokenKind::ParenL),
            ')' => Ok(TokenKind::ParenR),
            '{' => Ok(TokenKind::BraceL),
            '}' => Ok(TokenKind::BraceR),
            '.' => Ok(TokenKind::Period),
            ',' => Ok(TokenKind::Comma),
            ':' => Ok(TokenKind::Colon),
            ';' => Ok(TokenKind::Semicolon),
            '\t' => Ok(TokenKind::Tab),
            '\n' => Ok(TokenKind::Linebreak),
            '\'' => Ok(TokenKind::QuoteSingle),
            '"' => Ok(TokenKind::QuoteDouble),
            '#' => Ok(TokenKind::Octothorpe),
            '-' => Ok(TokenKind::Hyphen),
            '=' => Ok(TokenKind::Equal),
            '~' => Ok(TokenKind::Tilda),
            '<' => Ok(TokenKind::LessThan),
            '?' => Ok(TokenKind::QuestionMark),
            c => if is_ascii_digit(c) {
                Ok(TokenKind::AsciiDigit)
            } else if is_ascii_alphabetic(c) {
                Ok(TokenKind::AsciiAlpha)
            } else if is_alphabetic(c) {
                Ok(TokenKind::Alpha)
            } else if is_whitespace(c) {
                Ok(TokenKind::Space)
            } else {
                Ok(TokenKind::Else)
            },
        }
    }
}

fn kind_of(c: char) -> (k: TokenKind)
    ensures
        k == char_kind(c),
{
    match TokenKind::try_from(c) {
        Ok(k) => k,
        Err(_) => TokenKind::Else,
    }
}

/// Length of the longest prefix of `s` whose characters are of kind `k`.
pub open spec fn kind_run_len(s: Seq<char>, k: TokenKind) -> nat
    decreases s.len(),
{
    if s.len() > 0 && char_kind(s[0]) == k {
        1 + kind_run_len(s.drop_first(), k)
    } else {
        0
    }
}

pub proof fn lemma_kind_run_len(s: Seq<char>, k: TokenKind)
    ensures
        kind_run_len(s, k) <= s.len(),
        forall|i: int| 0 <= i < kind_run_len(s, k) ==> char_kind(#[trigger] s[i]) == k,
        kind_run_len(s, k) < s.len() ==> char_kind(s[kind_run_len(s, k) as int]) != k,
    decreases s.len(),
{
    if s.len() > 0 && char_kind(s[0]) == k {
        lemma_kind_run_len(s.drop_first(), k);
        assert forall|i: int| 0 <= i < kind_run_len(s, k) implies char_kind(#[trigger] s[i]) == k by {
            if i > 0 {
                assert(s[i] == s.drop_first()[i - 1]);
            }
        }
    }
}

/// The maximal runs of characters of one kind, in order.
pub open spec fn kind_runs(s: Seq<char>) -> Seq<Seq<char>>
    decreases s.len(),
{
    if s.len() == 0 {
        seq![]
    } else {
        let r = kind_run_len(s, char_kind(s[0]));
        proof {
            lemma_kind_run_len(s, char_kind(s[0]));
        }
        seq![s.take(r as int)] + kind_runs(s.skip(r as int))
    }
}

/// Law: the runs are never empty, every character of a run is of the run's
/// kind, two neighbouring runs differ in kind, and the runs laid end to end
/// give back the text.
pub proof fn lemma_kind_runs(s: Seq<char>)
    ensures
        kind_runs(s).flatten() == s,
        forall|i: int| 0 <= i < kind_runs(s).len() ==> kind_runs(s)[i].len() > 0,
        forall|i: int, j: int|
            0 <= i < kind_runs(s).len() && 0 <= j < kind_runs(s)[i].len() ==> char_kind(
                #[trigger] kind_runs(s)[i][j],
            ) == char_kind(kind_runs(s)[i][0]),
        forall|i: int, j: int|
            0 <= i && j == i + 1 && j < kind_runs(s).len() ==> char_kind(
                #[trigger] kind_runs(s)[j][0],
            ) != char_kind(#[trigger] kind_runs(s)[i][0]),
    decreases s.len(),
{
    if s.len() > 0 {
        let k = char_kind(s[0]);
        let r = kind_run_len(s, k) as int;
        lemma_kind_run_len(s, k);
        let head = s.take(r);
        let tail = s.skip(r);
        lemma_kind_runs(tail);
        let runs = kind_runs(s);
        assert(runs == seq![head] + kind_runs(tail));
        assert((seq![head] + kind_runs(tail)).drop_first() =~= kind_runs(tail));
        assert(runs.flatten() == head + kind_runs(tail).flatten());
        assert(head + tail =~= s);
        assert forall|i: int, j: int|
            0 <= i < runs.len() && 0 <= j < runs[i].len() implies char_kind(#[trigger] runs[i][j]) == char_kind(
            runs[i][0],
        ) by {
            if i == 0 {
                assert(runs[0][j] == s[j]);
                assert(runs[0][0] == s[0]);
            } else {
                assert(runs[i] == kind_runs(tail)[i - 1]);
            }
        }
        assert forall|i: int, j: int| 0 <= i && j == i + 1 && j < runs.len() implies char_kind(
            #[trigger] runs[j][0],
        ) != char_kind(#[trigger] runs[i][0]) by {
            if i == 0 {
                assert(runs[1] == kind_runs(tail)[0]);
                assert(kind_runs(tail).len() > 0);
                if tail.len() == 0 {
                    assert(kind_runs(tail).len() == 0);
                }
                lemma_kind_runs_first(tail);
                assert(tail[0] == s[r]);
                assert(runs[0][0] == s[0]);
            } else {
                assert(runs[i] == kind_runs(tail)[i - 1]);
                assert(runs[i + 1] == kind_runs(tail)[i]);
            }
        }
        assert forall|i: int| 0 <= i < runs.len() implies runs[i].len() > 0 by {
            if i > 0 {
                assert(runs[i] == kind_runs(tail)[i - 1]);
            }
        }
    } else {
        assert(kind_runs(s).flatten() =~= s);
    }
}

/// The punctuation, spacing and bracket characters that the tokenizer tells
/// apart one by one.
pub open spec fn is_punctuation(c: char) -> bool {
    c == ' ' || c == '[' || c == ']' || c == '(' || c == ')' || c == '{' || c == '}' || c == '.'
        || c == ',' || c == ':' || c == ';' || c == '\t' || c == '\n' || c == '\'' || c == '"'
        || c == '#' || c == '-' || c == '=' || c == '~' || c == '<' || c == '?'
}

/// Law: two different punctuation characters are never of the same kind, so
/// an opening bracket and a closing bracket never share a run.
pub proof fn lemma_punctuation_kinds(a: char, b: char)
    requires
        is_punctuation(a),
        is_punctuation(b),
        a != b,
    ensures
        char_kind(a) != char_kind(b),
{
}

/// Law: in a text of punctuation characters where no two neighbours are the
/// same character, every character is a run, and so a token, of its own.
pub proof fn lemma_punctuation_tokens(s: Seq<char>)
    requires
        forall|i: int| 0 <= i < s.len() ==> is_punctuation(#[trigger] s[i]),
        forall|i: int, j: int| 0 <= i && j == i + 1 && j < s.len() ==> #[trigger] s[i] != #[trigger] s[j],
    ensures
        kind_runs(s).len() == s.len(),
        forall|i: int| 0 <= i < s.len() ==> #[trigger] kind_runs(s)[i] == seq![s[i]],
        tokenize(s).len() == s.len(),
    decreases s.len(),
{
    if s.len() > 0 {
        let k = char_kind(s[0]);
        let t = s.skip(1);
        assert forall|i: int| 0 <= i < t.len() implies is_punctuation(#[trigger] t[i]) by {
            assert(t[i] == s[i + 1]);
        }
        assert forall|i: int, j: int| 0 <= i && j == i + 1 && j < t.len() implies #[trigger] t[i]
            != #[trigger] t[j] by {
            assert(t[i] == s[i + 1]);
            assert(t[j] == s[j + 1]);
        }
        lemma_punctuation_tokens(t);
        assert(s.drop_first() =~= t);
        if s.len() > 1 {
            assert(s[0] != s[1]);
            lemma_punctuation_kinds(s[0], s[1]);
            assert(t[0] == s[1]);
        }
        assert(kind_run_len(t, k) == 0);
        assert(kind_run_len(s, k) == 1);
        assert(s.take(1) =~= seq![s[0]]);
        let runs = kind_runs(s);
        assert(runs == seq![s.take(1)] + kind_runs(t));
        assert forall|i: int| 0 <= i < s.len() implies #[trigger] runs[i] == seq![s[i]] by {
            if i > 0 {
                assert(runs[i] == kind_runs(t)[i - 1]);
                assert(t[i - 1] == s[i]);
            }
        }
    }
}

proof fn lemma_kind_runs_first(s: Seq<char>)
    requires
        s.len() > 0,
    ensures
        kind_runs(s).len() > 0,
        kind_runs(s)[0][0] == s[0],
{
    let k = char_kind(s[0]);
    lemma_kind_run_len(s, k);
    assert(kind_run_len(s, k) > 0);
}

/// The token that a run of characters of kind `k` becomes: numbers, ASCII
/// words and other alphabetic words keep their text, a run of spaces its
/// length, and every other run is `Else`.
pub open spec fn token_of(k: TokenKind, run: Seq<char>) -> TokenV {
    match k {
        TokenKind::AsciiDigit => TokenV::HoldStr(HoldStrV::Numeric(run)),
        TokenKind::AsciiAlpha => TokenV::HoldStr(HoldStrV::AsciiAlpha(run)),
        TokenKind::Alpha => TokenV::HoldStr(HoldStrV::NonAsciiNonWhite(run)),
        TokenKind::AsciiSpace => TokenV::HoldUsize(HoldUsize::Spaces(run.len() as usize)),
        _ => TokenV::Else,
    }
}

/// The tokens of a text: one per maximal run of characters of one kind.
pub open spec fn tokenize(s: Seq<char>) -> Seq<TokenV> {
    kind_runs(s).map_values(|r: Seq<char>| token_of(char_kind(r[0]), r))
}

fn kind_to_token(k: TokenKind, s: &Vec<char>) -> (t: Token)
    ensures
        t@ == token_of(k, s@),
{
    match k {
        TokenKind::AsciiDigit => Token::HoldStr(HoldStr::Numeric(string_of(s))),
        TokenKind::AsciiAlpha => Token::HoldStr(HoldStr::AsciiAlpha(string_of(s))),
        TokenKind::Alpha => Token::HoldStr(HoldStr::NonAsciiNonWhite(string_of(s))),
        TokenKind::AsciiSpace => Token::HoldUsize(HoldUsize::Spaces(s.len())),
        _ => Token::Else,
    }
}

/// Splits the input into maximal runs of characters of one kind and turns
/// each run into a token.
pub fn tokenizer(input: &str) -> (res: Vec<Token>)
    ensures
        tokens_view(res@) == tokenize(input@),
{
    let cs = chars_of(input);
    let ghost s = cs@;
    let mut out: Vec<Token> = Vec::new();
    let mut i: usize = 0;
    assert(s.skip(0) =~= s);
    assert(tokens_view(out@) + tokenize(s) =~= tokenize(s));
    while i < cs.len()
        invariant
            i <= cs.len(),
            s == cs@,
            s == input@,
            tokenize(s) == tokens_view(out@) + tokenize(s.skip(i as int)),
        decreases cs.len() - i,
    {
        let k = kind_of(cs[i]);
        let mut j = i + 1;
        let ghost t = s.skip(i as int);
        assert(t[0] == s[i as int]);
        assert(t.drop_first() =~= s.skip(i + 1));
        while j < cs.len() && kind_of(cs[j]) == k
            invariant
                i < j <= cs.len(),
                s == cs@,
                t == s.skip(i as int),
                k == char_kind(t[0]),
                kind_run_len(t, k) == (j - i) + kind_run_len(s.skip(j as int), k),
            decreases cs.len() - j,
        {
            assert(s.skip(j as int)[0] == s[j as int]);
            assert(s.skip(j as int).drop_first() =~= s.skip(j + 1));
            j = j + 1;
        }
        proof {
            if j < cs.len() {
                assert(s.skip(j as int)[0] == s[j as int]);
            }
        }
        let run = chars_range(&cs, i, j);
        let tok = kind_to_token(k, &run);
        proof {
            assert(kind_run_len(t, k) == j - i);
            assert(t.take(j - i) =~= run@);
            assert(t.skip(j - i) =~= s.skip(j as int));
            assert(run@[0] == t[0]);
        }
        let ghost before = tokens_view(out@);
        out.push(tok);
        assert(tokens_view(out@) =~= before.push(tok@));
        assert(tokenize(t) =~= seq![tok@] + tokenize(s.skip(j as int)));
        assert(tokenize(s) =~= tokens_view(out@) + tokenize(s.skip(j as int)));
        i = j;
    }
    assert(s.skip(i as int) =~= Seq::<char>::empty());
    assert(tokens_view(out@) + Seq::<TokenV>::empty() =~= tokens_view(out@));
    out
}

} // verus!
