//! Lexical layer: turns Flow source text into a stream of tokens.
//!
//! The token set is fixed by the grammar: identifier words, the section
//! colon, the path separator `::`, commas, square brackets, the three
//! multi-character marks `-<`, `>-` and `->`, and the caret.  Marks are
//! scanned by maximal munch over contiguous characters, so `>-->` yields
//! `>-` followed by `->` while `- >` fails to scan.

use vstd::prelude::*;

verus! {

/// True for the characters the lexer treats as blank space between tokens.
pub open spec fn is_space(c: char) -> bool {
    c == ' ' || c == '\n' || c == '\t' || c == '\r'
}

/// Whether a character may open an identifier word.
pub open spec fn is_word_start(c: char) -> bool {
    c == '_' || (97 <= c as u32 && c as u32 <= 122) || (65 <= c as u32 && c as u32 <= 90)
}

/// Whether a character may continue an identifier word.
pub open spec fn is_word_char(c: char) -> bool {
    is_word_start(c) || (48 <= c as u32 && c as u32 <= 57)
}

/// Mathematical model of one token.
pub enum TokM {
    /// An identifier word (also used for the keywords).
    Word(Seq<char>),
    /// `:` after a section keyword.
    Colon,
    /// `::` between the segments of a qualified identifier.
    PathSep,
    /// `,` between the items of a section.
    Comma,
    /// `[` opening a section body.
    OpenBracket,
    /// `]` closing a section body.
    CloseBracket,
    /// `-<` between the state and the resource of a reference.
    SubLt,
    /// `>-` after the source state of a transition.
    GtSub,
    /// `->` before the target state of a transition.
    RArrow,
    /// `^` between the two states of an overlay.
    Caret,
}

/// One token as the executable lexer and parser hold it.
#[derive(Debug)]
pub enum Tok {
    Word(String),
    Colon,
    PathSep,
    Comma,
    OpenBracket,
    CloseBracket,
    SubLt,
    GtSub,
    RArrow,
    Caret,
}

impl View for Tok {
    type V = TokM;

    open spec fn view(&self) -> TokM {
        match self {
            Tok::Word(s) => TokM::Word(s@),
            Tok::Colon => TokM::Colon,
            Tok::PathSep => TokM::PathSep,
            Tok::Comma => TokM::Comma,
            Tok::OpenBracket => TokM::OpenBracket,
            Tok::CloseBracket => TokM::CloseBracket,
            Tok::SubLt => TokM::SubLt,
            Tok::GtSub => TokM::GtSub,
            Tok::RArrow => TokM::RArrow,
            Tok::Caret => TokM::Caret,
        }
    }
}

/// The model of a token vector.
pub open spec fn toks_view(v: Seq<Tok>) -> Seq<TokM> {
    v.map_values(|t: Tok| t@)
}

/// A word the lexer can produce: non-empty, an opening character first,
/// word characters throughout.
pub open spec fn wf_word(w: Seq<char>) -> bool {
    &&& w.len() > 0
    &&& is_word_start(w[0])
    &&& forall|k: int| 0 <= k < w.len() ==> is_word_char(#[trigger] w[k])
}

/// Every word token of the stream is well formed.
pub open spec fn wf_tok(t: TokM) -> bool {
    match t {
        TokM::Word(w) => wf_word(w),
        _ => true,
    }
}

/// All tokens of the stream are well formed.
pub open spec fn wf_toks(ts: Seq<TokM>) -> bool {
    forall|k: int| 0 <= k < ts.len() ==> wf_tok(#[trigger] ts[k])
}

/// Length of the run of word characters starting at `i`.
pub open spec fn word_len_at(s: Seq<char>, i: int) -> int
    decreases s.len() - i when 0 <= i <= s.len()
{
    if i < s.len() && is_word_char(s[i]) {
        1 + word_len_at(s, i + 1)
    } else {
        0
    }
}

pub proof fn lemma_word_len_at(s: Seq<char>, i: int)
    requires
        0 <= i <= s.len(),
    ensures
        0 <= word_len_at(s, i),
        i + word_len_at(s, i) <= s.len(),
        forall|k: int| i <= k < i + word_len_at(s, i) ==> is_word_char(#[trigger] s[k]),
        i + word_len_at(s, i) == s.len() || !is_word_char(s[i + word_len_at(s, i)]),
    decreases s.len() - i,
{
    if i < s.len() && is_word_char(s[i]) {
        lemma_word_len_at(s, i + 1);
    }
}

/// Scans the single token that starts at position `i`, which must hold a
/// non-blank character.  Returns the token and the count of characters it
/// covers, or `None` when no token of the grammar starts there.
pub open spec fn scan_at(s: Seq<char>, i: int) -> Option<(TokM, int)> {
    let c = s[i];
    if is_word_start(c) {
        let n = word_len_at(s, i);
        Some((TokM::Word(s.subrange(i, i + n)), n))
    } else if c == ':' {
        if i + 1 < s.len() && s[i + 1] == ':' {
            Some((TokM::PathSep, 2))
        } else {
            Some((TokM::Colon, 1))
        }
    } else if c == ',' {
        Some((TokM::Comma, 1))
    } else if c == '[' {
        Some((TokM::OpenBracket, 1))
    } else if c == ']' {
        Some((TokM::CloseBracket, 1))
    } else if c == '^' {
        Some((TokM::Caret, 1))
    } else if c == '-' {
        if i + 1 < s.len() && s[i + 1] == '<' {
            Some((TokM::SubLt, 2))
        } else if i + 1 < s.len() && s[i + 1] == '>' {
            Some((TokM::RArrow, 2))
        } else {
            None
        }
    } else if c == '>' {
        if i + 1 < s.len() && s[i + 1] == '-' {
            Some((TokM::GtSub, 2))
        } else {
            None
        }
    } else {
        None
    }
}

pub proof fn lemma_scan_at(s: Seq<char>, i: int)
    requires
        0 <= i < s.len(),
    ensures
        scan_at(s, i) matches Some(r) ==> 1 <= r.1 && i + r.1 <= s.len() && wf_tok(r.0),
{
    if is_word_start(s[i]) {
        lemma_word_len_at(s, i);
        let n = word_len_at(s, i);
        assert(n >= 1);
        let w = s.subrange(i, i + n);
        assert(forall|k: int| 0 <= k < w.len() ==> is_word_char(#[trigger] w[k]));
    }
}

/// Tokenization of the suffix of `s` that starts at `i`.  `Err(p)` names
/// the position of the first character at which no token can be scanned.
pub open spec fn lex_from(s: Seq<char>, i: int) -> Result<Seq<TokM>, int>
    decreases s.len() - i when 0 <= i <= s.len()
{
    if i >= s.len() {
        Ok(Seq::empty())
    } else if is_space(s[i]) {
        lex_from(s, i + 1)
    } else {
        proof {
            lemma_scan_at(s, i);
        }
        match scan_at(s, i) {
            None => Err(i),
            Some((t, n)) => match lex_from(s, i + n) {
                Err(p) => Err(p),
                Ok(ts) => Ok(seq![t] + ts),
            },
        }
    }
}

/// Tokenization of a whole document.
pub open spec fn lex_of(s: Seq<char>) -> Result<Seq<TokM>, int> {
    lex_from(s, 0)
}

pub proof fn lemma_lex_from_wf(s: Seq<char>, i: int)
    requires
        0 <= i <= s.len(),
    ensures
        lex_from(s, i) matches Ok(ts) ==> wf_toks(ts),
        lex_from(s, i) matches Err(p) ==> 0 <= p < s.len(),
    decreases s.len() - i,
{
    if i >= s.len() {
    } else if is_space(s[i]) {
        lemma_lex_from_wf(s, i + 1);
    } else {
        lemma_scan_at(s, i);
        match scan_at(s, i) {
            None => {},
            Some((t, n)) => {
                lemma_lex_from_wf(s, i + n);
                if let Ok(ts) = lex_from(s, i + n) {
                    assert(wf_toks(seq![t] + ts)) by {
                        let whole = seq![t] + ts;
                        assert(forall|k: int| 0 <= k < whole.len() ==> wf_tok(#[trigger] whole[k])) by {
                            assert(whole[0] == t);
                            assert(forall|k: int| 1 <= k < whole.len() ==> #[trigger] whole[k] == ts[k - 1]);
                        }
                    }
                }
            },
        }
    }
}

/// The loop of the executable lexer keeps this relation with the model:
/// what is already lexed, joined with the model of the rest, is the model
/// of the whole.
pub open spec fn lex_loop_inv(s: Seq<char>, i: int, done: Seq<TokM>) -> bool {
    match lex_from(s, i) {
        Ok(rest) => lex_from(s, 0) == Ok::<Seq<TokM>, int>(done + rest),
        Err(p) => lex_from(s, 0) == Err::<Seq<TokM>, int>(p),
    }
}

fn space_char(c: char) -> (r: bool)
    ensures
        r == is_space(c),
{
    c == ' ' || c == '\n' || c == '\t' || c == '\r'
}

fn word_start_char(c: char) -> (r: bool)
    ensures
        r == is_word_start(c),
{
    c == '_' || (97 <= c as u32 && c as u32 <= 122) || (65 <= c as u32 && c as u32 <= 90)
}

fn word_char(c: char) -> (r: bool)
    ensures
        r == is_word_char(c),
{
    word_start_char(c) || (48 <= c as u32 && c as u32 <= 57)
}

/// Scans the token at position `i`; mirrors `scan_at`.
fn scan(s: &str, i: usize, n: usize) -> (r: Option<(Tok, usize)>)
    requires
        n == s@.len(),
        i < n,
        !is_space(s@[i as int]),
    ensures
        match (r, scan_at(s@, i as int)) {
            (Some((t, k)), Some((tm, km))) => t@ == tm && k as int == km && 1 <= k && i + k <= n,
            (None, None) => true,
            _ => false,
        },
{
    proof {
        lemma_scan_at(s@, i as int);
    }
    let c = s.get_char(i);
    if word_start_char(c) {
        let mut j: usize = i + 1;
        proof {
            lemma_word_len_at(s@, i as int);
        }
        while j < n && word_char(s.get_char(j))
            invariant
                n == s@.len(),
                i < j <= n,
                word_len_at(s@, i as int) == j - i + word_len_at(s@, j as int),
            decreases n - j,
        {
            j = j + 1;
        }
        assert(word_len_at(s@, j as int) == 0);
        let w = s.substring_char(i, j).to_owned();
        assert(w@ == s@.subrange(i as int, i as int + word_len_at(s@, i as int)));
        Some((Tok::Word(w), j - i))
    } else if c == ':' {
        if i + 1 < n && s.get_char(i + 1) == ':' {
            Some((Tok::PathSep, 2))
        } else {
            Some((Tok::Colon, 1))
        }
    } else if c == ',' {
        Some((Tok::Comma, 1))
    } else if c == '[' {
        Some((Tok::OpenBracket, 1))
    } else if c == ']' {
        Some((Tok::CloseBracket, 1))
    } else if c == '^' {
        Some((Tok::Caret, 1))
    } else if c == '-' {
        if i + 1 < n && s.get_char(i + 1) == '<' {
            Some((Tok::SubLt, 2))
        } else if i + 1 < n && s.get_char(i + 1) == '>' {
            Some((Tok::RArrow, 2))
        } else {
            None
        }
    } else if c == '>' {
        if i + 1 < n && s.get_char(i + 1) == '-' {
            Some((Tok::GtSub, 2))
        } else {
            None
        }
    } else {
        None
    }
}

/// Tokenizes a document.  `Err(p)` gives the character position at which
/// no token of the grammar can be scanned.
pub fn lex(s: &str) -> (r: Result<Vec<Tok>, usize>)
    ensures
        match (r, lex_of(s@)) {
            (Ok(v), Ok(m)) => toks_view(v@) == m && wf_toks(m),
            (Err(p), Err(q)) => p as int == q,
            _ => false,
        },
{
    let n = s.unicode_len();
    let mut toks: Vec<Tok> = Vec::new();
    let mut i: usize = 0;
    while i < n
        invariant
            n == s@.len(),
            i <= n,
            lex_loop_inv(s@, i as int, toks_view(toks@)),
        decreases n - i,
    {
        let c = s.get_char(i);
        if space_char(c) {
            i = i + 1;
        } else {
            match scan(s, i, n) {
                None => {
                    proof {
                        assert(lex_from(s@, i as int) == Err::<Seq<TokM>, int>(i as int));
                    }
                    return Err(i);
                },
                Some((t, k)) => {
                    proof {
                        let done = toks_view(toks@);
                        let tm = t@;
                        match lex_from(s@, i as int + k as int) {
                            Ok(rest) => {
                                assert(lex_from(s@, i as int) == Ok::<Seq<TokM>, int>(
                                    seq![tm] + rest,
                                ));
                                assert(done + (seq![tm] + rest) =~= (done + seq![tm]) + rest);
                                assert(toks_view(toks@.push(t)) =~= done + seq![tm]);
                            },
                            Err(_) => {
                                assert(toks_view(toks@.push(t)) =~= done + seq![tm]);
                            },
                        }
                    }
                    toks.push(t);
                    i = i + k;
                },
            }
        }
    }
    proof {
        assert(lex_from(s@, i as int) == Ok::<Seq<TokM>, int>(Seq::<TokM>::empty()));
        assert(toks_view(toks@) + Seq::<TokM>::empty() =~= toks_view(toks@));
        lemma_lex_from_wf(s@, 0);
    }
    Ok(toks)
}

} // verus!
