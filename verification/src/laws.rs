//! The round-trip laws of the library.
//!
//! The chain has three links: the lexer recovers the token sequence that
//! the renderer wrote; the parser recovers the tree those tokens render;
//! the canonical mirror recovers each identifier from its stored text.
//! The public lemmas at the end of the file state the laws in terms of
//! the library's specification functions.

use vstd::prelude::*;
use crate::token::{TokM, wf_word, wf_tok, wf_toks, is_space, is_word_start, is_word_char};
use crate::token::{word_len_at, scan_at, lex_from, lex_of, lemma_scan_at, lemma_word_len_at};
use crate::ast::{IdentV, wf_segment, wf_ident};
use crate::ast::{ReferenceV, TransitionV, OverlayV, FlowV};
use crate::ast::{wf_reference, wf_transition, wf_overlay};
use crate::parse::{parse_segs, parse_reference_at, parse_transition_at, parse_overlay_at};
use crate::parse::{parse_path_list, parse_ref_list, parse_tr_list, parse_ov_list};
use crate::parse::{parse_sections, parse_flow, parse_doc, finish_sections, empty_slots};
use crate::parse::{SlotsV, SectionKw, ParseError, GrammarKind, g_err, lemma_parse_doc_wf};
use crate::render::{tok_text, text_from, text_of_toks, toks_of_ident_from, toks_of_ident};
use crate::render::{toks_of_reference, toks_of_transition, toks_of_overlay};
use crate::render::{toks_of_path_items, toks_of_ref_items, toks_of_tr_items, toks_of_ov_items};
use crate::render::{toks_of_section, toks_of_flow, flow_text, ident_text_from, ident_text};

verus! {

/// Tokenization looks only at the suffix: two positions with the same
/// remaining characters lex alike, error positions shifted accordingly.
pub proof fn lemma_word_len_shift(s1: Seq<char>, i1: int, s2: Seq<char>, i2: int)
    requires
        0 <= i1 <= s1.len(),
        0 <= i2 <= s2.len(),
        s1.skip(i1) == s2.skip(i2),
    ensures
        word_len_at(s1, i1) == word_len_at(s2, i2),
    decreases s1.len() - i1,
{
    assert(s1.skip(i1).len() == s1.len() - i1);
    assert(s2.skip(i2).len() == s2.len() - i2);
    if i1 < s1.len() {
        assert(s1[i1] == s1.skip(i1)[0]);
        assert(s2[i2] == s2.skip(i2)[0]);
        if is_word_char(s1[i1]) {
            assert(s1.skip(i1 + 1) =~= s2.skip(i2 + 1)) by {
                assert(forall|d: int|
                    0 <= d < s1.len() - i1 - 1 ==> #[trigger] s1.skip(i1 + 1)[d] == s1.skip(i1)[d
                        + 1] && #[trigger] s2.skip(i2 + 1)[d] == s2.skip(i2)[d + 1]);
            }
            lemma_word_len_shift(s1, i1 + 1, s2, i2 + 1);
        }
    }
}

/// Scanning looks only at the suffix.
pub proof fn lemma_scan_shift(s1: Seq<char>, i1: int, s2: Seq<char>, i2: int)
    requires
        0 <= i1 < s1.len(),
        0 <= i2 < s2.len(),
        s1.skip(i1) == s2.skip(i2),
    ensures
        match (scan_at(s1, i1), scan_at(s2, i2)) {
            (Option::Some((t1, n1)), Option::Some((t2, n2))) => t1 == t2 && n1 == n2,
            (Option::None, Option::None) => true,
            _ => false,
        },
{
    assert(s1.skip(i1).len() == s1.len() - i1);
    assert(s2.skip(i2).len() == s2.len() - i2);
    assert(s1[i1] == s1.skip(i1)[0]);
    assert(s2[i2] == s2.skip(i2)[0]);
    if i1 + 1 < s1.len() {
        assert(s1[i1 + 1] == s1.skip(i1)[1]);
        assert(s2[i2 + 1] == s2.skip(i2)[1]);
    }
    if is_word_start(s1[i1]) {
        lemma_word_len_shift(s1, i1, s2, i2);
        let n = word_len_at(s1, i1);
        lemma_word_len_at(s1, i1);
        lemma_word_len_at(s2, i2);
        assert(s1.subrange(i1, i1 + n) =~= s2.subrange(i2, i2 + n)) by {
            assert(forall|d: int|
                0 <= d < n ==> #[trigger] s1.subrange(i1, i1 + n)[d] == s1.skip(i1)[d]
                    && #[trigger] s2.subrange(i2, i2 + n)[d] == s2.skip(i2)[d]);
        }
    }
}

/// Tokenization as a whole looks only at the suffix; an error position
/// shifts with the starting point.
pub proof fn lemma_lex_shift(s1: Seq<char>, i1: int, s2: Seq<char>, i2: int)
    requires
        0 <= i1 <= s1.len(),
        0 <= i2 <= s2.len(),
        s1.skip(i1) == s2.skip(i2),
    ensures
        match (lex_from(s1, i1), lex_from(s2, i2)) {
            (Ok(a), Ok(b)) => a == b,
            (Err(p), Err(q)) => p - i1 == q - i2,
            _ => false,
        },
    decreases s1.len() - i1,
{
    assert(s1.skip(i1).len() == s1.len() - i1);
    assert(s2.skip(i2).len() == s2.len() - i2);
    if i1 >= s1.len() {
    } else {
        assert(s1[i1] == s1.skip(i1)[0]);
        assert(s2[i2] == s2.skip(i2)[0]);
        if is_space(s1[i1]) {
            assert(s1.skip(i1 + 1) =~= s2.skip(i2 + 1)) by {
                assert(forall|d: int|
                    0 <= d < s1.len() - i1 - 1 ==> #[trigger] s1.skip(i1 + 1)[d] == s1.skip(i1)[d
                        + 1] && #[trigger] s2.skip(i2 + 1)[d] == s2.skip(i2)[d + 1]);
            }
            lemma_lex_shift(s1, i1 + 1, s2, i2 + 1);
        } else {
            lemma_scan_shift(s1, i1, s2, i2);
            lemma_scan_at(s1, i1);
            lemma_scan_at(s2, i2);
            match scan_at(s1, i1) {
                Option::None => {},
                Option::Some((t, n)) => {
                    assert(s1.skip(i1 + n) =~= s2.skip(i2 + n)) by {
                        assert(forall|d: int|
                            0 <= d < s1.len() - i1 - n ==> #[trigger] s1.skip(i1 + n)[d]
                                == s1.skip(i1)[d + n] && #[trigger] s2.skip(i2 + n)[d]
                                == s2.skip(i2)[d + n]);
                    }
                    lemma_lex_shift(s1, i1 + n, s2, i2 + n);
                },
            }
        }
    }
}

/// A run of `n` word characters, stopped by the end or a non-word
/// character, has word length exactly `n`.
pub proof fn lemma_word_len_concrete(s: Seq<char>, i: int, n: int)
    requires
        0 <= i,
        0 <= n,
        i + n <= s.len(),
        forall|d: int| 0 <= d < n ==> is_word_char(#[trigger] s[i + d]),
        i + n == s.len() || !is_word_char(s[i + n]),
    ensures
        word_len_at(s, i) == n,
    decreases n,
{
    if n == 0 {
    } else {
        assert(is_word_char(s[i + 0]));
        assert(forall|d: int| 0 <= d < n - 1 ==> is_word_char(#[trigger] s[i + 1 + d])) by {
            assert(forall|d: int| 0 <= d < n - 1 ==> #[trigger] s[i + 1 + d] == s[i + (d + 1)]);
        }
        lemma_word_len_concrete(s, i + 1, n - 1);
    }
}

/// The text of one well-formed token, followed by a blank, scans to
/// exactly that token.
pub proof fn lemma_scan_prefix(t: TokM, rest: Seq<char>)
    requires
        wf_tok(t),
        rest.len() > 0,
        rest[0] == ' ',
    ensures
        crate::render::tok_text(t).len() >= 1,
        !is_space((crate::render::tok_text(t) + rest)[0]),
        scan_at(crate::render::tok_text(t) + rest, 0) == Option::Some(
            (t, crate::render::tok_text(t).len() as int),
        ),
{
    let u = crate::render::tok_text(t);
    let s = u + rest;
    assert(forall|d: int| 0 <= d < u.len() ==> s[d] == u[d]);
    assert(s[u.len() as int] == rest[0]);
    match t {
        TokM::Word(w) => {
            let n = w.len() as int;
            assert(forall|d: int| 0 <= d < n ==> is_word_char(#[trigger] s[0 + d]));
            assert(!is_word_char(s[0 + n]));
            lemma_word_len_concrete(s, 0, n);
            assert(s.subrange(0, n) =~= w);
        },
        _ => {},
    }
}

/// The rendered text of a well-formed token sequence, from any index on,
/// lexes back to exactly those tokens.
pub proof fn lemma_lex_text_from(ts: Seq<TokM>, k: int)
    requires
        wf_toks(ts),
        0 <= k <= ts.len(),
    ensures
        lex_from(crate::render::text_from(ts, k), 0) == Ok::<Seq<TokM>, int>(ts.skip(k)),
    decreases ts.len() - k,
{
    let txt = crate::render::text_from(ts, k);
    if k >= ts.len() {
        assert(ts.skip(k) =~= Seq::<TokM>::empty());
    } else {
        let t = ts[k];
        assert(wf_tok(t));
        let u = crate::render::tok_text(t);
        let n = u.len() as int;
        let rest = seq![' '] + crate::render::text_from(ts, k + 1);
        assert(rest[0] == ' ');
        assert(txt =~= u + rest);
        lemma_scan_prefix(t, rest);
        assert(scan_at(txt, 0) == Option::Some((t, n)));
        assert(!is_space(txt[0]));
        // after the token there is the blank, which the lexer skips
        assert(txt[n] == rest[0]);
        assert(txt.skip(n + 1) =~= crate::render::text_from(ts, k + 1)) by {
            assert(forall|d: int|
                0 <= d < txt.len() - n - 1 ==> #[trigger] txt.skip(n + 1)[d] == txt[n + 1 + d]
                    && txt[n + 1 + d] == rest[1 + d]);
            assert(forall|d: int|
                0 <= d < rest.len() - 1 ==> rest[1 + d] == #[trigger] crate::render::text_from(
                    ts,
                    k + 1,
                )[d]);
        }
        lemma_lex_text_from(ts, k + 1);
        assert(crate::render::text_from(ts, k + 1).skip(0) =~= crate::render::text_from(
            ts,
            k + 1,
        ));
        lemma_lex_shift(txt, n + 1, crate::render::text_from(ts, k + 1), 0);
        assert(lex_from(txt, n + 1) == Ok::<Seq<TokM>, int>(ts.skip(k + 1)));
        assert(lex_from(txt, n) == lex_from(txt, n + 1));
        assert(lex_from(txt, 0) == Ok::<Seq<TokM>, int>(seq![t] + ts.skip(k + 1)));
        assert(seq![t] + ts.skip(k + 1) =~= ts.skip(k));
    }
}

/// The rendered text of a well-formed token sequence lexes back to it.
pub proof fn lemma_lex_text(ts: Seq<TokM>)
    requires
        wf_toks(ts),
    ensures
        lex_of(crate::render::text_of_toks(ts)) == Ok::<Seq<TokM>, int>(ts),
{
    lemma_lex_text_from(ts, 0);
    assert(ts.skip(0) =~= ts);
}

/// Every token of a well-formed identifier's rendering is well formed.
pub proof fn lemma_toks_of_ident_wf(p: IdentV, k: int)
    requires
        wf_ident(p),
        0 <= k <= p.len(),
    ensures
        wf_toks(crate::render::toks_of_ident_from(p, k)),
    decreases p.len() - k,
{
    let r = crate::render::toks_of_ident_from(p, k);
    if k >= p.len() {
    } else if k + 1 == p.len() {
        assert(wf_segment(p[k]));
        assert(forall|m: int| 0 <= m < r.len() ==> wf_tok(#[trigger] r[m]));
    } else {
        lemma_toks_of_ident_wf(p, k + 1);
        let rest = crate::render::toks_of_ident_from(p, k + 1);
        assert(wf_segment(p[k]));
        assert(forall|m: int| 0 <= m < r.len() ==> wf_tok(#[trigger] r[m])) by {
            assert(r[0] == TokM::Word(p[k]));
            assert(r[1] == TokM::PathSep);
            assert(forall|m: int| 2 <= m < r.len() ==> #[trigger] r[m] == rest[m - 2]);
        }
    }
}

/// The plain `::`-joined text of a well-formed identifier lexes to the
/// identifier's tokens.
pub proof fn lemma_lex_ident_text(p: IdentV, k: int)
    requires
        wf_ident(p),
        0 <= k < p.len(),
    ensures
        lex_from(crate::render::ident_text_from(p, k), 0) == Ok::<Seq<TokM>, int>(
            crate::render::toks_of_ident_from(p, k),
        ),
    decreases p.len() - k,
{
    let txt = crate::render::ident_text_from(p, k);
    let w = p[k];
    let n = w.len() as int;
    assert(wf_segment(w));
    if k + 1 == p.len() {
        // a single word, ending the text
        assert(txt =~= w);
        assert(forall|d: int| 0 <= d < n ==> is_word_char(#[trigger] txt[0 + d]));
        lemma_word_len_concrete(txt, 0, n);
        assert(txt.subrange(0, n) =~= w);
        assert(scan_at(txt, 0) == Option::Some((TokM::Word(w), n)));
        assert(!is_space(txt[0]));
        assert(lex_from(txt, n) == Ok::<Seq<TokM>, int>(Seq::empty()));
        assert(seq![TokM::Word(w)] + Seq::<TokM>::empty() =~= crate::render::toks_of_ident_from(
            p,
            k,
        ));
    } else {
        let rest = crate::render::ident_text_from(p, k + 1);
        assert(rest.len() > 0) by {
            assert(wf_segment(p[k + 1]));
            if k + 2 == p.len() {
            } else {
            }
        }
        assert(txt =~= w + seq![':', ':'] + rest);
        assert(forall|d: int| 0 <= d < n ==> is_word_char(#[trigger] txt[0 + d]));
        assert(txt[n] == ':');
        assert(!is_word_char(txt[0 + n]));
        lemma_word_len_concrete(txt, 0, n);
        assert(txt.subrange(0, n) =~= w);
        assert(scan_at(txt, 0) == Option::Some((TokM::Word(w), n)));
        assert(!is_space(txt[0]));
        // the path separator
        assert(txt[n + 1] == ':');
        assert(!is_space(txt[n]));
        assert(!is_word_start(txt[n]));
        assert(scan_at(txt, n) == Option::Some((TokM::PathSep, 2int)));
        // the rest of the segments
        assert(txt.skip(n + 2) =~= rest) by {
            assert(forall|d: int|
                0 <= d < txt.len() - n - 2 ==> #[trigger] txt.skip(n + 2)[d] == txt[n + 2 + d]);
            assert(forall|d: int| 0 <= d < rest.len() ==> txt[n + 2 + d] == #[trigger] rest[d]);
        }
        lemma_lex_ident_text(p, k + 1);
        assert(rest.skip(0) =~= rest);
        lemma_lex_shift(txt, n + 2, rest, 0);
        assert(lex_from(txt, n + 2) == Ok::<Seq<TokM>, int>(
            crate::render::toks_of_ident_from(p, k + 1),
        ));
        assert(lex_from(txt, n) == Ok::<Seq<TokM>, int>(
            seq![TokM::PathSep] + crate::render::toks_of_ident_from(p, k + 1),
        ));
        assert(lex_from(txt, 0) == Ok::<Seq<TokM>, int>(
            seq![TokM::Word(w)] + (seq![TokM::PathSep] + crate::render::toks_of_ident_from(
                p,
                k + 1,
            )),
        ));
        assert(seq![TokM::Word(w)] + (seq![TokM::PathSep] + crate::render::toks_of_ident_from(
            p,
            k + 1,
        )) =~= crate::render::toks_of_ident_from(p, k));
    }
}

/// The tokens `r` stand at position `i` of `ts`.
pub open spec fn region_at(ts: Seq<TokM>, i: int, r: Seq<TokM>) -> bool {
    &&& 0 <= i
    &&& i + r.len() <= ts.len()
    &&& ts.subrange(i, i + r.len()) == r
}

pub proof fn lemma_region_index(ts: Seq<TokM>, i: int, r: Seq<TokM>, d: int)
    requires
        region_at(ts, i, r),
        0 <= d < r.len(),
    ensures
        ts[i + d] == r[d],
{
    assert(ts.subrange(i, i + r.len())[d] == ts[i + d]);
}

/// A region made of two parts places each part.
pub proof fn lemma_region_split(ts: Seq<TokM>, i: int, a: Seq<TokM>, b: Seq<TokM>)
    requires
        region_at(ts, i, a + b),
    ensures
        region_at(ts, i, a),
        region_at(ts, i + a.len(), b),
{
    let ab = a + b;
    assert(ts.subrange(i, i + a.len()) =~= a) by {
        assert(forall|d: int|
            0 <= d < a.len() ==> #[trigger] ts.subrange(i, i + a.len())[d] == ts[i + d]);
        assert(forall|d: int|
            0 <= d < ab.len() ==> ts[i + d] == #[trigger] ts.subrange(i, i + ab.len())[d]);
    }
    assert(ts.subrange(i + a.len(), i + a.len() + b.len()) =~= b) by {
        assert(forall|d: int|
            0 <= d < b.len() ==> #[trigger] ts.subrange(i + a.len(), i + a.len() + b.len())[d]
                == ts[i + a.len() + d]);
        assert(forall|d: int|
            0 <= d < b.len() ==> ts[i + a.len() + d] == #[trigger] ts.subrange(
                i,
                i + ab.len(),
            )[a.len() + d]);
        assert(forall|d: int| 0 <= d < b.len() ==> ab[a.len() + d] == #[trigger] b[d]);
    }
}

/// The token count of an identifier's rendering.
pub proof fn lemma_toks_of_ident_len(p: IdentV, k: int)
    requires
        0 <= k <= p.len(),
    ensures
        toks_of_ident_from(p, k).len() == if k == p.len() {
            0int
        } else {
            2 * (p.len() - k) - 1
        },
    decreases p.len() - k,
{
    if k < p.len() && k + 1 < p.len() {
        lemma_toks_of_ident_len(p, k + 1);
    }
}

/// The first token of a non-empty identifier's rendering is its first
/// word.
pub proof fn lemma_toks_of_ident_first(p: IdentV)
    requires
        p.len() > 0,
    ensures
        toks_of_ident(p).len() > 0,
        toks_of_ident(p)[0] == TokM::Word(p[0]),
{
    lemma_toks_of_ident_len(p, 0);
}

/// An identifier's rendered tokens, placed in a stream and not followed
/// by a stray `::`, parse back to the identifier's remaining segments.
pub proof fn lemma_parse_segs_at(ts: Seq<TokM>, i: int, p: IdentV, k: int)
    requires
        wf_ident(p),
        0 <= k < p.len(),
        region_at(ts, i, toks_of_ident_from(p, k)),
        i + toks_of_ident_from(p, k).len() == ts.len() || !(ts[i + toks_of_ident_from(p, k).len()]
            matches TokM::PathSep),
    ensures
        parse_segs(ts, i) == Ok::<(IdentV, int), ParseError>(
            (p.skip(k), i + toks_of_ident_from(p, k).len()),
        ),
    decreases p.len() - k,
{
    let region = toks_of_ident_from(p, k);
    let l = region.len();
    lemma_toks_of_ident_len(p, k);
    assert(wf_segment(p[k]));
    if k + 1 == p.len() {
        assert(region =~= seq![TokM::Word(p[k])]);
        lemma_region_index(ts, i, region, 0);
        assert(ts[i] == TokM::Word(p[k]));
        assert(p.skip(k) =~= seq![p[k]]);
    } else {
        let head = seq![TokM::Word(p[k]), TokM::PathSep];
        let rest = toks_of_ident_from(p, k + 1);
        assert(region == head + rest);
        lemma_region_split(ts, i, head, rest);
        lemma_region_index(ts, i, head, 0);
        lemma_region_index(ts, i, head, 1);
        assert(ts[i] == TokM::Word(p[k]));
        assert(ts[i + 1] == TokM::PathSep);
        lemma_toks_of_ident_len(p, k + 1);
        lemma_parse_segs_at(ts, i + 2, p, k + 1);
        assert(seq![p[k]] + p.skip(k + 1) =~= p.skip(k));
    }
}

/// A whole identifier parses back from its tokens.
pub proof fn lemma_parse_ident_at(ts: Seq<TokM>, i: int, p: IdentV)
    requires
        wf_ident(p),
        region_at(ts, i, toks_of_ident(p)),
        i + toks_of_ident(p).len() == ts.len() || !(ts[i + toks_of_ident(p).len()]
            matches TokM::PathSep),
    ensures
        parse_segs(ts, i) == Ok::<(IdentV, int), ParseError>((p, i + toks_of_ident(p).len())),
{
    lemma_parse_segs_at(ts, i, p, 0);
    assert(p.skip(0) =~= p);
}

/// A reference parses back from its rendered tokens.
pub proof fn lemma_parse_reference_toks(ts: Seq<TokM>, i: int, r: ReferenceV)
    requires
        wf_reference(r),
        region_at(ts, i, toks_of_reference(r)),
        i + toks_of_reference(r).len() == ts.len() || !(ts[i + toks_of_reference(r).len()]
            matches TokM::PathSep),
    ensures
        parse_reference_at(ts, i) == Ok::<(ReferenceV, int), ParseError>(
            (r, i + toks_of_reference(r).len()),
        ),
{
    let st = toks_of_ident(r.state);
    let res = toks_of_ident(r.resource);
    let mutpart: Seq<TokM> = if r.mutable {
        seq![TokM::Word("mut"@)]
    } else {
        Seq::<TokM>::empty()
    };
    let region = toks_of_reference(r);
    let l = region.len();
    assert(region =~= st + (seq![TokM::SubLt] + (mutpart + res)));
    lemma_region_split(ts, i, st, seq![TokM::SubLt] + (mutpart + res));
    lemma_region_split(ts, i + st.len(), seq![TokM::SubLt], mutpart + res);
    lemma_region_split(ts, i + st.len() + 1, mutpart, res);
    let j = i + st.len();
    lemma_region_index(ts, j, seq![TokM::SubLt], 0);
    assert(ts[j] == TokM::SubLt);
    lemma_toks_of_ident_len(r.state, 0);
    lemma_toks_of_ident_len(r.resource, 0);
    lemma_parse_ident_at(ts, i, r.state);
    if r.mutable {
        lemma_region_index(ts, j + 1, mutpart, 0);
        assert(ts[j + 1] == TokM::Word("mut"@));
        lemma_parse_ident_at(ts, j + 2, r.resource);
        assert(parse_reference_at(ts, i) == Ok::<(ReferenceV, int), ParseError>(
            (ReferenceV { state: r.state, mutable: true, resource: r.resource }, i + l),
        ));
        assert(ReferenceV { state: r.state, mutable: true, resource: r.resource } =~= r);
    } else {
        lemma_toks_of_ident_first(r.resource);
        lemma_region_index(ts, j + 1, res, 0);
        assert(ts[j + 1] == TokM::Word(r.resource[0]));
        assert(wf_segment(r.resource[0]));
        assert(!(ts[j + 1] == TokM::Word("mut"@)));
        lemma_parse_ident_at(ts, j + 1, r.resource);
        assert(parse_reference_at(ts, i) == Ok::<(ReferenceV, int), ParseError>(
            (ReferenceV { state: r.state, mutable: false, resource: r.resource }, i + l),
        ));
        assert(ReferenceV { state: r.state, mutable: false, resource: r.resource } =~= r);
    }
}

/// A transition parses back from its rendered tokens; in particular the
/// one-token lookahead after `>-` picks the labelled branch exactly when
/// a label was rendered.
pub proof fn lemma_parse_transition_toks(ts: Seq<TokM>, i: int, t: TransitionV)
    requires
        wf_transition(t),
        region_at(ts, i, toks_of_transition(t)),
        i + toks_of_transition(t).len() == ts.len() || !(ts[i + toks_of_transition(t).len()]
            matches TokM::PathSep),
    ensures
        parse_transition_at(ts, i) == Ok::<(TransitionV, int), ParseError>(
            (t, i + toks_of_transition(t).len()),
        ),
{
    let from = toks_of_ident(t.from);
    let to = toks_of_ident(t.to);
    let label: Seq<TokM> = match t.intermediate {
        Option::None => Seq::<TokM>::empty(),
        Option::Some(m) => toks_of_ident(m),
    };
    let region = toks_of_transition(t);
    let l = region.len();
    assert(region =~= from + (seq![TokM::GtSub] + (label + (seq![TokM::RArrow] + to))));
    lemma_region_split(ts, i, from, seq![TokM::GtSub] + (label + (seq![TokM::RArrow] + to)));
    lemma_region_split(ts, i + from.len(), seq![TokM::GtSub], label + (seq![TokM::RArrow] + to));
    lemma_region_split(ts, i + from.len() + 1, label, seq![TokM::RArrow] + to);
    lemma_region_split(ts, i + from.len() + 1 + label.len(), seq![TokM::RArrow], to);
    let j = i + from.len();
    lemma_region_index(ts, j, seq![TokM::GtSub], 0);
    assert(ts[j] == TokM::GtSub);
    lemma_region_index(ts, j + 1 + label.len(), seq![TokM::RArrow], 0);
    assert(ts[j + 1 + label.len()] == TokM::RArrow);
    lemma_toks_of_ident_len(t.from, 0);
    lemma_toks_of_ident_len(t.to, 0);
    lemma_parse_ident_at(ts, i, t.from);
    match t.intermediate {
        Option::None => {
            assert(ts[j + 1] == TokM::RArrow);
            lemma_parse_ident_at(ts, j + 2, t.to);
            assert(parse_transition_at(ts, i) == Ok::<(TransitionV, int), ParseError>(
                (TransitionV { from: t.from, intermediate: Option::None, to: t.to }, i + l),
            ));
            assert(TransitionV { from: t.from, intermediate: Option::None, to: t.to } =~= t);
        },
        Option::Some(m) => {
            lemma_toks_of_ident_len(m, 0);
            lemma_toks_of_ident_first(m);
            lemma_region_index(ts, j + 1, label, 0);
            assert(ts[j + 1] == TokM::Word(m[0]));
            assert(!crate::parse::starts_with_dash(ts[j + 1]));
            lemma_parse_ident_at(ts, j + 1, m);
            lemma_parse_ident_at(ts, j + 1 + label.len() + 1, t.to);
            assert(parse_transition_at(ts, i) == Ok::<(TransitionV, int), ParseError>(
                (TransitionV { from: t.from, intermediate: Option::Some(m), to: t.to }, i + l),
            ));
            assert(TransitionV { from: t.from, intermediate: Option::Some(m), to: t.to } =~= t);
        },
    }
}

/// An overlay parses back from its rendered tokens.
pub proof fn lemma_parse_overlay_toks(ts: Seq<TokM>, i: int, o: OverlayV)
    requires
        wf_overlay(o),
        region_at(ts, i, toks_of_overlay(o)),
        i + toks_of_overlay(o).len() == ts.len() || !(ts[i + toks_of_overlay(o).len()]
            matches TokM::PathSep),
    ensures
        parse_overlay_at(ts, i) == Ok::<(OverlayV, int), ParseError>(
            (o, i + toks_of_overlay(o).len()),
        ),
{
    let back = toks_of_ident(o.back);
    let front = toks_of_ident(o.front);
    let region = toks_of_overlay(o);
    let l = region.len();
    assert(region =~= back + (seq![TokM::Caret] + front));
    lemma_region_split(ts, i, back, seq![TokM::Caret] + front);
    lemma_region_split(ts, i + back.len(), seq![TokM::Caret], front);
    let j = i + back.len();
    lemma_region_index(ts, j, seq![TokM::Caret], 0);
    assert(ts[j] == TokM::Caret);
    lemma_toks_of_ident_len(o.back, 0);
    lemma_toks_of_ident_len(o.front, 0);
    lemma_parse_ident_at(ts, i, o.back);
    lemma_parse_ident_at(ts, j + 1, o.front);
    assert(parse_overlay_at(ts, i) == Ok::<(OverlayV, int), ParseError>(
        (OverlayV { back: o.back, front: o.front }, i + l),
    ));
    assert(OverlayV { back: o.back, front: o.front } =~= o);
}

/// A rendered identifier section body, closed by a bracket, parses back
/// to its items.
pub proof fn lemma_parse_path_list_toks(ts: Seq<TokM>, i: int, v: Seq<IdentV>, k: int)
    requires
        0 <= k <= v.len(),
        forall|m: int| 0 <= m < v.len() ==> wf_ident(#[trigger] v[m]),
        region_at(ts, i, toks_of_path_items(v, k) + seq![TokM::CloseBracket]),
    ensures
        parse_path_list(ts, i) == Ok::<(Seq<IdentV>, int), ParseError>(
            (v.skip(k), i + toks_of_path_items(v, k).len() + 1),
        ),
    decreases v.len() - k,
{
    let body = toks_of_path_items(v, k);
    if k == v.len() {
        assert(body + seq![TokM::CloseBracket] =~= seq![TokM::CloseBracket]);
        lemma_region_index(ts, i, body + seq![TokM::CloseBracket], 0);
        assert(ts[i] == TokM::CloseBracket);
        assert(v.skip(k) =~= Seq::<IdentV>::empty());
    } else {
        let it = toks_of_ident(v[k]);
        let rest = toks_of_path_items(v, k + 1);
        assert(body + seq![TokM::CloseBracket] =~= it + (seq![TokM::Comma] + (rest + seq![
            TokM::CloseBracket,
        ])));
        lemma_region_split(ts, i, it, seq![TokM::Comma] + (rest + seq![TokM::CloseBracket]));
        lemma_region_split(ts, i + it.len(), seq![TokM::Comma], rest + seq![TokM::CloseBracket]);
        let j = i + it.len();
        lemma_region_index(ts, j, seq![TokM::Comma], 0);
        assert(ts[j] == TokM::Comma);
        lemma_toks_of_ident_first(v[k]);
        lemma_region_index(ts, i, it, 0);
        assert(ts[i] == TokM::Word(v[k][0]));
        lemma_parse_ident_at(ts, i, v[k]);
        lemma_parse_path_list_toks(ts, j + 1, v, k + 1);
        assert(seq![v[k]] + v.skip(k + 1) =~= v.skip(k));
    }
}

/// A rendered reference section body parses back to its items.
pub proof fn lemma_parse_ref_list_toks(ts: Seq<TokM>, i: int, v: Seq<ReferenceV>, k: int)
    requires
        0 <= k <= v.len(),
        forall|m: int| 0 <= m < v.len() ==> wf_reference(#[trigger] v[m]),
        region_at(ts, i, toks_of_ref_items(v, k) + seq![TokM::CloseBracket]),
    ensures
        parse_ref_list(ts, i) == Ok::<(Seq<ReferenceV>, int), ParseError>(
            (v.skip(k), i + toks_of_ref_items(v, k).len() + 1),
        ),
    decreases v.len() - k,
{
    let body = toks_of_ref_items(v, k);
    if k == v.len() {
        assert(body + seq![TokM::CloseBracket] =~= seq![TokM::CloseBracket]);
        lemma_region_index(ts, i, body + seq![TokM::CloseBracket], 0);
        assert(ts[i] == TokM::CloseBracket);
        assert(v.skip(k) =~= Seq::<ReferenceV>::empty());
    } else {
        let it = toks_of_reference(v[k]);
        let rest = toks_of_ref_items(v, k + 1);
        assert(body + seq![TokM::CloseBracket] =~= it + (seq![TokM::Comma] + (rest + seq![
            TokM::CloseBracket,
        ])));
        lemma_region_split(ts, i, it, seq![TokM::Comma] + (rest + seq![TokM::CloseBracket]));
        lemma_region_split(ts, i + it.len(), seq![TokM::Comma], rest + seq![TokM::CloseBracket]);
        let j = i + it.len();
        lemma_region_index(ts, j, seq![TokM::Comma], 0);
        assert(ts[j] == TokM::Comma);
        lemma_toks_of_ident_first(v[k].state);
        lemma_toks_of_ident_len(v[k].state, 0);
        assert(toks_of_reference(v[k])[0] == toks_of_ident(v[k].state)[0]);
        lemma_region_index(ts, i, it, 0);
        assert(ts[i] == TokM::Word(v[k].state[0]));
        lemma_parse_reference_toks(ts, i, v[k]);
        lemma_parse_ref_list_toks(ts, j + 1, v, k + 1);
        assert(seq![v[k]] + v.skip(k + 1) =~= v.skip(k));
    }
}

/// A rendered transition section body parses back to its items.
pub proof fn lemma_parse_tr_list_toks(ts: Seq<TokM>, i: int, v: Seq<TransitionV>, k: int)
    requires
        0 <= k <= v.len(),
        forall|m: int| 0 <= m < v.len() ==> wf_transition(#[trigger] v[m]),
        region_at(ts, i, toks_of_tr_items(v, k) + seq![TokM::CloseBracket]),
    ensures
        parse_tr_list(ts, i) == Ok::<(Seq<TransitionV>, int), ParseError>(
            (v.skip(k), i + toks_of_tr_items(v, k).len() + 1),
        ),
    decreases v.len() - k,
{
    let body = toks_of_tr_items(v, k);
    if k == v.len() {
        assert(body + seq![TokM::CloseBracket] =~= seq![TokM::CloseBracket]);
        lemma_region_index(ts, i, body + seq![TokM::CloseBracket], 0);
        assert(ts[i] == TokM::CloseBracket);
        assert(v.skip(k) =~= Seq::<TransitionV>::empty());
    } else {
        let it = toks_of_transition(v[k]);
        let rest = toks_of_tr_items(v, k + 1);
        assert(body + seq![TokM::CloseBracket] =~= it + (seq![TokM::Comma] + (rest + seq![
            TokM::CloseBracket,
        ])));
        lemma_region_split(ts, i, it, seq![TokM::Comma] + (rest + seq![TokM::CloseBracket]));
        lemma_region_split(ts, i + it.len(), seq![TokM::Comma], rest + seq![TokM::CloseBracket]);
        let j = i + it.len();
        lemma_region_index(ts, j, seq![TokM::Comma], 0);
        assert(ts[j] == TokM::Comma);
        lemma_toks_of_ident_first(v[k].from);
        lemma_toks_of_ident_len(v[k].from, 0);
        assert(toks_of_transition(v[k])[0] == toks_of_ident(v[k].from)[0]);
        lemma_region_index(ts, i, it, 0);
        assert(ts[i] == TokM::Word(v[k].from[0]));
        lemma_parse_transition_toks(ts, i, v[k]);
        lemma_parse_tr_list_toks(ts, j + 1, v, k + 1);
        assert(seq![v[k]] + v.skip(k + 1) =~= v.skip(k));
    }
}

/// A rendered overlay section body parses back to its items.
pub proof fn lemma_parse_ov_list_toks(ts: Seq<TokM>, i: int, v: Seq<OverlayV>, k: int)
    requires
        0 <= k <= v.len(),
        forall|m: int| 0 <= m < v.len() ==> wf_overlay(#[trigger] v[m]),
        region_at(ts, i, toks_of_ov_items(v, k) + seq![TokM::CloseBracket]),
    ensures
        parse_ov_list(ts, i) == Ok::<(Seq<OverlayV>, int), ParseError>(
            (v.skip(k), i + toks_of_ov_items(v, k).len() + 1),
        ),
    decreases v.len() - k,
{
    let body = toks_of_ov_items(v, k);
    if k == v.len() {
        assert(body + seq![TokM::CloseBracket] =~= seq![TokM::CloseBracket]);
        lemma_region_index(ts, i, body + seq![TokM::CloseBracket], 0);
        assert(ts[i] == TokM::CloseBracket);
        assert(v.skip(k) =~= Seq::<OverlayV>::empty());
    } else {
        let it = toks_of_overlay(v[k]);
        let rest = toks_of_ov_items(v, k + 1);
        assert(body + seq![TokM::CloseBracket] =~= it + (seq![TokM::Comma] + (rest + seq![
            TokM::CloseBracket,
        ])));
        lemma_region_split(ts, i, it, seq![TokM::Comma] + (rest + seq![TokM::CloseBracket]));
        lemma_region_split(ts, i + it.len(), seq![TokM::Comma], rest + seq![TokM::CloseBracket]);
        let j = i + it.len();
        lemma_region_index(ts, j, seq![TokM::Comma], 0);
        assert(ts[j] == TokM::Comma);
        lemma_toks_of_ident_first(v[k].back);
        lemma_toks_of_ident_len(v[k].back, 0);
        assert(toks_of_overlay(v[k])[0] == toks_of_ident(v[k].back)[0]);
        lemma_region_index(ts, i, it, 0);
        assert(ts[i] == TokM::Word(v[k].back[0]));
        lemma_parse_overlay_toks(ts, i, v[k]);
        lemma_parse_ov_list_toks(ts, j + 1, v, k + 1);
        assert(seq![v[k]] + v.skip(k + 1) =~= v.skip(k));
    }
}

/// Well-formedness of token sequences survives joining.
pub proof fn lemma_wf_toks_concat(a: Seq<TokM>, b: Seq<TokM>)
    requires
        wf_toks(a),
        wf_toks(b),
    ensures
        wf_toks(a + b),
{
    assert(forall|k: int| 0 <= k < (a + b).len() ==> wf_tok(#[trigger] (a + b)[k])) by {
        assert(forall|k: int| 0 <= k < a.len() ==> (a + b)[k] == #[trigger] a[k]);
        assert(forall|k: int| a.len() <= k < (a + b).len() ==> #[trigger] (a + b)[k] == b[k
            - a.len()]);
    }
}

/// The six keywords and `mut` are themselves well-formed words, with the
/// lengths that tell them apart.
pub proof fn lemma_kw_words()
    ensures
        wf_word("resource"@) && "resource"@.len() == 8,
        wf_word("state"@) && "state"@.len() == 5,
        wf_word("intermediate"@) && "intermediate"@.len() == 12,
        wf_word("reference"@) && "reference"@.len() == 9,
        wf_word("transition"@) && "transition"@.len() == 10,
        wf_word("overlay"@) && "overlay"@.len() == 7,
        wf_word("mut"@) && "mut"@.len() == 3,
{
    reveal_strlit("resource");
    reveal_strlit("state");
    reveal_strlit("intermediate");
    reveal_strlit("reference");
    reveal_strlit("transition");
    reveal_strlit("overlay");
    reveal_strlit("mut");
    assert(wf_word("resource"@)) by {
        let w = "resource"@;
        assert(forall|k: int| 0 <= k < w.len() ==> is_word_char(#[trigger] w[k])) by {
            assert(is_word_char(w[0]) && is_word_char(w[1]) && is_word_char(w[2]) && is_word_char(
                w[3],
            ) && is_word_char(w[4]) && is_word_char(w[5]) && is_word_char(w[6]) && is_word_char(
                w[7],
            ));
        }
    }
    assert(wf_word("state"@)) by {
        let w = "state"@;
        assert(forall|k: int| 0 <= k < w.len() ==> is_word_char(#[trigger] w[k])) by {
            assert(is_word_char(w[0]) && is_word_char(w[1]) && is_word_char(w[2]) && is_word_char(
                w[3],
            ) && is_word_char(w[4]));
        }
    }
    assert(wf_word("intermediate"@)) by {
        let w = "intermediate"@;
        assert(forall|k: int| 0 <= k < w.len() ==> is_word_char(#[trigger] w[k])) by {
            assert(is_word_char(w[0]) && is_word_char(w[1]) && is_word_char(w[2]) && is_word_char(
                w[3],
            ) && is_word_char(w[4]) && is_word_char(w[5]) && is_word_char(w[6]) && is_word_char(
                w[7],
            ) && is_word_char(w[8]) && is_word_char(w[9]) && is_word_char(w[10]) && is_word_char(
                w[11],
            ));
        }
    }
    assert(wf_word("reference"@)) by {
        let w = "reference"@;
        assert(forall|k: int| 0 <= k < w.len() ==> is_word_char(#[trigger] w[k])) by {
            assert(is_word_char(w[0]) && is_word_char(w[1]) && is_word_char(w[2]) && is_word_char(
                w[3],
            ) && is_word_char(w[4]) && is_word_char(w[5]) && is_word_char(w[6]) && is_word_char(
                w[7],
            ) && is_word_char(w[8]));
        }
    }
    assert(wf_word("transition"@)) by {
        let w = "transition"@;
        assert(forall|k: int| 0 <= k < w.len() ==> is_word_char(#[trigger] w[k])) by {
            assert(is_word_char(w[0]) && is_word_char(w[1]) && is_word_char(w[2]) && is_word_char(
                w[3],
            ) && is_word_char(w[4]) && is_word_char(w[5]) && is_word_char(w[6]) && is_word_char(
                w[7],
            ) && is_word_char(w[8]) && is_word_char(w[9]));
        }
    }
    assert(wf_word("overlay"@)) by {
        let w = "overlay"@;
        assert(forall|k: int| 0 <= k < w.len() ==> is_word_char(#[trigger] w[k])) by {
            assert(is_word_char(w[0]) && is_word_char(w[1]) && is_word_char(w[2]) && is_word_char(
                w[3],
            ) && is_word_char(w[4]) && is_word_char(w[5]) && is_word_char(w[6]));
        }
    }
    assert(wf_word("mut"@)) by {
        let w = "mut"@;
        assert(forall|k: int| 0 <= k < w.len() ==> is_word_char(#[trigger] w[k])) by {
            assert(is_word_char(w[0]) && is_word_char(w[1]) && is_word_char(w[2]));
        }
    }
}

/// One section of a document, tagged by its keyword, with its items.
pub enum SectionV {
    Resources(Seq<IdentV>),
    States(Seq<IdentV>),
    Intermediates(Seq<IdentV>),
    References(Seq<ReferenceV>),
    Transitions(Seq<TransitionV>),
    Overlays(Seq<OverlayV>),
}

/// The keyword a section is written under.
pub open spec fn kw_of_section(s: SectionV) -> SectionKw {
    match s {
        SectionV::Resources(_) => SectionKw::Resource,
        SectionV::States(_) => SectionKw::State,
        SectionV::Intermediates(_) => SectionKw::Intermediate,
        SectionV::References(_) => SectionKw::Reference,
        SectionV::Transitions(_) => SectionKw::Transition,
        SectionV::Overlays(_) => SectionKw::Overlay,
    }
}

/// The spelled word of a keyword.
pub open spec fn kw_text(kw: SectionKw) -> Seq<char> {
    match kw {
        SectionKw::Resource => "resource"@,
        SectionKw::State => "state"@,
        SectionKw::Intermediate => "intermediate"@,
        SectionKw::Reference => "reference"@,
        SectionKw::Transition => "transition"@,
        SectionKw::Overlay => "overlay"@,
    }
}

/// The body tokens of a section.
pub open spec fn section_body_toks(s: SectionV) -> Seq<TokM> {
    match s {
        SectionV::Resources(v) => toks_of_path_items(v, 0),
        SectionV::States(v) => toks_of_path_items(v, 0),
        SectionV::Intermediates(v) => toks_of_path_items(v, 0),
        SectionV::References(v) => toks_of_ref_items(v, 0),
        SectionV::Transitions(v) => toks_of_tr_items(v, 0),
        SectionV::Overlays(v) => toks_of_ov_items(v, 0),
    }
}

/// The full rendering of one section.
pub open spec fn section_toks(s: SectionV) -> Seq<TokM> {
    toks_of_section(kw_text(kw_of_section(s)), section_body_toks(s))
}

/// The rendering of a run of sections, from index `m` on.
pub open spec fn sections_toks(ss: Seq<SectionV>, m: int) -> Seq<TokM>
    decreases ss.len() - m when 0 <= m <= ss.len()
{
    if m >= ss.len() {
        Seq::empty()
    } else {
        section_toks(ss[m]) + sections_toks(ss, m + 1)
    }
}

/// All items of a section are well formed.
pub open spec fn wf_section(s: SectionV) -> bool {
    match s {
        SectionV::Resources(v) => forall|m: int| 0 <= m < v.len() ==> wf_ident(#[trigger] v[m]),
        SectionV::States(v) => forall|m: int| 0 <= m < v.len() ==> wf_ident(#[trigger] v[m]),
        SectionV::Intermediates(v) => forall|m: int|
            0 <= m < v.len() ==> wf_ident(#[trigger] v[m]),
        SectionV::References(v) => forall|m: int|
            0 <= m < v.len() ==> wf_reference(#[trigger] v[m]),
        SectionV::Transitions(v) => forall|m: int|
            0 <= m < v.len() ==> wf_transition(#[trigger] v[m]),
        SectionV::Overlays(v) => forall|m: int| 0 <= m < v.len() ==> wf_overlay(#[trigger] v[m]),
    }
}

/// Fills the slot a section belongs in.
pub open spec fn apply_section(acc: SlotsV, s: SectionV) -> SlotsV {
    match s {
        SectionV::Resources(v) => SlotsV { resources: Option::Some(v), ..acc },
        SectionV::States(v) => SlotsV { states: Option::Some(v), ..acc },
        SectionV::Intermediates(v) => SlotsV { intermediates: Option::Some(v), ..acc },
        SectionV::References(v) => SlotsV { references: Option::Some(v), ..acc },
        SectionV::Transitions(v) => SlotsV { transitions: Option::Some(v), ..acc },
        SectionV::Overlays(v) => SlotsV { overlays: Option::Some(v), ..acc },
    }
}

/// Fills the slots of a run of sections, left to right.
pub open spec fn apply_sections(acc: SlotsV, ss: Seq<SectionV>, m: int) -> SlotsV
    decreases ss.len() - m when 0 <= m <= ss.len()
{
    if m >= ss.len() {
        acc
    } else {
        apply_sections(apply_section(acc, ss[m]), ss, m + 1)
    }
}

/// This keyword's slot is still empty.
pub open spec fn slot_free(acc: SlotsV, kw: SectionKw) -> bool {
    match kw {
        SectionKw::Resource => acc.resources is None,
        SectionKw::State => acc.states is None,
        SectionKw::Intermediate => acc.intermediates is None,
        SectionKw::Reference => acc.references is None,
        SectionKw::Transition => acc.transitions is None,
        SectionKw::Overlay => acc.overlays is None,
    }
}

/// Well-formedness of single marks.
pub proof fn lemma_wf_mark(t: TokM)
    requires
        !(t matches TokM::Word(_)),
    ensures
        wf_toks(seq![t]),
{
    assert(forall|k: int| 0 <= k < seq![t].len() ==> wf_tok(#[trigger] seq![t][k]));
}

/// Every token of an identifier section body is well formed.
pub proof fn lemma_toks_of_path_items_wf(v: Seq<IdentV>, k: int)
    requires
        forall|m: int| 0 <= m < v.len() ==> wf_ident(#[trigger] v[m]),
        0 <= k <= v.len(),
    ensures
        wf_toks(toks_of_path_items(v, k)),
    decreases v.len() - k,
{
    if k < v.len() {
        lemma_toks_of_ident_wf(v[k], 0);
        lemma_wf_mark(TokM::Comma);
        lemma_toks_of_path_items_wf(v, k + 1);
        lemma_wf_toks_concat(seq![TokM::Comma], toks_of_path_items(v, k + 1));
        lemma_wf_toks_concat(toks_of_ident(v[k]), seq![TokM::Comma] + toks_of_path_items(v, k + 1));
        assert(toks_of_ident(v[k]) + (seq![TokM::Comma] + toks_of_path_items(v, k + 1))
            =~= toks_of_path_items(v, k));
    }
}

/// Every token of a reference's rendering is well formed.
pub proof fn lemma_toks_of_reference_wf(r: ReferenceV)
    requires
        wf_reference(r),
    ensures
        wf_toks(toks_of_reference(r)),
{
    lemma_kw_words();
    lemma_toks_of_ident_wf(r.state, 0);
    lemma_toks_of_ident_wf(r.resource, 0);
    let mutpart: Seq<TokM> = if r.mutable {
        seq![TokM::Word("mut"@)]
    } else {
        Seq::<TokM>::empty()
    };
    assert(wf_toks(mutpart)) by {
        assert(forall|k: int| 0 <= k < mutpart.len() ==> wf_tok(#[trigger] mutpart[k]));
    }
    lemma_wf_mark(TokM::SubLt);
    lemma_wf_toks_concat(mutpart, toks_of_ident(r.resource));
    lemma_wf_toks_concat(seq![TokM::SubLt], mutpart + toks_of_ident(r.resource));
    lemma_wf_toks_concat(
        toks_of_ident(r.state),
        seq![TokM::SubLt] + (mutpart + toks_of_ident(r.resource)),
    );
    assert(toks_of_ident(r.state) + (seq![TokM::SubLt] + (mutpart + toks_of_ident(r.resource)))
        =~= toks_of_reference(r));
}

/// Every token of a transition's rendering is well formed.
pub proof fn lemma_toks_of_transition_wf(t: TransitionV)
    requires
        wf_transition(t),
    ensures
        wf_toks(toks_of_transition(t)),
{
    lemma_toks_of_ident_wf(t.from, 0);
    lemma_toks_of_ident_wf(t.to, 0);
    let label: Seq<TokM> = match t.intermediate {
        Option::None => Seq::<TokM>::empty(),
        Option::Some(m) => toks_of_ident(m),
    };
    assert(wf_toks(label)) by {
        match t.intermediate {
            Option::None => {},
            Option::Some(m) => {
                lemma_toks_of_ident_wf(m, 0);
            },
        }
    }
    lemma_wf_mark(TokM::GtSub);
    lemma_wf_mark(TokM::RArrow);
    lemma_wf_toks_concat(seq![TokM::RArrow], toks_of_ident(t.to));
    lemma_wf_toks_concat(label, seq![TokM::RArrow] + toks_of_ident(t.to));
    lemma_wf_toks_concat(seq![TokM::GtSub], label + (seq![TokM::RArrow] + toks_of_ident(t.to)));
    lemma_wf_toks_concat(
        toks_of_ident(t.from),
        seq![TokM::GtSub] + (label + (seq![TokM::RArrow] + toks_of_ident(t.to))),
    );
    assert(toks_of_ident(t.from) + (seq![TokM::GtSub] + (label + (seq![TokM::RArrow]
        + toks_of_ident(t.to)))) =~= toks_of_transition(t));
}

/// Every token of an overlay's rendering is well formed.
pub proof fn lemma_toks_of_overlay_wf(o: OverlayV)
    requires
        wf_overlay(o),
    ensures
        wf_toks(toks_of_overlay(o)),
{
    lemma_toks_of_ident_wf(o.back, 0);
    lemma_toks_of_ident_wf(o.front, 0);
    lemma_wf_mark(TokM::Caret);
    lemma_wf_toks_concat(seq![TokM::Caret], toks_of_ident(o.front));
    lemma_wf_toks_concat(toks_of_ident(o.back), seq![TokM::Caret] + toks_of_ident(o.front));
    assert(toks_of_ident(o.back) + (seq![TokM::Caret] + toks_of_ident(o.front)) =~= toks_of_overlay(
        o,
    ));
}

/// Every token of the reference section body is well formed.
pub proof fn lemma_toks_of_ref_items_wf(v: Seq<ReferenceV>, k: int)
    requires
        forall|m: int| 0 <= m < v.len() ==> wf_reference(#[trigger] v[m]),
        0 <= k <= v.len(),
    ensures
        wf_toks(toks_of_ref_items(v, k)),
    decreases v.len() - k,
{
    if k < v.len() {
        lemma_toks_of_reference_wf(v[k]);
        lemma_wf_mark(TokM::Comma);
        lemma_toks_of_ref_items_wf(v, k + 1);
        lemma_wf_toks_concat(seq![TokM::Comma], toks_of_ref_items(v, k + 1));
        lemma_wf_toks_concat(
            toks_of_reference(v[k]),
            seq![TokM::Comma] + toks_of_ref_items(v, k + 1),
        );
        assert(toks_of_reference(v[k]) + (seq![TokM::Comma] + toks_of_ref_items(v, k + 1))
            =~= toks_of_ref_items(v, k));
    }
}

/// Every token of the transition section body is well formed.
pub proof fn lemma_toks_of_tr_items_wf(v: Seq<TransitionV>, k: int)
    requires
        forall|m: int| 0 <= m < v.len() ==> wf_transition(#[trigger] v[m]),
        0 <= k <= v.len(),
    ensures
        wf_toks(toks_of_tr_items(v, k)),
    decreases v.len() - k,
{
    if k < v.len() {
        lemma_toks_of_transition_wf(v[k]);
        lemma_wf_mark(TokM::Comma);
        lemma_toks_of_tr_items_wf(v, k + 1);
        lemma_wf_toks_concat(seq![TokM::Comma], toks_of_tr_items(v, k + 1));
        lemma_wf_toks_concat(
            toks_of_transition(v[k]),
            seq![TokM::Comma] + toks_of_tr_items(v, k + 1),
        );
        assert(toks_of_transition(v[k]) + (seq![TokM::Comma] + toks_of_tr_items(v, k + 1))
            =~= toks_of_tr_items(v, k));
    }
}

/// Every token of the overlay section body is well formed.
pub proof fn lemma_toks_of_ov_items_wf(v: Seq<OverlayV>, k: int)
    requires
        forall|m: int| 0 <= m < v.len() ==> wf_overlay(#[trigger] v[m]),
        0 <= k <= v.len(),
    ensures
        wf_toks(toks_of_ov_items(v, k)),
    decreases v.len() - k,
{
    if k < v.len() {
        lemma_toks_of_overlay_wf(v[k]);
        lemma_wf_mark(TokM::Comma);
        lemma_toks_of_ov_items_wf(v, k + 1);
        lemma_wf_toks_concat(seq![TokM::Comma], toks_of_ov_items(v, k + 1));
        lemma_wf_toks_concat(toks_of_overlay(v[k]), seq![TokM::Comma] + toks_of_ov_items(v, k + 1));
        assert(toks_of_overlay(v[k]) + (seq![TokM::Comma] + toks_of_ov_items(v, k + 1))
            =~= toks_of_ov_items(v, k));
    }
}

/// Every token of one section's rendering is well formed.
pub proof fn lemma_section_toks_wf(s: SectionV)
    requires
        wf_section(s),
    ensures
        wf_toks(section_toks(s)),
{
    lemma_kw_words();
    let kw = kw_text(kw_of_section(s));
    let body = section_body_toks(s);
    assert(wf_toks(seq![TokM::Word(kw), TokM::Colon, TokM::OpenBracket])) by {
        let h = seq![TokM::Word(kw), TokM::Colon, TokM::OpenBracket];
        assert(forall|k: int| 0 <= k < h.len() ==> wf_tok(#[trigger] h[k])) by {
            assert(h[0] == TokM::Word(kw) && h[1] == TokM::Colon && h[2] == TokM::OpenBracket);
        }
    }
    assert(wf_toks(body)) by {
        match s {
            SectionV::Resources(v) => lemma_toks_of_path_items_wf(v, 0),
            SectionV::States(v) => lemma_toks_of_path_items_wf(v, 0),
            SectionV::Intermediates(v) => lemma_toks_of_path_items_wf(v, 0),
            SectionV::References(v) => lemma_toks_of_ref_items_wf(v, 0),
            SectionV::Transitions(v) => lemma_toks_of_tr_items_wf(v, 0),
            SectionV::Overlays(v) => lemma_toks_of_ov_items_wf(v, 0),
        }
    }
    lemma_wf_mark(TokM::CloseBracket);
    lemma_wf_toks_concat(body, seq![TokM::CloseBracket]);
    lemma_wf_toks_concat(
        seq![TokM::Word(kw), TokM::Colon, TokM::OpenBracket],
        body + seq![TokM::CloseBracket],
    );
    assert(seq![TokM::Word(kw), TokM::Colon, TokM::OpenBracket] + (body + seq![TokM::CloseBracket])
        =~= section_toks(s));
}

/// The document loop, fed the rendering of a run of sections with
/// distinct keywords whose slots are still free, fills exactly those
/// slots and then runs the completeness check.
pub proof fn lemma_parse_sections_toks(
    ts: Seq<TokM>,
    i: int,
    ss: Seq<SectionV>,
    m: int,
    acc: SlotsV,
)
    requires
        0 <= m <= ss.len(),
        0 <= i <= ts.len(),
        ts.skip(i) == sections_toks(ss, m),
        forall|q: int| 0 <= q < ss.len() ==> wf_section(#[trigger] ss[q]),
        forall|q: int| m <= q < ss.len() ==> slot_free(acc, kw_of_section(#[trigger] ss[q])),
        forall|q1: int, q2: int|
            m <= q1 < q2 < ss.len() ==> kw_of_section(ss[q1]) != kw_of_section(ss[q2]),
    ensures
        parse_sections(ts, i, acc) == finish_sections(apply_sections(acc, ss, m), ts.len() as int),
    decreases ss.len() - m,
{
    lemma_kw_words();
    assert(ts.skip(i).len() == ts.len() - i);
    if m >= ss.len() {
        assert(i == ts.len());
    } else {
        let s0 = ss[m];
        let kw = kw_of_section(s0);
        let kwt = kw_text(kw);
        let body = section_body_toks(s0);
        let header = seq![TokM::Word(kwt), TokM::Colon, TokM::OpenBracket];
        let listreg = body + seq![TokM::CloseBracket];
        let rest = sections_toks(ss, m + 1);
        assert(region_at(ts, i, sections_toks(ss, m))) by {
            assert(ts.subrange(i, i + sections_toks(ss, m).len()) =~= ts.skip(i)) by {
                assert(forall|d: int|
                    0 <= d < ts.len() - i ==> #[trigger] ts.skip(i)[d] == ts[i + d]);
                assert(forall|d: int|
                    0 <= d < ts.len() - i ==> #[trigger] ts.subrange(i, ts.len() as int)[d] == ts[i
                        + d]);
            }
        }
        assert(sections_toks(ss, m) =~= (header + listreg) + rest) by {
            assert(section_toks(s0) =~= header + listreg);
        }
        assert(region_at(ts, i, (header + listreg) + rest));
        lemma_region_split(ts, i, header + listreg, rest);
        lemma_region_split(ts, i, header, listreg);
        lemma_region_index(ts, i, header, 0);
        lemma_region_index(ts, i, header, 1);
        lemma_region_index(ts, i, header, 2);
        assert(ts[i] == TokM::Word(kwt));
        assert(ts[i + 1] == TokM::Colon);
        assert(ts[i + 2] == TokM::OpenBracket);
        let j = i + 3 + body.len() + 1;
        assert(region_at(ts, i + 3, listreg));
        assert(region_at(ts, j, rest));
        assert(ts.skip(j) =~= rest) by {
            assert(forall|d: int| 0 <= d < rest.len() ==> #[trigger] ts.skip(j)[d] == ts[j + d]);
            assert(forall|d: int|
                0 <= d < rest.len() ==> #[trigger] ts.subrange(j, j + rest.len())[d] == ts[j + d]);
        }
        let acc2 = apply_section(acc, s0);
        assert(slot_free(acc, kw_of_section(ss[m])));
        assert forall|q: int| m + 1 <= q < ss.len() implies slot_free(
            acc2,
            kw_of_section(#[trigger] ss[q]),
        ) by {
            assert(kw_of_section(ss[m]) != kw_of_section(ss[q]));
            assert(slot_free(acc, kw_of_section(ss[q])));
        }
        lemma_parse_sections_toks(ts, j, ss, m + 1, acc2);
        match s0 {
            SectionV::Resources(v) => {
                lemma_parse_path_list_toks(ts, i + 3, v, 0);
                assert(v.skip(0) =~= v);
                assert(SlotsV { resources: Option::Some(v), ..acc } =~= acc2);
                assert(parse_sections(ts, i, acc) == parse_sections(ts, j, acc2));
            },
            SectionV::States(v) => {
                lemma_parse_path_list_toks(ts, i + 3, v, 0);
                assert(v.skip(0) =~= v);
                assert(SlotsV { states: Option::Some(v), ..acc } =~= acc2);
                assert(parse_sections(ts, i, acc) == parse_sections(ts, j, acc2));
            },
            SectionV::Intermediates(v) => {
                lemma_parse_path_list_toks(ts, i + 3, v, 0);
                assert(v.skip(0) =~= v);
                assert(SlotsV { intermediates: Option::Some(v), ..acc } =~= acc2);
                assert(parse_sections(ts, i, acc) == parse_sections(ts, j, acc2));
            },
            SectionV::References(v) => {
                lemma_parse_ref_list_toks(ts, i + 3, v, 0);
                assert(v.skip(0) =~= v);
                assert(SlotsV { references: Option::Some(v), ..acc } =~= acc2);
                assert(parse_sections(ts, i, acc) == parse_sections(ts, j, acc2));
            },
            SectionV::Transitions(v) => {
                lemma_parse_tr_list_toks(ts, i + 3, v, 0);
                assert(v.skip(0) =~= v);
                assert(SlotsV { transitions: Option::Some(v), ..acc } =~= acc2);
                assert(parse_sections(ts, i, acc) == parse_sections(ts, j, acc2));
            },
            SectionV::Overlays(v) => {
                lemma_parse_ov_list_toks(ts, i + 3, v, 0);
                assert(v.skip(0) =~= v);
                assert(SlotsV { overlays: Option::Some(v), ..acc } =~= acc2);
                assert(parse_sections(ts, i, acc) == parse_sections(ts, j, acc2));
            },
        }
    }
}

/// Every token of a run of well-formed sections is well formed.
pub proof fn lemma_sections_toks_wf(ss: Seq<SectionV>, m: int)
    requires
        forall|q: int| 0 <= q < ss.len() ==> wf_section(#[trigger] ss[q]),
        0 <= m <= ss.len(),
    ensures
        wf_toks(sections_toks(ss, m)),
    decreases ss.len() - m,
{
    if m < ss.len() {
        lemma_section_toks_wf(ss[m]);
        lemma_sections_toks_wf(ss, m + 1);
        lemma_wf_toks_concat(section_toks(ss[m]), sections_toks(ss, m + 1));
    }
}

/// The six sections of a document, in the render order.
pub open spec fn sections_of_flow(f: FlowV) -> Seq<SectionV> {
    seq![
        SectionV::Resources(f.resources),
        SectionV::States(f.states),
        SectionV::Intermediates(f.intermediates),
        SectionV::References(f.references),
        SectionV::Transitions(f.transitions),
        SectionV::Overlays(f.overlays),
    ]
}

/// A document's rendering is the rendering of its six sections in the
/// fixed order.
pub proof fn lemma_toks_of_flow_as_sections(f: FlowV)
    ensures
        toks_of_flow(f) == sections_toks(sections_of_flow(f), 0),
{
    let ss = sections_of_flow(f);
    assert(sections_toks(ss, 6) =~= Seq::<TokM>::empty());
    assert(sections_toks(ss, 5) == section_toks(ss[5]) + sections_toks(ss, 6));
    assert(sections_toks(ss, 4) == section_toks(ss[4]) + sections_toks(ss, 5));
    assert(sections_toks(ss, 3) == section_toks(ss[3]) + sections_toks(ss, 4));
    assert(sections_toks(ss, 2) == section_toks(ss[2]) + sections_toks(ss, 3));
    assert(sections_toks(ss, 1) == section_toks(ss[1]) + sections_toks(ss, 2));
    assert(sections_toks(ss, 0) == section_toks(ss[0]) + sections_toks(ss, 1));
    assert(toks_of_flow(f) =~= sections_toks(ss, 0));
}

/// The sections of a well-formed document are well formed.
pub proof fn lemma_sections_of_flow_wf(f: FlowV)
    requires
        f.wf(),
    ensures
        forall|q: int|
            0 <= q < sections_of_flow(f).len() ==> wf_section(#[trigger] sections_of_flow(f)[q]),
{
    let ss = sections_of_flow(f);
    assert(wf_section(ss[0]));
    assert(wf_section(ss[1]));
    assert(wf_section(ss[2]));
    assert(wf_section(ss[3]));
    assert(wf_section(ss[4]));
    assert(wf_section(ss[5]));
}

/// Rendering a well-formed document and parsing the text gives the
/// document back.  This is the heart of the round-trip law.
pub proof fn lemma_parse_render_roundtrip(f: FlowV)
    requires
        f.wf(),
    ensures
        parse_doc(flow_text(f)) == Ok::<FlowV, ParseError>(f),
{
    let ss = sections_of_flow(f);
    lemma_sections_of_flow_wf(f);
    lemma_toks_of_flow_as_sections(f);
    lemma_sections_toks_wf(ss, 0);
    let ts = toks_of_flow(f);
    lemma_lex_text(ts);
    assert(ts.skip(0) =~= ts);
    assert forall|q1: int, q2: int|
        0 <= q1 < q2 < ss.len() implies kw_of_section(ss[q1]) != kw_of_section(ss[q2]) by {
        assert(kw_of_section(ss[0]) == SectionKw::Resource);
        assert(kw_of_section(ss[1]) == SectionKw::State);
        assert(kw_of_section(ss[2]) == SectionKw::Intermediate);
        assert(kw_of_section(ss[3]) == SectionKw::Reference);
        assert(kw_of_section(ss[4]) == SectionKw::Transition);
        assert(kw_of_section(ss[5]) == SectionKw::Overlay);
    }
    lemma_parse_sections_toks(ts, 0, ss, 0, empty_slots());
    let a0 = empty_slots();
    let a1 = apply_section(a0, ss[0]);
    let a2 = apply_section(a1, ss[1]);
    let a3 = apply_section(a2, ss[2]);
    let a4 = apply_section(a3, ss[3]);
    let a5 = apply_section(a4, ss[4]);
    let a6 = apply_section(a5, ss[5]);
    assert(apply_sections(a0, ss, 0) == a6) by {
        assert(apply_sections(a6, ss, 6) == a6);
        assert(apply_sections(a5, ss, 5) == apply_sections(a6, ss, 6));
        assert(apply_sections(a4, ss, 4) == apply_sections(a5, ss, 5));
        assert(apply_sections(a3, ss, 3) == apply_sections(a4, ss, 4));
        assert(apply_sections(a2, ss, 2) == apply_sections(a3, ss, 3));
        assert(apply_sections(a1, ss, 1) == apply_sections(a2, ss, 2));
        assert(apply_sections(a0, ss, 0) == apply_sections(a1, ss, 1));
    }
    assert(finish_sections(a6, ts.len() as int) == Ok::<FlowV, ParseError>(f)) by {
        assert(a6.resources == Option::Some(f.resources));
        assert(a6.states == Option::Some(f.states));
        assert(a6.intermediates == Option::Some(f.intermediates));
        assert(a6.references == Option::Some(f.references));
        assert(a6.transitions == Option::Some(f.transitions));
        assert(a6.overlays == Option::Some(f.overlays));
        assert(FlowV {
            resources: f.resources,
            states: f.states,
            intermediates: f.intermediates,
            references: f.references,
            transitions: f.transitions,
            overlays: f.overlays,
        } =~= f);
    }
}

/// Round-trip identity: whatever a document parses to, the rendering of
/// that tree parses back to the very same tree.
pub proof fn lemma_roundtrip_identity(s: Seq<char>)
    ensures
        parse_doc(s) matches Ok(f) ==> parse_doc(flow_text(f)) == Ok::<FlowV, ParseError>(f),
{
    lemma_parse_doc_wf(s);
    if let Ok(f) = parse_doc(s) {
        lemma_parse_render_roundtrip(f);
    }
}

/// Order preservation: a parse-render round trip keeps every section's
/// item sequence exactly.
pub proof fn lemma_order_preservation(s: Seq<char>)
    ensures
        parse_doc(s) matches Ok(f) ==> (parse_doc(flow_text(f)) matches Ok(g) && g.resources
            == f.resources && g.states == f.states && g.intermediates == f.intermediates
            && g.references == f.references && g.transitions == f.transitions && g.overlays
            == f.overlays),
{
    lemma_roundtrip_identity(s);
}

/// This keyword's slot is filled.
pub open spec fn slot_filled(acc: SlotsV, kw: SectionKw) -> bool {
    !slot_free(acc, kw)
}

/// Running the slots over a run of sections fills exactly the keywords
/// that occur.
pub proof fn lemma_apply_sections_filled(acc: SlotsV, ss: Seq<SectionV>, m: int, kw: SectionKw)
    requires
        0 <= m <= ss.len(),
    ensures
        slot_filled(apply_sections(acc, ss, m), kw) == ((exists|q: int|
            m <= q < ss.len() && kw_of_section(#[trigger] ss[q]) == kw) || slot_filled(acc, kw)),
    decreases ss.len() - m,
{
    if m < ss.len() {
        let acc2 = apply_section(acc, ss[m]);
        lemma_apply_sections_filled(acc2, ss, m + 1, kw);
        assert(slot_filled(acc2, kw) == (kw_of_section(ss[m]) == kw || slot_filled(acc, kw)));
        if kw_of_section(ss[m]) == kw {
            assert(m <= m < ss.len() && kw_of_section(ss[m]) == kw);
        }
        if slot_filled(apply_sections(acc, ss, m), kw) && !slot_filled(acc, kw) {
            if kw_of_section(ss[m]) != kw {
                assert(exists|q: int| m + 1 <= q < ss.len() && kw_of_section(#[trigger] ss[q]) == kw);
                let q = choose|q: int| m + 1 <= q < ss.len() && kw_of_section(#[trigger] ss[q]) == kw;
                assert(m <= q < ss.len() && kw_of_section(ss[q]) == kw);
            }
        }
    }
}

/// Six-section completeness, the positive half: a document holding all
/// six keyword sections, in any order, parses.
pub proof fn lemma_all_sections_parse(ss: Seq<SectionV>)
    requires
        forall|q: int| 0 <= q < ss.len() ==> wf_section(#[trigger] ss[q]),
        forall|q1: int, q2: int|
            0 <= q1 < q2 < ss.len() ==> kw_of_section(ss[q1]) != kw_of_section(ss[q2]),
        exists|q: int| 0 <= q < ss.len() && kw_of_section(#[trigger] ss[q]) == SectionKw::Resource,
        exists|q: int| 0 <= q < ss.len() && kw_of_section(#[trigger] ss[q]) == SectionKw::State,
        exists|q: int|
            0 <= q < ss.len() && kw_of_section(#[trigger] ss[q]) == SectionKw::Intermediate,
        exists|q: int| 0 <= q < ss.len() && kw_of_section(#[trigger] ss[q]) == SectionKw::Reference,
        exists|q: int|
            0 <= q < ss.len() && kw_of_section(#[trigger] ss[q]) == SectionKw::Transition,
        exists|q: int| 0 <= q < ss.len() && kw_of_section(#[trigger] ss[q]) == SectionKw::Overlay,
    ensures
        parse_doc(text_of_toks(sections_toks(ss, 0))) is Ok,
{
    let ts = sections_toks(ss, 0);
    lemma_sections_toks_wf(ss, 0);
    lemma_lex_text(ts);
    assert(ts.skip(0) =~= ts);
    lemma_parse_sections_toks(ts, 0, ss, 0, empty_slots());
    let done = apply_sections(empty_slots(), ss, 0);
    lemma_apply_sections_filled(empty_slots(), ss, 0, SectionKw::Resource);
    lemma_apply_sections_filled(empty_slots(), ss, 0, SectionKw::State);
    lemma_apply_sections_filled(empty_slots(), ss, 0, SectionKw::Intermediate);
    lemma_apply_sections_filled(empty_slots(), ss, 0, SectionKw::Reference);
    lemma_apply_sections_filled(empty_slots(), ss, 0, SectionKw::Transition);
    lemma_apply_sections_filled(empty_slots(), ss, 0, SectionKw::Overlay);
    assert(slot_filled(done, SectionKw::Resource));
    assert(slot_filled(done, SectionKw::State));
    assert(slot_filled(done, SectionKw::Intermediate));
    assert(slot_filled(done, SectionKw::Reference));
    assert(slot_filled(done, SectionKw::Transition));
    assert(slot_filled(done, SectionKw::Overlay));
}

/// Six-section completeness, the negative half: a document whose
/// sections leave out exactly one keyword fails with a missing-section
/// error naming that keyword.
pub proof fn lemma_missing_section(ss: Seq<SectionV>, kw: SectionKw)
    requires
        forall|q: int| 0 <= q < ss.len() ==> wf_section(#[trigger] ss[q]),
        forall|q1: int, q2: int|
            0 <= q1 < q2 < ss.len() ==> kw_of_section(ss[q1]) != kw_of_section(ss[q2]),
        forall|q: int| 0 <= q < ss.len() ==> kw_of_section(#[trigger] ss[q]) != kw,
        kw == SectionKw::Resource || (exists|q: int|
            0 <= q < ss.len() && kw_of_section(#[trigger] ss[q]) == SectionKw::Resource),
        kw == SectionKw::State || (exists|q: int|
            0 <= q < ss.len() && kw_of_section(#[trigger] ss[q]) == SectionKw::State),
        kw == SectionKw::Intermediate || (exists|q: int|
            0 <= q < ss.len() && kw_of_section(#[trigger] ss[q]) == SectionKw::Intermediate),
        kw == SectionKw::Reference || (exists|q: int|
            0 <= q < ss.len() && kw_of_section(#[trigger] ss[q]) == SectionKw::Reference),
        kw == SectionKw::Transition || (exists|q: int|
            0 <= q < ss.len() && kw_of_section(#[trigger] ss[q]) == SectionKw::Transition),
        kw == SectionKw::Overlay || (exists|q: int|
            0 <= q < ss.len() && kw_of_section(#[trigger] ss[q]) == SectionKw::Overlay),
    ensures
        parse_doc(text_of_toks(sections_toks(ss, 0))) == Err::<FlowV, ParseError>(
            g_err(sections_toks(ss, 0).len() as int, GrammarKind::MissingSection(kw)),
        ),
{
    let ts = sections_toks(ss, 0);
    lemma_sections_toks_wf(ss, 0);
    lemma_lex_text(ts);
    assert(ts.skip(0) =~= ts);
    lemma_parse_sections_toks(ts, 0, ss, 0, empty_slots());
    let done = apply_sections(empty_slots(), ss, 0);
    lemma_apply_sections_filled(empty_slots(), ss, 0, SectionKw::Resource);
    lemma_apply_sections_filled(empty_slots(), ss, 0, SectionKw::State);
    lemma_apply_sections_filled(empty_slots(), ss, 0, SectionKw::Intermediate);
    lemma_apply_sections_filled(empty_slots(), ss, 0, SectionKw::Reference);
    lemma_apply_sections_filled(empty_slots(), ss, 0, SectionKw::Transition);
    lemma_apply_sections_filled(empty_slots(), ss, 0, SectionKw::Overlay);
    assert(!slot_filled(done, kw)) by {
        if exists|q: int| 0 <= q < ss.len() && kw_of_section(#[trigger] ss[q]) == kw {
            let q = choose|q: int| 0 <= q < ss.len() && kw_of_section(#[trigger] ss[q]) == kw;
            assert(kw_of_section(ss[q]) != kw);
        }
    }
}

/// The canonical mirror of an identifier parses back to it: the stored
/// `::`-joined text, read as a lone identifier, is the identifier.
pub proof fn lemma_ident_text_roundtrip(p: IdentV)
    requires
        wf_ident(p),
    ensures
        crate::parse::parse_ident_text(ident_text(p)) == Ok::<IdentV, ParseError>(p),
{
    lemma_lex_ident_text(p, 0);
    let ts = toks_of_ident(p);
    lemma_toks_of_ident_len(p, 0);
    assert(region_at(ts, 0, ts)) by {
        assert(ts.subrange(0, ts.len() as int) =~= ts);
    }
    lemma_parse_ident_at(ts, 0, p);
}

} // verus!
