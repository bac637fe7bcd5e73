//! The grammar layer: from a token stream to a `Flow`, or to a structured
//! error.
//!
//! The document grammar is
//!
//! ```text
//! document   := section*                       (each keyword exactly once)
//! section    := keyword `:` `[` items `]`
//! items      := (item (`,` item)* `,`?)?
//! resource, state, intermediate := ident
//! reference  := ident `-<` `mut`? ident
//! transition := ident `>-` ident? `->` ident
//! overlay    := ident `^` ident
//! ident      := word (`::` word)*
//! ```
//!
//! The optional label of a transition is told apart by one token of
//! lookahead: after `>-`, a token that starts with `-` (that is `->` or
//! `-<`) means no label follows.
//!
//! The specification functions in this file are the definition of the
//! grammar; each executable function returns exactly what its
//! specification function denotes.

use vstd::prelude::*;
use crate::token::{Tok, TokM, toks_view, wf_toks, lex_of};
use crate::token::lemma_lex_from_wf;
use crate::ast::{Ident, IdentV, wf_segment, wf_ident};
use crate::ast::{Resource, State, Intermediate, Reference, Transition, Overlay, Item, Flow};
use crate::ast::{ReferenceV, TransitionV, OverlayV, FlowV};
use crate::ast::{wf_reference, wf_transition, wf_overlay};

verus! {

/// The six section keywords.
#[derive(Debug, Clone, Copy, PartialEq, Eq, Structural)]
pub enum SectionKw {
    Resource,
    State,
    Intermediate,
    Reference,
    Transition,
    Overlay,
}

/// What the grammar wanted at the point where it failed.
#[derive(Debug, Clone, Copy, PartialEq, Eq, Structural)]
pub enum GrammarKind {
    /// One of the six section keywords.
    SectionKeyword,
    /// The colon after a section keyword.
    Colon,
    /// The bracket opening a section body.
    OpenBracket,
    /// An identifier word.
    Identifier,
    /// The mark `-<` of a reference.
    SubLt,
    /// The mark `>-` of a transition.
    GtSub,
    /// The mark `->` of a transition.
    RArrow,
    /// The mark `^` of an overlay.
    Caret,
    /// A comma or the bracket closing a section body.
    CommaOrClose,
    /// The end of the input.
    End,
    /// This section keyword occurred a second time.
    DuplicateSection(SectionKw),
    /// This required section was never given.
    MissingSection(SectionKw),
}

/// A parse failure: either the text could not be tokenized at all, or the
/// tokens do not fit the grammar.
#[derive(Debug, Clone, Copy, PartialEq, Eq, Structural)]
pub enum ParseError {
    /// No token of the grammar starts at character position `pos`.
    Lexical { pos: usize },
    /// The token at index `at` (the end of input when `at` is the token
    /// count) is not what the grammar wanted there.
    Grammar { at: usize, kind: GrammarKind },
}

/// Builds a grammar error at token index `at`.
pub open spec fn g_err(at: int, kind: GrammarKind) -> ParseError {
    ParseError::Grammar { at: at as usize, kind }
}

/// Parses the identifier that starts at token `i`: a word other than
/// `mut`, then any number of `::`-joined further words.  Returns the
/// identifier and the index of the first token after it.
pub open spec fn parse_segs(ts: Seq<TokM>, i: int) -> Result<(IdentV, int), ParseError>
    decreases ts.len() - i when 0 <= i <= ts.len()
{
    if i >= ts.len() {
        Err(g_err(i, GrammarKind::Identifier))
    } else {
        match ts[i] {
            TokM::Word(w) => if w == "mut"@ {
                Err(g_err(i, GrammarKind::Identifier))
            } else if i + 1 < ts.len() && (ts[i + 1] matches TokM::PathSep) {
                match parse_segs(ts, i + 2) {
                    Err(e) => Err(e),
                    Ok((rest, j)) => Ok((seq![w] + rest, j)),
                }
            } else {
                Ok((seq![w], i + 1))
            },
            _ => Err(g_err(i, GrammarKind::Identifier)),
        }
    }
}

pub proof fn lemma_parse_segs_bounds(ts: Seq<TokM>, i: int)
    requires
        0 <= i <= ts.len(),
    ensures
        parse_segs(ts, i) matches Ok(r) ==> i < r.1 <= ts.len(),
        wf_toks(ts) ==> (parse_segs(ts, i) matches Ok(r) ==> wf_ident(r.0)),
    decreases ts.len() - i,
{
    if i < ts.len() {
        match ts[i] {
            TokM::Word(w) => {
                if w != "mut"@ && i + 1 < ts.len() && (ts[i + 1] matches TokM::PathSep) {
                    lemma_parse_segs_bounds(ts, i + 2);
                    if let Ok((rest, _j)) = parse_segs(ts, i + 2) {
                        if wf_toks(ts) {
                            assert(crate::token::wf_tok(ts[i]));
                            let whole = seq![w] + rest;
                            assert(whole[0] == w);
                            assert(forall|k: int|
                                1 <= k < whole.len() ==> #[trigger] whole[k] == rest[k - 1]);
                        }
                    }
                } else if w != "mut"@ {
                    if wf_toks(ts) {
                        assert(crate::token::wf_tok(ts[i]));
                        assert(seq![w][0] == w);
                    }
                }
            },
            _ => {},
        }
    }
}

/// Does this token start with the character `-`?  True exactly for `->`
/// and `-<`; this is the one token of lookahead that tells "no label"
/// from "label" after the `>-` of a transition.
pub open spec fn starts_with_dash(t: TokM) -> bool {
    (t matches TokM::RArrow) || (t matches TokM::SubLt)
}

/// Parses the reference that starts at token `i`:
/// `state -< [mut] resource`.
pub open spec fn parse_reference_at(ts: Seq<TokM>, i: int) -> Result<(ReferenceV, int), ParseError> {
    match parse_segs(ts, i) {
        Err(e) => Err(e),
        Ok((st, j)) => if j < ts.len() && (ts[j] matches TokM::SubLt) {
            if j + 1 < ts.len() && ts[j + 1] == TokM::Word("mut"@) {
                match parse_segs(ts, j + 2) {
                    Err(e) => Err(e),
                    Ok((rs, k)) => Ok((ReferenceV { state: st, mutable: true, resource: rs }, k)),
                }
            } else {
                match parse_segs(ts, j + 1) {
                    Err(e) => Err(e),
                    Ok((rs, k)) => Ok((ReferenceV { state: st, mutable: false, resource: rs }, k)),
                }
            }
        } else {
            Err(g_err(j, GrammarKind::SubLt))
        },
    }
}

/// Parses the transition that starts at token `i`:
/// `from >- [label] -> to`.
pub open spec fn parse_transition_at(ts: Seq<TokM>, i: int) -> Result<
    (TransitionV, int),
    ParseError,
> {
    match parse_segs(ts, i) {
        Err(e) => Err(e),
        Ok((from, j)) => if j < ts.len() && (ts[j] matches TokM::GtSub) {
            if j + 1 < ts.len() && starts_with_dash(ts[j + 1]) {
                if (ts[j + 1] matches TokM::RArrow) {
                    match parse_segs(ts, j + 2) {
                        Err(e) => Err(e),
                        Ok((to, k)) => Ok(
                            (TransitionV { from, intermediate: Option::None, to }, k),
                        ),
                    }
                } else {
                    Err(g_err(j + 1, GrammarKind::RArrow))
                }
            } else {
                match parse_segs(ts, j + 1) {
                    Err(e) => Err(e),
                    Ok((label, k)) => if k < ts.len() && (ts[k] matches TokM::RArrow) {
                        match parse_segs(ts, k + 1) {
                            Err(e) => Err(e),
                            Ok((to, m)) => Ok(
                                (TransitionV { from, intermediate: Option::Some(label), to }, m),
                            ),
                        }
                    } else {
                        Err(g_err(k, GrammarKind::RArrow))
                    },
                }
            }
        } else {
            Err(g_err(j, GrammarKind::GtSub))
        },
    }
}

/// Parses the overlay that starts at token `i`: `back ^ front`.
pub open spec fn parse_overlay_at(ts: Seq<TokM>, i: int) -> Result<(OverlayV, int), ParseError> {
    match parse_segs(ts, i) {
        Err(e) => Err(e),
        Ok((back, j)) => if j < ts.len() && (ts[j] matches TokM::Caret) {
            match parse_segs(ts, j + 1) {
                Err(e) => Err(e),
                Ok((front, k)) => Ok((OverlayV { back, front }, k)),
            }
        } else {
            Err(g_err(j, GrammarKind::Caret))
        },
    }
}

pub proof fn lemma_parse_reference_bounds(ts: Seq<TokM>, i: int)
    requires
        0 <= i <= ts.len(),
    ensures
        parse_reference_at(ts, i) matches Ok(r) ==> i < r.1 <= ts.len(),
        wf_toks(ts) ==> (parse_reference_at(ts, i) matches Ok(r) ==> wf_reference(r.0)),
{
    lemma_parse_segs_bounds(ts, i);
    if let Ok((_st, j)) = parse_segs(ts, i) {
        if j < ts.len() {
            lemma_parse_segs_bounds(ts, j + 1);
            if j + 1 < ts.len() {
                lemma_parse_segs_bounds(ts, j + 2);
            }
        }
    }
}

pub proof fn lemma_parse_transition_bounds(ts: Seq<TokM>, i: int)
    requires
        0 <= i <= ts.len(),
    ensures
        parse_transition_at(ts, i) matches Ok(r) ==> i < r.1 <= ts.len(),
        wf_toks(ts) ==> (parse_transition_at(ts, i) matches Ok(r) ==> wf_transition(r.0)),
{
    lemma_parse_segs_bounds(ts, i);
    if let Ok((_from, j)) = parse_segs(ts, i) {
        if j < ts.len() {
            if j + 1 < ts.len() {
                lemma_parse_segs_bounds(ts, j + 2);
            }
            lemma_parse_segs_bounds(ts, j + 1);
            if let Ok((_label, k)) = parse_segs(ts, j + 1) {
                if k < ts.len() {
                    lemma_parse_segs_bounds(ts, k + 1);
                }
            }
        }
    }
}

pub proof fn lemma_parse_overlay_bounds(ts: Seq<TokM>, i: int)
    requires
        0 <= i <= ts.len(),
    ensures
        parse_overlay_at(ts, i) matches Ok(r) ==> i < r.1 <= ts.len(),
        wf_toks(ts) ==> (parse_overlay_at(ts, i) matches Ok(r) ==> wf_overlay(r.0)),
{
    lemma_parse_segs_bounds(ts, i);
    if let Ok((_back, j)) = parse_segs(ts, i) {
        if j < ts.len() {
            lemma_parse_segs_bounds(ts, j + 1);
        }
    }
}

/// Parses the comma-separated identifiers up to and over the closing
/// bracket.  A single trailing comma is accepted.
pub open spec fn parse_path_list(ts: Seq<TokM>, i: int) -> Result<(Seq<IdentV>, int), ParseError>
    decreases ts.len() - i when 0 <= i <= ts.len()
{
    if i < ts.len() && (ts[i] matches TokM::CloseBracket) {
        Ok((Seq::empty(), i + 1))
    } else {
        match parse_segs(ts, i) {
            Err(e) => Err(e),
            Ok((p, j)) => {
                proof {
                    lemma_parse_segs_bounds(ts, i);
                }
                if j < ts.len() && (ts[j] matches TokM::Comma) {
                    match parse_path_list(ts, j + 1) {
                        Err(e) => Err(e),
                        Ok((rest, k)) => Ok((seq![p] + rest, k)),
                    }
                } else if j < ts.len() && (ts[j] matches TokM::CloseBracket) {
                    Ok((seq![p], j + 1))
                } else {
                    Err(g_err(j, GrammarKind::CommaOrClose))
                }
            },
        }
    }
}

/// Parses the comma-separated references up to and over the closing
/// bracket.
pub open spec fn parse_ref_list(ts: Seq<TokM>, i: int) -> Result<(Seq<ReferenceV>, int), ParseError>
    decreases ts.len() - i when 0 <= i <= ts.len()
{
    if i < ts.len() && (ts[i] matches TokM::CloseBracket) {
        Ok((Seq::empty(), i + 1))
    } else {
        match parse_reference_at(ts, i) {
            Err(e) => Err(e),
            Ok((p, j)) => {
                proof {
                    lemma_parse_reference_bounds(ts, i);
                }
                if j < ts.len() && (ts[j] matches TokM::Comma) {
                    match parse_ref_list(ts, j + 1) {
                        Err(e) => Err(e),
                        Ok((rest, k)) => Ok((seq![p] + rest, k)),
                    }
                } else if j < ts.len() && (ts[j] matches TokM::CloseBracket) {
                    Ok((seq![p], j + 1))
                } else {
                    Err(g_err(j, GrammarKind::CommaOrClose))
                }
            },
        }
    }
}

/// Parses the comma-separated transitions up to and over the closing
/// bracket.
pub open spec fn parse_tr_list(ts: Seq<TokM>, i: int) -> Result<(Seq<TransitionV>, int), ParseError>
    decreases ts.len() - i when 0 <= i <= ts.len()
{
    if i < ts.len() && (ts[i] matches TokM::CloseBracket) {
        Ok((Seq::empty(), i + 1))
    } else {
        match parse_transition_at(ts, i) {
            Err(e) => Err(e),
            Ok((p, j)) => {
                proof {
                    lemma_parse_transition_bounds(ts, i);
                }
                if j < ts.len() && (ts[j] matches TokM::Comma) {
                    match parse_tr_list(ts, j + 1) {
                        Err(e) => Err(e),
                        Ok((rest, k)) => Ok((seq![p] + rest, k)),
                    }
                } else if j < ts.len() && (ts[j] matches TokM::CloseBracket) {
                    Ok((seq![p], j + 1))
                } else {
                    Err(g_err(j, GrammarKind::CommaOrClose))
                }
            },
        }
    }
}

/// Parses the comma-separated overlays up to and over the closing
/// bracket.
pub open spec fn parse_ov_list(ts: Seq<TokM>, i: int) -> Result<(Seq<OverlayV>, int), ParseError>
    decreases ts.len() - i when 0 <= i <= ts.len()
{
    if i < ts.len() && (ts[i] matches TokM::CloseBracket) {
        Ok((Seq::empty(), i + 1))
    } else {
        match parse_overlay_at(ts, i) {
            Err(e) => Err(e),
            Ok((p, j)) => {
                proof {
                    lemma_parse_overlay_bounds(ts, i);
                }
                if j < ts.len() && (ts[j] matches TokM::Comma) {
                    match parse_ov_list(ts, j + 1) {
                        Err(e) => Err(e),
                        Ok((rest, k)) => Ok((seq![p] + rest, k)),
                    }
                } else if j < ts.len() && (ts[j] matches TokM::CloseBracket) {
                    Ok((seq![p], j + 1))
                } else {
                    Err(g_err(j, GrammarKind::CommaOrClose))
                }
            },
        }
    }
}

pub proof fn lemma_parse_path_list_bounds(ts: Seq<TokM>, i: int)
    requires
        0 <= i <= ts.len(),
    ensures
        parse_path_list(ts, i) matches Ok(r) ==> i < r.1 <= ts.len(),
        wf_toks(ts) ==> (parse_path_list(ts, i) matches Ok(r) ==> forall|k: int|
            0 <= k < r.0.len() ==> wf_ident(#[trigger] r.0[k])),
    decreases ts.len() - i,
{
    if i < ts.len() && (ts[i] matches TokM::CloseBracket) {
    } else {
        lemma_parse_segs_bounds(ts, i);
        if let Ok((p, j)) = parse_segs(ts, i) {
            if j < ts.len() && (ts[j] matches TokM::Comma) {
                lemma_parse_path_list_bounds(ts, j + 1);
                if let Ok((rest, _k)) = parse_path_list(ts, j + 1) {
                    let whole = seq![p] + rest;
                    assert(whole[0] == p);
                    assert(forall|k: int|
                        1 <= k < whole.len() ==> #[trigger] whole[k] == rest[k - 1]);
                }
            } else {
                let whole = seq![p];
                assert(whole[0] == p);
            }
        }
    }
}

pub proof fn lemma_parse_ref_list_bounds(ts: Seq<TokM>, i: int)
    requires
        0 <= i <= ts.len(),
    ensures
        parse_ref_list(ts, i) matches Ok(r) ==> i < r.1 <= ts.len(),
        wf_toks(ts) ==> (parse_ref_list(ts, i) matches Ok(r) ==> forall|k: int|
            0 <= k < r.0.len() ==> wf_reference(#[trigger] r.0[k])),
    decreases ts.len() - i,
{
    if i < ts.len() && (ts[i] matches TokM::CloseBracket) {
    } else {
        lemma_parse_reference_bounds(ts, i);
        if let Ok((p, j)) = parse_reference_at(ts, i) {
            if j < ts.len() && (ts[j] matches TokM::Comma) {
                lemma_parse_ref_list_bounds(ts, j + 1);
                if let Ok((rest, _k)) = parse_ref_list(ts, j + 1) {
                    let whole = seq![p] + rest;
                    assert(whole[0] == p);
                    assert(forall|k: int|
                        1 <= k < whole.len() ==> #[trigger] whole[k] == rest[k - 1]);
                }
            } else {
                let whole = seq![p];
                assert(whole[0] == p);
            }
        }
    }
}

pub proof fn lemma_parse_tr_list_bounds(ts: Seq<TokM>, i: int)
    requires
        0 <= i <= ts.len(),
    ensures
        parse_tr_list(ts, i) matches Ok(r) ==> i < r.1 <= ts.len(),
        wf_toks(ts) ==> (parse_tr_list(ts, i) matches Ok(r) ==> forall|k: int|
            0 <= k < r.0.len() ==> wf_transition(#[trigger] r.0[k])),
    decreases ts.len() - i,
{
    if i < ts.len() && (ts[i] matches TokM::CloseBracket) {
    } else {
        lemma_parse_transition_bounds(ts, i);
        if let Ok((p, j)) = parse_transition_at(ts, i) {
            if j < ts.len() && (ts[j] matches TokM::Comma) {
                lemma_parse_tr_list_bounds(ts, j + 1);
                if let Ok((rest, _k)) = parse_tr_list(ts, j + 1) {
                    let whole = seq![p] + rest;
                    assert(whole[0] == p);
                    assert(forall|k: int|
                        1 <= k < whole.len() ==> #[trigger] whole[k] == rest[k - 1]);
                }
            } else {
                let whole = seq![p];
                assert(whole[0] == p);
            }
        }
    }
}

pub proof fn lemma_parse_ov_list_bounds(ts: Seq<TokM>, i: int)
    requires
        0 <= i <= ts.len(),
    ensures
        parse_ov_list(ts, i) matches Ok(r) ==> i < r.1 <= ts.len(),
        wf_toks(ts) ==> (parse_ov_list(ts, i) matches Ok(r) ==> forall|k: int|
            0 <= k < r.0.len() ==> wf_overlay(#[trigger] r.0[k])),
    decreases ts.len() - i,
{
    if i < ts.len() && (ts[i] matches TokM::CloseBracket) {
    } else {
        lemma_parse_overlay_bounds(ts, i);
        if let Ok((p, j)) = parse_overlay_at(ts, i) {
            if j < ts.len() && (ts[j] matches TokM::Comma) {
                lemma_parse_ov_list_bounds(ts, j + 1);
                if let Ok((rest, _k)) = parse_ov_list(ts, j + 1) {
                    let whole = seq![p] + rest;
                    assert(whole[0] == p);
                    assert(forall|k: int|
                        1 <= k < whole.len() ==> #[trigger] whole[k] == rest[k - 1]);
                }
            } else {
                let whole = seq![p];
                assert(whole[0] == p);
            }
        }
    }
}

/// What the document loop has gathered so far: one slot per keyword.
#[verifier::ext_equal]
pub struct SlotsV {
    pub resources: Option<Seq<IdentV>>,
    pub states: Option<Seq<IdentV>>,
    pub intermediates: Option<Seq<IdentV>>,
    pub references: Option<Seq<ReferenceV>>,
    pub transitions: Option<Seq<TransitionV>>,
    pub overlays: Option<Seq<OverlayV>>,
}

/// No section seen yet.
pub open spec fn empty_slots() -> SlotsV {
    SlotsV {
        resources: Option::None,
        states: Option::None,
        intermediates: Option::None,
        references: Option::None,
        transitions: Option::None,
        overlays: Option::None,
    }
}

/// At the end of the input, every slot must be filled; the first empty
/// one, in the fixed order below, is the missing section that is
/// reported.
pub open spec fn finish_sections(acc: SlotsV, at: int) -> Result<FlowV, ParseError> {
    if acc.resources is None {
        Err(g_err(at, GrammarKind::MissingSection(SectionKw::Resource)))
    } else if acc.states is None {
        Err(g_err(at, GrammarKind::MissingSection(SectionKw::State)))
    } else if acc.intermediates is None {
        Err(g_err(at, GrammarKind::MissingSection(SectionKw::Intermediate)))
    } else if acc.references is None {
        Err(g_err(at, GrammarKind::MissingSection(SectionKw::Reference)))
    } else if acc.transitions is None {
        Err(g_err(at, GrammarKind::MissingSection(SectionKw::Transition)))
    } else if acc.overlays is None {
        Err(g_err(at, GrammarKind::MissingSection(SectionKw::Overlay)))
    } else {
        Ok(
            FlowV {
                resources: acc.resources.unwrap(),
                states: acc.states.unwrap(),
                intermediates: acc.intermediates.unwrap(),
                references: acc.references.unwrap(),
                transitions: acc.transitions.unwrap(),
                overlays: acc.overlays.unwrap(),
            },
        )
    }
}

/// The document loop: while tokens remain, the next one must open a
/// section whose keyword was not seen yet; its body is parsed and the
/// matching slot is filled.
pub open spec fn parse_sections(ts: Seq<TokM>, i: int, acc: SlotsV) -> Result<FlowV, ParseError>
    decreases ts.len() - i when 0 <= i <= ts.len()
{
    if i >= ts.len() {
        finish_sections(acc, i)
    } else {
        match ts[i] {
            TokM::Word(w) => if w == "resource"@ {
                if acc.resources is Some {
                    Err(g_err(i, GrammarKind::DuplicateSection(SectionKw::Resource)))
                } else if !(i + 1 < ts.len() && (ts[i + 1] matches TokM::Colon)) {
                    Err(g_err(i + 1, GrammarKind::Colon))
                } else if !(i + 2 < ts.len() && (ts[i + 2] matches TokM::OpenBracket)) {
                    Err(g_err(i + 2, GrammarKind::OpenBracket))
                } else {
                    match parse_path_list(ts, i + 3) {
                        Err(e) => Err(e),
                        Ok((items, j)) => {
                            proof {
                                lemma_parse_path_list_bounds(ts, i + 3);
                            }
                            parse_sections(
                                ts,
                                j,
                                SlotsV { resources: Option::Some(items), ..acc },
                            )
                        },
                    }
                }
            } else if w == "state"@ {
                if acc.states is Some {
                    Err(g_err(i, GrammarKind::DuplicateSection(SectionKw::State)))
                } else if !(i + 1 < ts.len() && (ts[i + 1] matches TokM::Colon)) {
                    Err(g_err(i + 1, GrammarKind::Colon))
                } else if !(i + 2 < ts.len() && (ts[i + 2] matches TokM::OpenBracket)) {
                    Err(g_err(i + 2, GrammarKind::OpenBracket))
                } else {
                    match parse_path_list(ts, i + 3) {
                        Err(e) => Err(e),
                        Ok((items, j)) => {
                            proof {
                                lemma_parse_path_list_bounds(ts, i + 3);
                            }
                            parse_sections(ts, j, SlotsV { states: Option::Some(items), ..acc })
                        },
                    }
                }
            } else if w == "intermediate"@ {
                if acc.intermediates is Some {
                    Err(g_err(i, GrammarKind::DuplicateSection(SectionKw::Intermediate)))
                } else if !(i + 1 < ts.len() && (ts[i + 1] matches TokM::Colon)) {
                    Err(g_err(i + 1, GrammarKind::Colon))
                } else if !(i + 2 < ts.len() && (ts[i + 2] matches TokM::OpenBracket)) {
                    Err(g_err(i + 2, GrammarKind::OpenBracket))
                } else {
                    match parse_path_list(ts, i + 3) {
                        Err(e) => Err(e),
                        Ok((items, j)) => {
                            proof {
                                lemma_parse_path_list_bounds(ts, i + 3);
                            }
                            parse_sections(
                                ts,
                                j,
                                SlotsV { intermediates: Option::Some(items), ..acc },
                            )
                        },
                    }
                }
            } else if w == "reference"@ {
                if acc.references is Some {
                    Err(g_err(i, GrammarKind::DuplicateSection(SectionKw::Reference)))
                } else if !(i + 1 < ts.len() && (ts[i + 1] matches TokM::Colon)) {
                    Err(g_err(i + 1, GrammarKind::Colon))
                } else if !(i + 2 < ts.len() && (ts[i + 2] matches TokM::OpenBracket)) {
                    Err(g_err(i + 2, GrammarKind::OpenBracket))
                } else {
                    match parse_ref_list(ts, i + 3) {
                        Err(e) => Err(e),
                        Ok((items, j)) => {
                            proof {
                                lemma_parse_ref_list_bounds(ts, i + 3);
                            }
                            parse_sections(
                                ts,
                                j,
                                SlotsV { references: Option::Some(items), ..acc },
                            )
                        },
                    }
                }
            } else if w == "transition"@ {
                if acc.transitions is Some {
                    Err(g_err(i, GrammarKind::DuplicateSection(SectionKw::Transition)))
                } else if !(i + 1 < ts.len() && (ts[i + 1] matches TokM::Colon)) {
                    Err(g_err(i + 1, GrammarKind::Colon))
                } else if !(i + 2 < ts.len() && (ts[i + 2] matches TokM::OpenBracket)) {
                    Err(g_err(i + 2, GrammarKind::OpenBracket))
                } else {
                    match parse_tr_list(ts, i + 3) {
                        Err(e) => Err(e),
                        Ok((items, j)) => {
                            proof {
                                lemma_parse_tr_list_bounds(ts, i + 3);
                            }
                            parse_sections(
                                ts,
                                j,
                                SlotsV { transitions: Option::Some(items), ..acc },
                            )
                        },
                    }
                }
            } else if w == "overlay"@ {
                if acc.overlays is Some {
                    Err(g_err(i, GrammarKind::DuplicateSection(SectionKw::Overlay)))
                } else if !(i + 1 < ts.len() && (ts[i + 1] matches TokM::Colon)) {
                    Err(g_err(i + 1, GrammarKind::Colon))
                } else if !(i + 2 < ts.len() && (ts[i + 2] matches TokM::OpenBracket)) {
                    Err(g_err(i + 2, GrammarKind::OpenBracket))
                } else {
                    match parse_ov_list(ts, i + 3) {
                        Err(e) => Err(e),
                        Ok((items, j)) => {
                            proof {
                                lemma_parse_ov_list_bounds(ts, i + 3);
                            }
                            parse_sections(ts, j, SlotsV { overlays: Option::Some(items), ..acc })
                        },
                    }
                }
            } else {
                Err(g_err(i, GrammarKind::SectionKeyword))
            },
            _ => Err(g_err(i, GrammarKind::SectionKeyword)),
        }
    }
}

/// The whole token stream as one document.
pub open spec fn parse_flow(ts: Seq<TokM>) -> Result<FlowV, ParseError> {
    parse_sections(ts, 0, empty_slots())
}

/// A document from raw text: tokenize, then parse.
pub open spec fn parse_doc(s: Seq<char>) -> Result<FlowV, ParseError> {
    match lex_of(s) {
        Err(p) => Err(ParseError::Lexical { pos: p as usize }),
        Ok(ts) => parse_flow(ts),
    }
}

pub proof fn lemma_parse_sections_wf(ts: Seq<TokM>, i: int, acc: SlotsV)
    requires
        0 <= i <= ts.len(),
        wf_toks(ts),
        wf_slots(acc),
    ensures
        parse_sections(ts, i, acc) matches Ok(f) ==> f.wf(),
    decreases ts.len() - i,
{
    if i >= ts.len() {
    } else {
        match ts[i] {
            TokM::Word(w) => {
                if w == "resource"@ || w == "state"@ || w == "intermediate"@ {
                    if i + 2 < ts.len() {
                        lemma_parse_path_list_bounds(ts, i + 3);
                        if let Ok((items, j)) = parse_path_list(ts, i + 3) {
                            if w == "resource"@ && acc.resources is None {
                                lemma_parse_sections_wf(
                                    ts,
                                    j,
                                    SlotsV { resources: Option::Some(items), ..acc },
                                );
                            }
                            if w == "state"@ && acc.states is None {
                                lemma_parse_sections_wf(
                                    ts,
                                    j,
                                    SlotsV { states: Option::Some(items), ..acc },
                                );
                            }
                            if w == "intermediate"@ && acc.intermediates is None {
                                lemma_parse_sections_wf(
                                    ts,
                                    j,
                                    SlotsV { intermediates: Option::Some(items), ..acc },
                                );
                            }
                        }
                    }
                } else if w == "reference"@ {
                    if i + 2 < ts.len() {
                        lemma_parse_ref_list_bounds(ts, i + 3);
                        if let Ok((items, j)) = parse_ref_list(ts, i + 3) {
                            if acc.references is None {
                                lemma_parse_sections_wf(
                                    ts,
                                    j,
                                    SlotsV { references: Option::Some(items), ..acc },
                                );
                            }
                        }
                    }
                } else if w == "transition"@ {
                    if i + 2 < ts.len() {
                        lemma_parse_tr_list_bounds(ts, i + 3);
                        if let Ok((items, j)) = parse_tr_list(ts, i + 3) {
                            if acc.transitions is None {
                                lemma_parse_sections_wf(
                                    ts,
                                    j,
                                    SlotsV { transitions: Option::Some(items), ..acc },
                                );
                            }
                        }
                    }
                } else if w == "overlay"@ {
                    if i + 2 < ts.len() {
                        lemma_parse_ov_list_bounds(ts, i + 3);
                        if let Ok((items, j)) = parse_ov_list(ts, i + 3) {
                            if acc.overlays is None {
                                lemma_parse_sections_wf(
                                    ts,
                                    j,
                                    SlotsV { overlays: Option::Some(items), ..acc },
                                );
                            }
                        }
                    }
                }
            },
            _ => {},
        }
    }
}

/// Every filled slot holds only well-formed items.
pub open spec fn wf_slots(acc: SlotsV) -> bool {
    &&& match acc.resources {
        Option::None => true,
        Option::Some(v) => forall|k: int| 0 <= k < v.len() ==> wf_ident(#[trigger] v[k]),
    }
    &&& match acc.states {
        Option::None => true,
        Option::Some(v) => forall|k: int| 0 <= k < v.len() ==> wf_ident(#[trigger] v[k]),
    }
    &&& match acc.intermediates {
        Option::None => true,
        Option::Some(v) => forall|k: int| 0 <= k < v.len() ==> wf_ident(#[trigger] v[k]),
    }
    &&& match acc.references {
        Option::None => true,
        Option::Some(v) => forall|k: int| 0 <= k < v.len() ==> wf_reference(#[trigger] v[k]),
    }
    &&& match acc.transitions {
        Option::None => true,
        Option::Some(v) => forall|k: int| 0 <= k < v.len() ==> wf_transition(#[trigger] v[k]),
    }
    &&& match acc.overlays {
        Option::None => true,
        Option::Some(v) => forall|k: int| 0 <= k < v.len() ==> wf_overlay(#[trigger] v[k]),
    }
}

/// Whatever a successful parse of raw text returns is well formed.
pub proof fn lemma_parse_doc_wf(s: Seq<char>)
    ensures
        parse_doc(s) matches Ok(f) ==> f.wf(),
{
    lemma_lex_from_wf(s, 0);
    if let Ok(ts) = lex_of(s) {
        lemma_parse_sections_wf(ts, 0, empty_slots());
    }
}

/// Does this word spell the given keyword?
fn word_is(w: &String, kw: &str) -> (r: bool)
    ensures
        r == (w@ == kw@),
{
    let k = String::from_str(kw);
    *w == k
}

/// Mirrors `parse_segs`.
pub fn parse_segs_x(ts: &Vec<Tok>, i: usize) -> (r: Result<(Ident, usize), ParseError>)
    requires
        i <= ts@.len(),
    ensures
        match (r, parse_segs(toks_view(ts@), i as int)) {
            (Ok((p, j)), Ok(s)) => p@ == s.0 && j as int == s.1 && i < j <= ts@.len(),
            (Err(e), Err(se)) => e == se,
            _ => false,
        },
    decreases ts@.len() - i,
{
    let ghost tsv = toks_view(ts@);
    proof {
        lemma_parse_segs_bounds(tsv, i as int);
    }
    let n = ts.len();
    if i >= n {
        Err(ParseError::Grammar { at: i, kind: GrammarKind::Identifier })
    } else {
        proof {
            assert(tsv[i as int] == ts@[i as int]@);
        }
        match &ts[i] {
            Tok::Word(w) => {
                if word_is(w, "mut") {
                    Err(ParseError::Grammar { at: i, kind: GrammarKind::Identifier })
                } else {
                    proof {
                        if i + 1 < n {
                            assert(tsv[i as int + 1] == ts@[i as int + 1]@);
                        }
                    }
                    let has_sep = i + 1 < n && matches!(&ts[i + 1], Tok::PathSep);
                    if has_sep {
                        match parse_segs_x(ts, i + 2) {
                            Err(e) => Err(e),
                            Ok((rest, j)) => {
                                let ghost rest_v = rest@;
                                let mut rest = rest;
                                rest.segments.insert(0, w.clone());
                                proof {
                                    assert(rest@ =~= seq![w@] + rest_v) by {
                                        assert(forall|k: int|
                                            0 <= k < rest@.len() ==> rest@[k] == (seq![w@]
                                                + rest_v)[k]) by {
                                            assert(forall|k: int|
                                                1 <= k < rest@.len()
                                                    ==> rest.segments@[k].deep_view()
                                                    == #[trigger] rest_v[k - 1]);
                                        }
                                    }
                                }
                                Ok((rest, j))
                            },
                        }
                    } else {
                        let seg = w.clone();
                        let one = Ident { segments: vec![seg] };
                        proof {
                            assert(one@ =~= seq![w@]);
                        }
                        Ok((one, i + 1))
                    }
                }
            },
            _ => Err(ParseError::Grammar { at: i, kind: GrammarKind::Identifier }),
        }
    }
}

/// Mirrors `parse_reference_at`.
pub fn parse_reference_x(ts: &Vec<Tok>, i: usize) -> (r: Result<(Reference, usize), ParseError>)
    requires
        i <= ts@.len(),
    ensures
        match (r, parse_reference_at(toks_view(ts@), i as int)) {
            (Ok((x, j)), Ok(s)) => x@ == s.0 && j as int == s.1 && i < j <= ts@.len(),
            (Err(e), Err(se)) => e == se,
            _ => false,
        },
{
    let ghost tsv = toks_view(ts@);
    proof {
        lemma_parse_reference_bounds(tsv, i as int);
    }
    let n = ts.len();
    match parse_segs_x(ts, i) {
        Err(e) => Err(e),
        Ok((st, j)) => {
            proof {
                if j < n {
                    assert(tsv[j as int] == ts@[j as int]@);
                }
            }
            if j < n && matches!(&ts[j], Tok::SubLt) {
                proof {
                    if j + 1 < n {
                        assert(tsv[j as int + 1] == ts@[j as int + 1]@);
                    }
                }
                let has_mut = j + 1 < n && (match &ts[j + 1] {
                    Tok::Word(w) => word_is(w, "mut"),
                    _ => false,
                });
                if has_mut {
                    match parse_segs_x(ts, j + 2) {
                        Err(e) => Err(e),
                        Ok((rs, k)) => Ok(
                            (
                                Reference {
                                    state: State(st),
                                    mutable: true,
                                    resource: Resource(rs),
                                },
                                k,
                            ),
                        ),
                    }
                } else {
                    match parse_segs_x(ts, j + 1) {
                        Err(e) => Err(e),
                        Ok((rs, k)) => Ok(
                            (
                                Reference {
                                    state: State(st),
                                    mutable: false,
                                    resource: Resource(rs),
                                },
                                k,
                            ),
                        ),
                    }
                }
            } else {
                Err(ParseError::Grammar { at: j, kind: GrammarKind::SubLt })
            }
        },
    }
}

/// Mirrors `parse_transition_at`.
pub fn parse_transition_x(ts: &Vec<Tok>, i: usize) -> (r: Result<(Transition, usize), ParseError>)
    requires
        i <= ts@.len(),
    ensures
        match (r, parse_transition_at(toks_view(ts@), i as int)) {
            (Ok((x, j)), Ok(s)) => x@ == s.0 && j as int == s.1 && i < j <= ts@.len(),
            (Err(e), Err(se)) => e == se,
            _ => false,
        },
{
    let ghost tsv = toks_view(ts@);
    proof {
        lemma_parse_transition_bounds(tsv, i as int);
    }
    let n = ts.len();
    match parse_segs_x(ts, i) {
        Err(e) => Err(e),
        Ok((from, j)) => {
            proof {
                if j < n {
                    assert(tsv[j as int] == ts@[j as int]@);
                }
                if j + 1 < n {
                    assert(tsv[j as int + 1] == ts@[j as int + 1]@);
                }
            }
            if j < n && matches!(&ts[j], Tok::GtSub) {
                let dash = j + 1 < n && matches!(&ts[j + 1], Tok::RArrow | Tok::SubLt);
                if dash {
                    if matches!(&ts[j + 1], Tok::RArrow) {
                        match parse_segs_x(ts, j + 2) {
                            Err(e) => Err(e),
                            Ok((to, k)) => Ok(
                                (
                                    Transition {
                                        from: State(from),
                                        intermediate: Option::None,
                                        to: State(to),
                                    },
                                    k,
                                ),
                            ),
                        }
                    } else {
                        Err(ParseError::Grammar { at: j + 1, kind: GrammarKind::RArrow })
                    }
                } else {
                    match parse_segs_x(ts, j + 1) {
                        Err(e) => Err(e),
                        Ok((label, k)) => {
                            proof {
                                if k < n {
                                    assert(tsv[k as int] == ts@[k as int]@);
                                }
                            }
                            if k < n && matches!(&ts[k], Tok::RArrow) {
                                match parse_segs_x(ts, k + 1) {
                                    Err(e) => Err(e),
                                    Ok((to, m)) => Ok(
                                        (
                                            Transition {
                                                from: State(from),
                                                intermediate: Option::Some(Intermediate(label)),
                                                to: State(to),
                                            },
                                            m,
                                        ),
                                    ),
                                }
                            } else {
                                Err(ParseError::Grammar { at: k, kind: GrammarKind::RArrow })
                            }
                        },
                    }
                }
            } else {
                Err(ParseError::Grammar { at: j, kind: GrammarKind::GtSub })
            }
        },
    }
}

/// Mirrors `parse_overlay_at`.
pub fn parse_overlay_x(ts: &Vec<Tok>, i: usize) -> (r: Result<(Overlay, usize), ParseError>)
    requires
        i <= ts@.len(),
    ensures
        match (r, parse_overlay_at(toks_view(ts@), i as int)) {
            (Ok((x, j)), Ok(s)) => x@ == s.0 && j as int == s.1 && i < j <= ts@.len(),
            (Err(e), Err(se)) => e == se,
            _ => false,
        },
{
    let ghost tsv = toks_view(ts@);
    proof {
        lemma_parse_overlay_bounds(tsv, i as int);
    }
    let n = ts.len();
    match parse_segs_x(ts, i) {
        Err(e) => Err(e),
        Ok((back, j)) => {
            proof {
                if j < n {
                    assert(tsv[j as int] == ts@[j as int]@);
                }
            }
            if j < n && matches!(&ts[j], Tok::Caret) {
                match parse_segs_x(ts, j + 1) {
                    Err(e) => Err(e),
                    Ok((front, k)) => Ok(
                        (Overlay { back: State(back), front: State(front) }, k),
                    ),
                }
            } else {
                Err(ParseError::Grammar { at: j, kind: GrammarKind::Caret })
            }
        },
    }
}

/// The model of a vector of identifiers.
pub open spec fn idents_view(v: Seq<Ident>) -> Seq<IdentV> {
    v.map_values(|t: Ident| t@)
}

/// The model of a vector of references.
pub open spec fn refs_view(v: Seq<Reference>) -> Seq<ReferenceV> {
    v.map_values(|t: Reference| t@)
}

/// The model of a vector of transitions.
pub open spec fn trs_view(v: Seq<Transition>) -> Seq<TransitionV> {
    v.map_values(|t: Transition| t@)
}

/// The model of a vector of overlays.
pub open spec fn ovs_view(v: Seq<Overlay>) -> Seq<OverlayV> {
    v.map_values(|t: Overlay| t@)
}

/// Mirrors `parse_path_list`.
pub fn parse_path_list_x(ts: &Vec<Tok>, i: usize) -> (r: Result<(Vec<Ident>, usize), ParseError>)
    requires
        i <= ts@.len(),
    ensures
        match (r, parse_path_list(toks_view(ts@), i as int)) {
            (Ok((v, j)), Ok(s)) => idents_view(v@) == s.0 && j as int == s.1 && i < j <= ts@.len(),
            (Err(e), Err(se)) => e == se,
            _ => false,
        },
{
    let ghost tsv = toks_view(ts@);
    proof {
        lemma_parse_path_list_bounds(tsv, i as int);
    }
    let n = ts.len();
    let mut out: Vec<Ident> = Vec::new();
    let mut pos: usize = i;
    loop
        invariant
            i <= pos <= n,
            n == ts@.len(),
            tsv == toks_view(ts@),
            (match parse_path_list(tsv, pos as int) {
                Ok(s) => parse_path_list(tsv, i as int) == Ok::<(Seq<IdentV>, int), ParseError>(
                    (idents_view(out@) + s.0, s.1),
                ),
                Err(e) => parse_path_list(tsv, i as int) == Err::<(Seq<IdentV>, int), ParseError>(
                    e,
                ),
            }),
        decreases n - pos,
    {
        proof {
            if pos < n {
                assert(tsv[pos as int] == ts@[pos as int]@);
            }
        }
        if pos < n && matches!(&ts[pos], Tok::CloseBracket) {
            proof {
                assert(idents_view(out@) + Seq::<IdentV>::empty() =~= idents_view(out@));
            }
            return Ok((out, pos + 1));
        }
        match parse_segs_x(ts, pos) {
            Err(e) => {
                return Err(e);
            },
            Ok((p, j)) => {
                let ghost pv = p@;
                let ghost out_old = out@;
                proof {
                    if j < n {
                        assert(tsv[j as int] == ts@[j as int]@);
                    }
                    assert(idents_view(out_old.push(p)) =~= idents_view(out_old) + seq![pv]);
                }
                if j < n && matches!(&ts[j], Tok::Comma) {
                    out.push(p);
                    proof {
                        if let Ok(s2) = parse_path_list(tsv, j + 1) {
                            assert(idents_view(out_old) + (seq![pv] + s2.0) =~= (idents_view(
                                out_old,
                            ) + seq![pv]) + s2.0);
                        }
                    }
                    pos = j + 1;
                } else if j < n && matches!(&ts[j], Tok::CloseBracket) {
                    out.push(p);
                    proof {
                        assert(idents_view(out_old) + seq![pv] =~= idents_view(out@));
                    }
                    return Ok((out, j + 1));
                } else {
                    return Err(ParseError::Grammar { at: j, kind: GrammarKind::CommaOrClose });
                }
            },
        }
    }
}

/// Mirrors `parse_ref_list`.
pub fn parse_ref_list_x(ts: &Vec<Tok>, i: usize) -> (r: Result<
    (Vec<Reference>, usize),
    ParseError,
>)
    requires
        i <= ts@.len(),
    ensures
        match (r, parse_ref_list(toks_view(ts@), i as int)) {
            (Ok((v, j)), Ok(s)) => refs_view(v@) == s.0 && j as int == s.1 && i < j <= ts@.len(),
            (Err(e), Err(se)) => e == se,
            _ => false,
        },
{
    let ghost tsv = toks_view(ts@);
    proof {
        lemma_parse_ref_list_bounds(tsv, i as int);
    }
    let n = ts.len();
    let mut out: Vec<Reference> = Vec::new();
    let mut pos: usize = i;
    loop
        invariant
            i <= pos <= n,
            n == ts@.len(),
            tsv == toks_view(ts@),
            (match parse_ref_list(tsv, pos as int) {
                Ok(s) => parse_ref_list(tsv, i as int) == Ok::<(Seq<ReferenceV>, int), ParseError>(
                    (refs_view(out@) + s.0, s.1),
                ),
                Err(e) => parse_ref_list(tsv, i as int) == Err::<
                    (Seq<ReferenceV>, int),
                    ParseError,
                >(e),
            }),
        decreases n - pos,
    {
        proof {
            if pos < n {
                assert(tsv[pos as int] == ts@[pos as int]@);
            }
        }
        if pos < n && matches!(&ts[pos], Tok::CloseBracket) {
            proof {
                assert(refs_view(out@) + Seq::<ReferenceV>::empty() =~= refs_view(out@));
            }
            return Ok((out, pos + 1));
        }
        match parse_reference_x(ts, pos) {
            Err(e) => {
                return Err(e);
            },
            Ok((p, j)) => {
                let ghost pv = p@;
                let ghost out_old = out@;
                proof {
                    if j < n {
                        assert(tsv[j as int] == ts@[j as int]@);
                    }
                    assert(refs_view(out_old.push(p)) =~= refs_view(out_old) + seq![pv]);
                }
                if j < n && matches!(&ts[j], Tok::Comma) {
                    out.push(p);
                    proof {
                        if let Ok(s2) = parse_ref_list(tsv, j + 1) {
                            assert(refs_view(out_old) + (seq![pv] + s2.0) =~= (refs_view(out_old)
                                + seq![pv]) + s2.0);
                        }
                    }
                    pos = j + 1;
                } else if j < n && matches!(&ts[j], Tok::CloseBracket) {
                    out.push(p);
                    proof {
                        assert(refs_view(out_old) + seq![pv] =~= refs_view(out@));
                    }
                    return Ok((out, j + 1));
                } else {
                    return Err(ParseError::Grammar { at: j, kind: GrammarKind::CommaOrClose });
                }
            },
        }
    }
}

/// Mirrors `parse_tr_list`.
pub fn parse_tr_list_x(ts: &Vec<Tok>, i: usize) -> (r: Result<
    (Vec<Transition>, usize),
    ParseError,
>)
    requires
        i <= ts@.len(),
    ensures
        match (r, parse_tr_list(toks_view(ts@), i as int)) {
            (Ok((v, j)), Ok(s)) => trs_view(v@) == s.0 && j as int == s.1 && i < j <= ts@.len(),
            (Err(e), Err(se)) => e == se,
            _ => false,
        },
{
    let ghost tsv = toks_view(ts@);
    proof {
        lemma_parse_tr_list_bounds(tsv, i as int);
    }
    let n = ts.len();
    let mut out: Vec<Transition> = Vec::new();
    let mut pos: usize = i;
    loop
        invariant
            i <= pos <= n,
            n == ts@.len(),
            tsv == toks_view(ts@),
            (match parse_tr_list(tsv, pos as int) {
                Ok(s) => parse_tr_list(tsv, i as int) == Ok::<
                    (Seq<TransitionV>, int),
                    ParseError,
                >((trs_view(out@) + s.0, s.1)),
                Err(e) => parse_tr_list(tsv, i as int) == Err::<
                    (Seq<TransitionV>, int),
                    ParseError,
                >(e),
            }),
        decreases n - pos,
    {
        proof {
            if pos < n {
                assert(tsv[pos as int] == ts@[pos as int]@);
            }
        }
        if pos < n && matches!(&ts[pos], Tok::CloseBracket) {
            proof {
                assert(trs_view(out@) + Seq::<TransitionV>::empty() =~= trs_view(out@));
            }
            return Ok((out, pos + 1));
        }
        match parse_transition_x(ts, pos) {
            Err(e) => {
                return Err(e);
            },
            Ok((p, j)) => {
                let ghost pv = p@;
                let ghost out_old = out@;
                proof {
                    if j < n {
                        assert(tsv[j as int] == ts@[j as int]@);
                    }
                    assert(trs_view(out_old.push(p)) =~= trs_view(out_old) + seq![pv]);
                }
                if j < n && matches!(&ts[j], Tok::Comma) {
                    out.push(p);
                    proof {
                        if let Ok(s2) = parse_tr_list(tsv, j + 1) {
                            assert(trs_view(out_old) + (seq![pv] + s2.0) =~= (trs_view(out_old)
                                + seq![pv]) + s2.0);
                        }
                    }
                    pos = j + 1;
                } else if j < n && matches!(&ts[j], Tok::CloseBracket) {
                    out.push(p);
                    proof {
                        assert(trs_view(out_old) + seq![pv] =~= trs_view(out@));
                    }
                    return Ok((out, j + 1));
                } else {
                    return Err(ParseError::Grammar { at: j, kind: GrammarKind::CommaOrClose });
                }
            },
        }
    }
}

/// Mirrors `parse_ov_list`.
pub fn parse_ov_list_x(ts: &Vec<Tok>, i: usize) -> (r: Result<(Vec<Overlay>, usize), ParseError>)
    requires
        i <= ts@.len(),
    ensures
        match (r, parse_ov_list(toks_view(ts@), i as int)) {
            (Ok((v, j)), Ok(s)) => ovs_view(v@) == s.0 && j as int == s.1 && i < j <= ts@.len(),
            (Err(e), Err(se)) => e == se,
            _ => false,
        },
{
    let ghost tsv = toks_view(ts@);
    proof {
        lemma_parse_ov_list_bounds(tsv, i as int);
    }
    let n = ts.len();
    let mut out: Vec<Overlay> = Vec::new();
    let mut pos: usize = i;
    loop
        invariant
            i <= pos <= n,
            n == ts@.len(),
            tsv == toks_view(ts@),
            (match parse_ov_list(tsv, pos as int) {
                Ok(s) => parse_ov_list(tsv, i as int) == Ok::<(Seq<OverlayV>, int), ParseError>(
                    (ovs_view(out@) + s.0, s.1),
                ),
                Err(e) => parse_ov_list(tsv, i as int) == Err::<(Seq<OverlayV>, int), ParseError>(
                    e,
                ),
            }),
        decreases n - pos,
    {
        proof {
            if pos < n {
                assert(tsv[pos as int] == ts@[pos as int]@);
            }
        }
        if pos < n && matches!(&ts[pos], Tok::CloseBracket) {
            proof {
                assert(ovs_view(out@) + Seq::<OverlayV>::empty() =~= ovs_view(out@));
            }
            return Ok((out, pos + 1));
        }
        match parse_overlay_x(ts, pos) {
            Err(e) => {
                return Err(e);
            },
            Ok((p, j)) => {
                let ghost pv = p@;
                let ghost out_old = out@;
                proof {
                    if j < n {
                        assert(tsv[j as int] == ts@[j as int]@);
                    }
                    assert(ovs_view(out_old.push(p)) =~= ovs_view(out_old) + seq![pv]);
                }
                if j < n && matches!(&ts[j], Tok::Comma) {
                    out.push(p);
                    proof {
                        if let Ok(s2) = parse_ov_list(tsv, j + 1) {
                            assert(ovs_view(out_old) + (seq![pv] + s2.0) =~= (ovs_view(out_old)
                                + seq![pv]) + s2.0);
                        }
                    }
                    pos = j + 1;
                } else if j < n && matches!(&ts[j], Tok::CloseBracket) {
                    out.push(p);
                    proof {
                        assert(ovs_view(out_old) + seq![pv] =~= ovs_view(out@));
                    }
                    return Ok((out, j + 1));
                } else {
                    return Err(ParseError::Grammar { at: j, kind: GrammarKind::CommaOrClose });
                }
            },
        }
    }
}

/// The model a filled slot carries.
pub open spec fn slot_view<T: View>(o: Option<T>) -> Option<T::V> {
    match o {
        Option::None => Option::None,
        Option::Some(x) => Option::Some(x@),
    }
}

/// Wraps parsed identifiers as declared resources.
fn to_resources(v: Vec<Ident>) -> (r: Item<Resource>)
    ensures
        r@ == idents_view(v@),
{
    let ghost orig = v@;
    let mut v = v;
    let mut items: Vec<Resource> = Vec::new();
    while v.len() > 0
        invariant
            items@.map_values(|t: Resource| t@) + idents_view(v@) == idents_view(orig),
        decreases v.len(),
    {
        let ghost old_v = v@;
        let ghost old_items = items@;
        let x = v.remove(0);
        let ghost xv = x@;
        items.push(Resource(x));
        proof {
            assert(idents_view(old_v) =~= seq![xv] + idents_view(v@));
            assert(items@.map_values(|t: Resource| t@) =~= old_items.map_values(|t: Resource| t@)
                + seq![xv]);
            assert((old_items.map_values(|t: Resource| t@) + seq![xv]) + idents_view(v@)
                =~= old_items.map_values(|t: Resource| t@) + (seq![xv] + idents_view(v@)));
        }
    }
    proof {
        assert(items@.map_values(|t: Resource| t@) + idents_view(v@) =~= items@.map_values(
            |t: Resource| t@,
        ));
    }
    Item { items }
}

/// Wraps parsed identifiers as declared states.
fn to_states(v: Vec<Ident>) -> (r: Item<State>)
    ensures
        r@ == idents_view(v@),
{
    let ghost orig = v@;
    let mut v = v;
    let mut items: Vec<State> = Vec::new();
    while v.len() > 0
        invariant
            items@.map_values(|t: State| t@) + idents_view(v@) == idents_view(orig),
        decreases v.len(),
    {
        let ghost old_v = v@;
        let ghost old_items = items@;
        let x = v.remove(0);
        let ghost xv = x@;
        items.push(State(x));
        proof {
            assert(idents_view(old_v) =~= seq![xv] + idents_view(v@));
            assert(items@.map_values(|t: State| t@) =~= old_items.map_values(|t: State| t@)
                + seq![xv]);
            assert((old_items.map_values(|t: State| t@) + seq![xv]) + idents_view(v@)
                =~= old_items.map_values(|t: State| t@) + (seq![xv] + idents_view(v@)));
        }
    }
    proof {
        assert(items@.map_values(|t: State| t@) + idents_view(v@) =~= items@.map_values(
            |t: State| t@,
        ));
    }
    Item { items }
}

/// Wraps parsed identifiers as declared intermediates.
fn to_intermediates(v: Vec<Ident>) -> (r: Item<Intermediate>)
    ensures
        r@ == idents_view(v@),
{
    let ghost orig = v@;
    let mut v = v;
    let mut items: Vec<Intermediate> = Vec::new();
    while v.len() > 0
        invariant
            items@.map_values(|t: Intermediate| t@) + idents_view(v@) == idents_view(orig),
        decreases v.len(),
    {
        let ghost old_v = v@;
        let ghost old_items = items@;
        let x = v.remove(0);
        let ghost xv = x@;
        items.push(Intermediate(x));
        proof {
            assert(idents_view(old_v) =~= seq![xv] + idents_view(v@));
            assert(items@.map_values(|t: Intermediate| t@) =~= old_items.map_values(
                |t: Intermediate| t@,
            ) + seq![xv]);
            assert((old_items.map_values(|t: Intermediate| t@) + seq![xv]) + idents_view(v@)
                =~= old_items.map_values(|t: Intermediate| t@) + (seq![xv] + idents_view(v@)));
        }
    }
    proof {
        assert(items@.map_values(|t: Intermediate| t@) + idents_view(v@) =~= items@.map_values(
            |t: Intermediate| t@,
        ));
    }
    Item { items }
}

/// Mirrors `parse_flow`: the document loop over the token stream.
pub fn parse_flow_x(ts: &Vec<Tok>) -> (r: Result<Flow, ParseError>)
    ensures
        match (r, parse_flow(toks_view(ts@))) {
            (Ok(f), Ok(fv)) => f@ == fv,
            (Err(e), Err(se)) => e == se,
            _ => false,
        },
{
    let ghost tsv = toks_view(ts@);
    let n = ts.len();
    let mut pos: usize = 0;
    let mut resources: Option<Item<Resource>> = Option::None;
    let mut states: Option<Item<State>> = Option::None;
    let mut intermediates: Option<Item<Intermediate>> = Option::None;
    let mut references: Option<Item<Reference>> = Option::None;
    let mut transitions: Option<Item<Transition>> = Option::None;
    let mut overlays: Option<Item<Overlay>> = Option::None;
    while pos < n
        invariant
            pos <= n,
            n == ts@.len(),
            tsv == toks_view(ts@),
            parse_flow(tsv) == parse_sections(
                tsv,
                pos as int,
                SlotsV {
                    resources: slot_view(resources),
                    states: slot_view(states),
                    intermediates: slot_view(intermediates),
                    references: slot_view(references),
                    transitions: slot_view(transitions),
                    overlays: slot_view(overlays),
                },
            ),
        decreases n - pos,
    {
        let ghost slots = SlotsV {
            resources: slot_view(resources),
            states: slot_view(states),
            intermediates: slot_view(intermediates),
            references: slot_view(references),
            transitions: slot_view(transitions),
            overlays: slot_view(overlays),
        };
        proof {
            assert(tsv[pos as int] == ts@[pos as int]@);
            if pos + 1 < n {
                assert(tsv[pos as int + 1] == ts@[pos as int + 1]@);
            }
            if pos + 2 < n {
                assert(tsv[pos as int + 2] == ts@[pos as int + 2]@);
            }
        }
        match &ts[pos] {
            Tok::Word(w) => {
                if word_is(w, "resource") {
                    if resources.is_some() {
                        return Err(
                            ParseError::Grammar {
                                at: pos,
                                kind: GrammarKind::DuplicateSection(SectionKw::Resource),
                            },
                        );
                    }
                    if !(pos + 1 < n && matches!(&ts[pos + 1], Tok::Colon)) {
                        return Err(ParseError::Grammar { at: pos + 1, kind: GrammarKind::Colon });
                    }
                    if !(pos + 2 < n && matches!(&ts[pos + 2], Tok::OpenBracket)) {
                        return Err(
                            ParseError::Grammar { at: pos + 2, kind: GrammarKind::OpenBracket },
                        );
                    }
                    match parse_path_list_x(ts, pos + 3) {
                        Err(e) => {
                            return Err(e);
                        },
                        Ok((items, j)) => {
                            resources = Option::Some(to_resources(items));
                            pos = j;
                        },
                    }
                } else if word_is(w, "state") {
                    if states.is_some() {
                        return Err(
                            ParseError::Grammar {
                                at: pos,
                                kind: GrammarKind::DuplicateSection(SectionKw::State),
                            },
                        );
                    }
                    if !(pos + 1 < n && matches!(&ts[pos + 1], Tok::Colon)) {
                        return Err(ParseError::Grammar { at: pos + 1, kind: GrammarKind::Colon });
                    }
                    if !(pos + 2 < n && matches!(&ts[pos + 2], Tok::OpenBracket)) {
                        return Err(
                            ParseError::Grammar { at: pos + 2, kind: GrammarKind::OpenBracket },
                        );
                    }
                    match parse_path_list_x(ts, pos + 3) {
                        Err(e) => {
                            return Err(e);
                        },
                        Ok((items, j)) => {
                            states = Option::Some(to_states(items));
                            pos = j;
                        },
                    }
                } else if word_is(w, "intermediate") {
                    if intermediates.is_some() {
                        return Err(
                            ParseError::Grammar {
                                at: pos,
                                kind: GrammarKind::DuplicateSection(SectionKw::Intermediate),
                            },
                        );
                    }
                    if !(pos + 1 < n && matches!(&ts[pos + 1], Tok::Colon)) {
                        return Err(ParseError::Grammar { at: pos + 1, kind: GrammarKind::Colon });
                    }
                    if !(pos + 2 < n && matches!(&ts[pos + 2], Tok::OpenBracket)) {
                        return Err(
                            ParseError::Grammar { at: pos + 2, kind: GrammarKind::OpenBracket },
                        );
                    }
                    match parse_path_list_x(ts, pos + 3) {
                        Err(e) => {
                            return Err(e);
                        },
                        Ok((items, j)) => {
                            intermediates = Option::Some(to_intermediates(items));
                            pos = j;
                        },
                    }
                } else if word_is(w, "reference") {
                    if references.is_some() {
                        return Err(
                            ParseError::Grammar {
                                at: pos,
                                kind: GrammarKind::DuplicateSection(SectionKw::Reference),
                            },
                        );
                    }
                    if !(pos + 1 < n && matches!(&ts[pos + 1], Tok::Colon)) {
                        return Err(ParseError::Grammar { at: pos + 1, kind: GrammarKind::Colon });
                    }
                    if !(pos + 2 < n && matches!(&ts[pos + 2], Tok::OpenBracket)) {
                        return Err(
                            ParseError::Grammar { at: pos + 2, kind: GrammarKind::OpenBracket },
                        );
                    }
                    match parse_ref_list_x(ts, pos + 3) {
                        Err(e) => {
                            return Err(e);
                        },
                        Ok((items, j)) => {
                            references = Option::Some(Item { items });
                            pos = j;
                        },
                    }
                } else if word_is(w, "transition") {
                    if transitions.is_some() {
                        return Err(
                            ParseError::Grammar {
                                at: pos,
                                kind: GrammarKind::DuplicateSection(SectionKw::Transition),
                            },
                        );
                    }
                    if !(pos + 1 < n && matches!(&ts[pos + 1], Tok::Colon)) {
                        return Err(ParseError::Grammar { at: pos + 1, kind: GrammarKind::Colon });
                    }
                    if !(pos + 2 < n && matches!(&ts[pos + 2], Tok::OpenBracket)) {
                        return Err(
                            ParseError::Grammar { at: pos + 2, kind: GrammarKind::OpenBracket },
                        );
                    }
                    match parse_tr_list_x(ts, pos + 3) {
                        Err(e) => {
                            return Err(e);
                        },
                        Ok((items, j)) => {
                            transitions = Option::Some(Item { items });
                            pos = j;
                        },
                    }
                } else if word_is(w, "overlay") {
                    if overlays.is_some() {
                        return Err(
                            ParseError::Grammar {
                                at: pos,
                                kind: GrammarKind::DuplicateSection(SectionKw::Overlay),
                            },
                        );
                    }
                    if !(pos + 1 < n && matches!(&ts[pos + 1], Tok::Colon)) {
                        return Err(ParseError::Grammar { at: pos + 1, kind: GrammarKind::Colon });
                    }
                    if !(pos + 2 < n && matches!(&ts[pos + 2], Tok::OpenBracket)) {
                        return Err(
                            ParseError::Grammar { at: pos + 2, kind: GrammarKind::OpenBracket },
                        );
                    }
                    match parse_ov_list_x(ts, pos + 3) {
                        Err(e) => {
                            return Err(e);
                        },
                        Ok((items, j)) => {
                            overlays = Option::Some(Item { items });
                            pos = j;
                        },
                    }
                } else {
                    return Err(
                        ParseError::Grammar { at: pos, kind: GrammarKind::SectionKeyword },
                    );
                }
            },
            _ => {
                return Err(ParseError::Grammar { at: pos, kind: GrammarKind::SectionKeyword });
            },
        }
    }
    let ghost slots = SlotsV {
        resources: slot_view(resources),
        states: slot_view(states),
        intermediates: slot_view(intermediates),
        references: slot_view(references),
        transitions: slot_view(transitions),
        overlays: slot_view(overlays),
    };
    proof {
        assert(parse_sections(tsv, pos as int, slots) == finish_sections(slots, pos as int));
    }
    if resources.is_none() {
        return Err(
            ParseError::Grammar {
                at: pos,
                kind: GrammarKind::MissingSection(SectionKw::Resource),
            },
        );
    }
    if states.is_none() {
        return Err(
            ParseError::Grammar { at: pos, kind: GrammarKind::MissingSection(SectionKw::State) },
        );
    }
    if intermediates.is_none() {
        return Err(
            ParseError::Grammar {
                at: pos,
                kind: GrammarKind::MissingSection(SectionKw::Intermediate),
            },
        );
    }
    if references.is_none() {
        return Err(
            ParseError::Grammar {
                at: pos,
                kind: GrammarKind::MissingSection(SectionKw::Reference),
            },
        );
    }
    if transitions.is_none() {
        return Err(
            ParseError::Grammar {
                at: pos,
                kind: GrammarKind::MissingSection(SectionKw::Transition),
            },
        );
    }
    if overlays.is_none() {
        return Err(
            ParseError::Grammar {
                at: pos,
                kind: GrammarKind::MissingSection(SectionKw::Overlay),
            },
        );
    }
    Ok(
        Flow {
            resources: resources.unwrap(),
            states: states.unwrap(),
            intermediates: intermediates.unwrap(),
            references: references.unwrap(),
            transitions: transitions.unwrap(),
            overlays: overlays.unwrap(),
        },
    )
}

impl Flow {
    /// Parses a complete Flow document from source text: tokenization,
    /// then the section grammar.  Returns the document exactly when
    /// `parse_doc` denotes one, and that document is well formed.
    pub fn from_str(s: &str) -> (r: Result<Flow, ParseError>)
        ensures
            match (r, parse_doc(s@)) {
                (Ok(f), Ok(fv)) => f@ == fv && fv.wf(),
                (Err(e), Err(se)) => e == se,
                _ => false,
            },
    {
        proof {
            lemma_parse_doc_wf(s@);
        }
        match crate::token::lex(s) {
            Err(p) => Err(ParseError::Lexical { pos: p }),
            Ok(toks) => parse_flow_x(&toks),
        }
    }
}

/// A single identifier as a whole document of its own grammar rule, as
/// the canonical mirror stores it.
pub open spec fn parse_ident_text(s: Seq<char>) -> Result<IdentV, ParseError> {
    match lex_of(s) {
        Err(p) => Err(ParseError::Lexical { pos: p as usize }),
        Ok(ts) => match parse_segs(ts, 0) {
            Err(e) => Err(e),
            Ok((p, j)) => if j == ts.len() {
                Ok(p)
            } else {
                Err(g_err(j, GrammarKind::End))
            },
        },
    }
}

/// A single reference as a whole document of its own grammar rule.
pub open spec fn parse_reference_text(s: Seq<char>) -> Result<ReferenceV, ParseError> {
    match lex_of(s) {
        Err(p) => Err(ParseError::Lexical { pos: p as usize }),
        Ok(ts) => match parse_reference_at(ts, 0) {
            Err(e) => Err(e),
            Ok((x, j)) => if j == ts.len() {
                Ok(x)
            } else {
                Err(g_err(j, GrammarKind::End))
            },
        },
    }
}

/// A single transition as a whole document of its own grammar rule.
pub open spec fn parse_transition_text(s: Seq<char>) -> Result<TransitionV, ParseError> {
    match lex_of(s) {
        Err(p) => Err(ParseError::Lexical { pos: p as usize }),
        Ok(ts) => match parse_transition_at(ts, 0) {
            Err(e) => Err(e),
            Ok((x, j)) => if j == ts.len() {
                Ok(x)
            } else {
                Err(g_err(j, GrammarKind::End))
            },
        },
    }
}

/// A single overlay as a whole document of its own grammar rule.
pub open spec fn parse_overlay_text(s: Seq<char>) -> Result<OverlayV, ParseError> {
    match lex_of(s) {
        Err(p) => Err(ParseError::Lexical { pos: p as usize }),
        Ok(ts) => match parse_overlay_at(ts, 0) {
            Err(e) => Err(e),
            Ok((x, j)) => if j == ts.len() {
                Ok(x)
            } else {
                Err(g_err(j, GrammarKind::End))
            },
        },
    }
}

/// Parses a lone identifier: the text must hold exactly one identifier
/// and nothing further.
pub fn parse_ident_all(s: &str) -> (r: Result<Ident, ParseError>)
    ensures
        match (r, parse_ident_text(s@)) {
            (Ok(x), Ok(v)) => x@ == v,
            (Err(e), Err(se)) => e == se,
            _ => false,
        },
{
    match crate::token::lex(s) {
        Err(p) => Err(ParseError::Lexical { pos: p }),
        Ok(toks) => match parse_segs_x(&toks, 0) {
            Err(e) => Err(e),
            Ok((x, j)) => if j == toks.len() {
                Ok(x)
            } else {
                Err(ParseError::Grammar { at: j, kind: GrammarKind::End })
            },
        },
    }
}

impl Resource {
    /// Parses a resource: one identifier, the whole text.
    pub fn from_str(s: &str) -> (r: Result<Resource, ParseError>)
        ensures
            match (r, parse_ident_text(s@)) {
                (Ok(x), Ok(v)) => x@ == v,
                (Err(e), Err(se)) => e == se,
                _ => false,
            },
    {
        match parse_ident_all(s) {
            Err(e) => Err(e),
            Ok(x) => Ok(Resource(x)),
        }
    }
}

impl State {
    /// Parses a state: one identifier, the whole text.
    pub fn from_str(s: &str) -> (r: Result<State, ParseError>)
        ensures
            match (r, parse_ident_text(s@)) {
                (Ok(x), Ok(v)) => x@ == v,
                (Err(e), Err(se)) => e == se,
                _ => false,
            },
    {
        match parse_ident_all(s) {
            Err(e) => Err(e),
            Ok(x) => Ok(State(x)),
        }
    }
}

impl Intermediate {
    /// Parses an intermediate: one identifier, the whole text.
    pub fn from_str(s: &str) -> (r: Result<Intermediate, ParseError>)
        ensures
            match (r, parse_ident_text(s@)) {
                (Ok(x), Ok(v)) => x@ == v,
                (Err(e), Err(se)) => e == se,
                _ => false,
            },
    {
        match parse_ident_all(s) {
            Err(e) => Err(e),
            Ok(x) => Ok(Intermediate(x)),
        }
    }
}

impl Reference {
    /// Parses a reference, `state -< [mut] resource`, as the whole text.
    pub fn from_str(s: &str) -> (r: Result<Reference, ParseError>)
        ensures
            match (r, parse_reference_text(s@)) {
                (Ok(x), Ok(v)) => x@ == v,
                (Err(e), Err(se)) => e == se,
                _ => false,
            },
    {
        match crate::token::lex(s) {
            Err(p) => Err(ParseError::Lexical { pos: p }),
            Ok(toks) => match parse_reference_x(&toks, 0) {
                Err(e) => Err(e),
                Ok((x, j)) => if j == toks.len() {
                    Ok(x)
                } else {
                    Err(ParseError::Grammar { at: j, kind: GrammarKind::End })
                },
            },
        }
    }
}

impl Transition {
    /// Parses a transition, `from >- [label] -> to`, as the whole text.
    pub fn from_str(s: &str) -> (r: Result<Transition, ParseError>)
        ensures
            match (r, parse_transition_text(s@)) {
                (Ok(x), Ok(v)) => x@ == v,
                (Err(e), Err(se)) => e == se,
                _ => false,
            },
    {
        match crate::token::lex(s) {
            Err(p) => Err(ParseError::Lexical { pos: p }),
            Ok(toks) => match parse_transition_x(&toks, 0) {
                Err(e) => Err(e),
                Ok((x, j)) => if j == toks.len() {
                    Ok(x)
                } else {
                    Err(ParseError::Grammar { at: j, kind: GrammarKind::End })
                },
            },
        }
    }
}

impl Overlay {
    /// Parses an overlay, `back ^ front`, as the whole text.
    pub fn from_str(s: &str) -> (r: Result<Overlay, ParseError>)
        ensures
            match (r, parse_overlay_text(s@)) {
                (Ok(x), Ok(v)) => x@ == v,
                (Err(e), Err(se)) => e == se,
                _ => false,
            },
    {
        match crate::token::lex(s) {
            Err(p) => Err(ParseError::Lexical { pos: p }),
            Ok(toks) => match parse_overlay_x(&toks, 0) {
                Err(e) => Err(e),
                Ok((x, j)) => if j == toks.len() {
                    Ok(x)
                } else {
                    Err(ParseError::Grammar { at: j, kind: GrammarKind::End })
                },
            },
        }
    }
}

} // verus!
