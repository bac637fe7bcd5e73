//! The rendering layer: from a tree back to source text.
//!
//! Rendering goes in two steps: a node becomes a token sequence, and a
//! token sequence becomes text, each token followed by one blank.  The
//! token sequences below are the reference form that the round-trip laws
//! relate to the parser.  A document renders its six sections in the
//! fixed order resources, states, intermediates, references, transitions,
//! overlays; item order inside each section is kept.  Every non-empty
//! item list is rendered with a trailing comma, which the grammar
//! accepts: that is the normal form of the separator.

use vstd::prelude::*;
use crate::token::{Tok, TokM, toks_view};
use crate::ast::{Ident, IdentV, Resource, State, Intermediate, Reference, Transition, Overlay};
use crate::ast::{ReferenceV, TransitionV, OverlayV, Flow, FlowV};

verus! {

/// The text of one token.
pub open spec fn tok_text(t: TokM) -> Seq<char> {
    match t {
        TokM::Word(w) => w,
        TokM::Colon => seq![':'],
        TokM::PathSep => seq![':', ':'],
        TokM::Comma => seq![','],
        TokM::OpenBracket => seq!['['],
        TokM::CloseBracket => seq![']'],
        TokM::SubLt => seq!['-', '<'],
        TokM::GtSub => seq!['>', '-'],
        TokM::RArrow => seq!['-', '>'],
        TokM::Caret => seq!['^'],
    }
}

/// The text of the tokens from index `k` on: each token, then one blank.
pub open spec fn text_from(ts: Seq<TokM>, k: int) -> Seq<char>
    decreases ts.len() - k when 0 <= k <= ts.len()
{
    if k >= ts.len() {
        Seq::empty()
    } else {
        tok_text(ts[k]) + seq![' '] + text_from(ts, k + 1)
    }
}

/// The text of a whole token sequence.
pub open spec fn text_of_toks(ts: Seq<TokM>) -> Seq<char> {
    text_from(ts, 0)
}

/// The tokens of an identifier's segments from `k` on: words joined by
/// `::`.
pub open spec fn toks_of_ident_from(p: IdentV, k: int) -> Seq<TokM>
    decreases p.len() - k when 0 <= k <= p.len()
{
    if k >= p.len() {
        Seq::empty()
    } else if k + 1 == p.len() {
        seq![TokM::Word(p[k])]
    } else {
        seq![TokM::Word(p[k]), TokM::PathSep] + toks_of_ident_from(p, k + 1)
    }
}

/// The tokens of an identifier.
pub open spec fn toks_of_ident(p: IdentV) -> Seq<TokM> {
    toks_of_ident_from(p, 0)
}

/// The tokens of a reference: `state -< [mut] resource`.
pub open spec fn toks_of_reference(r: ReferenceV) -> Seq<TokM> {
    toks_of_ident(r.state) + seq![TokM::SubLt] + (if r.mutable {
        seq![TokM::Word("mut"@)]
    } else {
        Seq::<TokM>::empty()
    }) + toks_of_ident(r.resource)
}

/// The tokens of a transition: `from >- [label] -> to`.
pub open spec fn toks_of_transition(t: TransitionV) -> Seq<TokM> {
    toks_of_ident(t.from) + seq![TokM::GtSub] + (match t.intermediate {
        Option::None => Seq::<TokM>::empty(),
        Option::Some(i) => toks_of_ident(i),
    }) + seq![TokM::RArrow] + toks_of_ident(t.to)
}

/// The tokens of an overlay: `back ^ front`.
pub open spec fn toks_of_overlay(o: OverlayV) -> Seq<TokM> {
    toks_of_ident(o.back) + seq![TokM::Caret] + toks_of_ident(o.front)
}

/// The body tokens of an identifier section from item `k` on: each item,
/// then a comma.
pub open spec fn toks_of_path_items(v: Seq<IdentV>, k: int) -> Seq<TokM>
    decreases v.len() - k when 0 <= k <= v.len()
{
    if k >= v.len() {
        Seq::empty()
    } else {
        toks_of_ident(v[k]) + seq![TokM::Comma] + toks_of_path_items(v, k + 1)
    }
}

/// The body tokens of the reference section from item `k` on.
pub open spec fn toks_of_ref_items(v: Seq<ReferenceV>, k: int) -> Seq<TokM>
    decreases v.len() - k when 0 <= k <= v.len()
{
    if k >= v.len() {
        Seq::empty()
    } else {
        toks_of_reference(v[k]) + seq![TokM::Comma] + toks_of_ref_items(v, k + 1)
    }
}

/// The body tokens of the transition section from item `k` on.
pub open spec fn toks_of_tr_items(v: Seq<TransitionV>, k: int) -> Seq<TokM>
    decreases v.len() - k when 0 <= k <= v.len()
{
    if k >= v.len() {
        Seq::empty()
    } else {
        toks_of_transition(v[k]) + seq![TokM::Comma] + toks_of_tr_items(v, k + 1)
    }
}

/// The body tokens of the overlay section from item `k` on.
pub open spec fn toks_of_ov_items(v: Seq<OverlayV>, k: int) -> Seq<TokM>
    decreases v.len() - k when 0 <= k <= v.len()
{
    if k >= v.len() {
        Seq::empty()
    } else {
        toks_of_overlay(v[k]) + seq![TokM::Comma] + toks_of_ov_items(v, k + 1)
    }
}

/// The frame of one section: its keyword, a colon, the bracketed body.
pub open spec fn toks_of_section(kw: Seq<char>, body: Seq<TokM>) -> Seq<TokM> {
    seq![TokM::Word(kw), TokM::Colon, TokM::OpenBracket] + body + seq![TokM::CloseBracket]
}

/// The tokens of a whole document, sections in the fixed render order.
pub open spec fn toks_of_flow(f: FlowV) -> Seq<TokM> {
    toks_of_section("resource"@, toks_of_path_items(f.resources, 0)) + toks_of_section(
        "state"@,
        toks_of_path_items(f.states, 0),
    ) + toks_of_section("intermediate"@, toks_of_path_items(f.intermediates, 0))
        + toks_of_section("reference"@, toks_of_ref_items(f.references, 0)) + toks_of_section(
        "transition"@,
        toks_of_tr_items(f.transitions, 0),
    ) + toks_of_section("overlay"@, toks_of_ov_items(f.overlays, 0))
}

/// The rendered text of a whole document.
pub open spec fn flow_text(f: FlowV) -> Seq<char> {
    text_of_toks(toks_of_flow(f))
}

/// Appends the tokens of one identifier.
fn push_ident_toks(out: &mut Vec<Tok>, p: &Ident)
    ensures
        toks_view(final(out)@) == toks_view(old(out)@) + toks_of_ident(p@),
{
    let ghost pv = p@;
    let ghost base = toks_view(old(out)@);
    let m = p.segments.len();
    let mut k: usize = 0;
    while k < m
        invariant
            m == pv.len(),
            pv == p@,
            0 <= k <= m,
            toks_view(out@) + toks_of_ident_from(pv, k as int) == base + toks_of_ident(pv),
        decreases m - k,
    {
        let ghost before = toks_view(out@);
        let seg = p.segments[k].clone();
        proof {
            assert(pv[k as int] == p.segments@[k as int]@);
        }
        out.push(Tok::Word(seg));
        proof {
            assert(toks_view(out@) =~= before + seq![TokM::Word(pv[k as int])]);
        }
        if k + 1 < m {
            let ghost mid = toks_view(out@);
            out.push(Tok::PathSep);
            proof {
                assert(toks_view(out@) =~= mid + seq![TokM::PathSep]);
                assert(toks_of_ident_from(pv, k as int) == seq![
                    TokM::Word(pv[k as int]),
                    TokM::PathSep,
                ] + toks_of_ident_from(pv, k as int + 1));
                assert(toks_view(out@) + toks_of_ident_from(pv, k as int + 1) =~= before
                    + toks_of_ident_from(pv, k as int));
            }
        } else {
            proof {
                assert(toks_of_ident_from(pv, k as int) =~= seq![TokM::Word(pv[k as int])]);
                assert(toks_view(out@) + toks_of_ident_from(pv, k as int + 1) =~= before
                    + toks_of_ident_from(pv, k as int));
            }
        }
        k = k + 1;
    }
    proof {
        assert(toks_view(out@) + Seq::<TokM>::empty() =~= toks_view(out@));
    }
}

/// Appends the tokens of one reference.
fn push_reference_toks(out: &mut Vec<Tok>, r: &Reference)
    ensures
        toks_view(final(out)@) == toks_view(old(out)@) + toks_of_reference(r@),
{
    let ghost base = toks_view(old(out)@);
    push_ident_toks(out, &r.state.0);
    let ghost a = toks_view(out@);
    out.push(Tok::SubLt);
    proof {
        assert(toks_view(out@) =~= a + seq![TokM::SubLt]);
    }
    if r.mutable {
        let ghost b = toks_view(out@);
        out.push(Tok::Word(String::from_str("mut")));
        proof {
            assert(toks_view(out@) =~= b + seq![TokM::Word("mut"@)]);
        }
    }
    push_ident_toks(out, &r.resource.0);
    proof {
        assert(toks_view(out@) =~= base + toks_of_reference(r@));
    }
}

/// Appends the tokens of one transition.
fn push_transition_toks(out: &mut Vec<Tok>, t: &Transition)
    ensures
        toks_view(final(out)@) == toks_view(old(out)@) + toks_of_transition(t@),
{
    let ghost base = toks_view(old(out)@);
    push_ident_toks(out, &t.from.0);
    let ghost a = toks_view(out@);
    out.push(Tok::GtSub);
    proof {
        assert(toks_view(out@) =~= a + seq![TokM::GtSub]);
    }
    match &t.intermediate {
        Option::None => {},
        Option::Some(label) => {
            push_ident_toks(out, &label.0);
        },
    }
    let ghost b = toks_view(out@);
    out.push(Tok::RArrow);
    proof {
        assert(toks_view(out@) =~= b + seq![TokM::RArrow]);
    }
    push_ident_toks(out, &t.to.0);
    proof {
        assert(toks_view(out@) =~= base + toks_of_transition(t@));
    }
}

/// Appends the tokens of one overlay.
fn push_overlay_toks(out: &mut Vec<Tok>, o: &Overlay)
    ensures
        toks_view(final(out)@) == toks_view(old(out)@) + toks_of_overlay(o@),
{
    let ghost base = toks_view(old(out)@);
    push_ident_toks(out, &o.back.0);
    let ghost a = toks_view(out@);
    out.push(Tok::Caret);
    proof {
        assert(toks_view(out@) =~= a + seq![TokM::Caret]);
    }
    push_ident_toks(out, &o.front.0);
    proof {
        assert(toks_view(out@) =~= base + toks_of_overlay(o@));
    }
}

/// Appends one resource section body: each identifier, then a comma.
fn push_resource_items(out: &mut Vec<Tok>, v: &Vec<Resource>)
    ensures
        toks_view(final(out)@) == toks_view(old(out)@) + toks_of_path_items(
            v@.map_values(|t: Resource| t@),
            0,
        ),
{
    let ghost sv = v@.map_values(|t: Resource| t@);
    let ghost base = toks_view(old(out)@);
    let m = v.len();
    let mut k: usize = 0;
    while k < m
        invariant
            m == v@.len(),
            sv == v@.map_values(|t: Resource| t@),
            0 <= k <= m,
            toks_view(out@) + toks_of_path_items(sv, k as int) == base + toks_of_path_items(sv, 0),
        decreases m - k,
    {
        let ghost before = toks_view(out@);
        proof {
            assert(sv[k as int] == v@[k as int]@);
        }
        push_ident_toks(out, &v[k].0);
        let ghost mid = toks_view(out@);
        out.push(Tok::Comma);
        proof {
            assert(toks_view(out@) =~= mid + seq![TokM::Comma]);
            assert(toks_view(out@) + toks_of_path_items(sv, k as int + 1) =~= before
                + toks_of_path_items(sv, k as int));
        }
        k = k + 1;
    }
    proof {
        assert(toks_view(out@) + Seq::<TokM>::empty() =~= toks_view(out@));
    }
}

/// Appends one state section body.
fn push_state_items(out: &mut Vec<Tok>, v: &Vec<State>)
    ensures
        toks_view(final(out)@) == toks_view(old(out)@) + toks_of_path_items(
            v@.map_values(|t: State| t@),
            0,
        ),
{
    let ghost sv = v@.map_values(|t: State| t@);
    let ghost base = toks_view(old(out)@);
    let m = v.len();
    let mut k: usize = 0;
    while k < m
        invariant
            m == v@.len(),
            sv == v@.map_values(|t: State| t@),
            0 <= k <= m,
            toks_view(out@) + toks_of_path_items(sv, k as int) == base + toks_of_path_items(sv, 0),
        decreases m - k,
    {
        let ghost before = toks_view(out@);
        proof {
            assert(sv[k as int] == v@[k as int]@);
        }
        push_ident_toks(out, &v[k].0);
        let ghost mid = toks_view(out@);
        out.push(Tok::Comma);
        proof {
            assert(toks_view(out@) =~= mid + seq![TokM::Comma]);
            assert(toks_view(out@) + toks_of_path_items(sv, k as int + 1) =~= before
                + toks_of_path_items(sv, k as int));
        }
        k = k + 1;
    }
    proof {
        assert(toks_view(out@) + Seq::<TokM>::empty() =~= toks_view(out@));
    }
}

/// Appends one intermediate section body.
fn push_intermediate_items(out: &mut Vec<Tok>, v: &Vec<Intermediate>)
    ensures
        toks_view(final(out)@) == toks_view(old(out)@) + toks_of_path_items(
            v@.map_values(|t: Intermediate| t@),
            0,
        ),
{
    let ghost sv = v@.map_values(|t: Intermediate| t@);
    let ghost base = toks_view(old(out)@);
    let m = v.len();
    let mut k: usize = 0;
    while k < m
        invariant
            m == v@.len(),
            sv == v@.map_values(|t: Intermediate| t@),
            0 <= k <= m,
            toks_view(out@) + toks_of_path_items(sv, k as int) == base + toks_of_path_items(sv, 0),
        decreases m - k,
    {
        let ghost before = toks_view(out@);
        proof {
            assert(sv[k as int] == v@[k as int]@);
        }
        push_ident_toks(out, &v[k].0);
        let ghost mid = toks_view(out@);
        out.push(Tok::Comma);
        proof {
            assert(toks_view(out@) =~= mid + seq![TokM::Comma]);
            assert(toks_view(out@) + toks_of_path_items(sv, k as int + 1) =~= before
                + toks_of_path_items(sv, k as int));
        }
        k = k + 1;
    }
    proof {
        assert(toks_view(out@) + Seq::<TokM>::empty() =~= toks_view(out@));
    }
}

/// Appends the reference section body.
fn push_ref_items(out: &mut Vec<Tok>, v: &Vec<Reference>)
    ensures
        toks_view(final(out)@) == toks_view(old(out)@) + toks_of_ref_items(
            v@.map_values(|t: Reference| t@),
            0,
        ),
{
    let ghost sv = v@.map_values(|t: Reference| t@);
    let ghost base = toks_view(old(out)@);
    let m = v.len();
    let mut k: usize = 0;
    while k < m
        invariant
            m == v@.len(),
            sv == v@.map_values(|t: Reference| t@),
            0 <= k <= m,
            toks_view(out@) + toks_of_ref_items(sv, k as int) == base + toks_of_ref_items(sv, 0),
        decreases m - k,
    {
        let ghost before = toks_view(out@);
        proof {
            assert(sv[k as int] == v@[k as int]@);
        }
        push_reference_toks(out, &v[k]);
        let ghost mid = toks_view(out@);
        out.push(Tok::Comma);
        proof {
            assert(toks_view(out@) =~= mid + seq![TokM::Comma]);
            assert(toks_view(out@) + toks_of_ref_items(sv, k as int + 1) =~= before
                + toks_of_ref_items(sv, k as int));
        }
        k = k + 1;
    }
    proof {
        assert(toks_view(out@) + Seq::<TokM>::empty() =~= toks_view(out@));
    }
}

/// Appends the transition section body.
fn push_tr_items(out: &mut Vec<Tok>, v: &Vec<Transition>)
    ensures
        toks_view(final(out)@) == toks_view(old(out)@) + toks_of_tr_items(
            v@.map_values(|t: Transition| t@),
            0,
        ),
{
    let ghost sv = v@.map_values(|t: Transition| t@);
    let ghost base = toks_view(old(out)@);
    let m = v.len();
    let mut k: usize = 0;
    while k < m
        invariant
            m == v@.len(),
            sv == v@.map_values(|t: Transition| t@),
            0 <= k <= m,
            toks_view(out@) + toks_of_tr_items(sv, k as int) == base + toks_of_tr_items(sv, 0),
        decreases m - k,
    {
        let ghost before = toks_view(out@);
        proof {
            assert(sv[k as int] == v@[k as int]@);
        }
        push_transition_toks(out, &v[k]);
        let ghost mid = toks_view(out@);
        out.push(Tok::Comma);
        proof {
            assert(toks_view(out@) =~= mid + seq![TokM::Comma]);
            assert(toks_view(out@) + toks_of_tr_items(sv, k as int + 1) =~= before
                + toks_of_tr_items(sv, k as int));
        }
        k = k + 1;
    }
    proof {
        assert(toks_view(out@) + Seq::<TokM>::empty() =~= toks_view(out@));
    }
}

/// Appends the overlay section body.
fn push_ov_items(out: &mut Vec<Tok>, v: &Vec<Overlay>)
    ensures
        toks_view(final(out)@) == toks_view(old(out)@) + toks_of_ov_items(
            v@.map_values(|t: Overlay| t@),
            0,
        ),
{
    let ghost sv = v@.map_values(|t: Overlay| t@);
    let ghost base = toks_view(old(out)@);
    let m = v.len();
    let mut k: usize = 0;
    while k < m
        invariant
            m == v@.len(),
            sv == v@.map_values(|t: Overlay| t@),
            0 <= k <= m,
            toks_view(out@) + toks_of_ov_items(sv, k as int) == base + toks_of_ov_items(sv, 0),
        decreases m - k,
    {
        let ghost before = toks_view(out@);
        proof {
            assert(sv[k as int] == v@[k as int]@);
        }
        push_overlay_toks(out, &v[k]);
        let ghost mid = toks_view(out@);
        out.push(Tok::Comma);
        proof {
            assert(toks_view(out@) =~= mid + seq![TokM::Comma]);
            assert(toks_view(out@) + toks_of_ov_items(sv, k as int + 1) =~= before
                + toks_of_ov_items(sv, k as int));
        }
        k = k + 1;
    }
    proof {
        assert(toks_view(out@) + Seq::<TokM>::empty() =~= toks_view(out@));
    }
}

/// Appends the frame of a section around its body.
fn push_section(out: &mut Vec<Tok>, kw: &str) -> (r: ())
    ensures
        toks_view(final(out)@) == toks_view(old(out)@) + seq![
            TokM::Word(kw@),
            TokM::Colon,
            TokM::OpenBracket,
        ],
{
    let ghost base = toks_view(old(out)@);
    out.push(Tok::Word(String::from_str(kw)));
    let ghost a = toks_view(out@);
    out.push(Tok::Colon);
    let ghost b = toks_view(out@);
    out.push(Tok::OpenBracket);
    proof {
        assert(a =~= base + seq![TokM::Word(kw@)]);
        assert(b =~= a + seq![TokM::Colon]);
        assert(toks_view(out@) =~= b + seq![TokM::OpenBracket]);
        assert(toks_view(out@) =~= base + seq![
            TokM::Word(kw@),
            TokM::Colon,
            TokM::OpenBracket,
        ]);
    }
}

/// The tokens of a whole document.
pub fn flow_to_toks(f: &Flow) -> (r: Vec<Tok>)
    ensures
        toks_view(r@) == toks_of_flow(f@),
{
    let mut out: Vec<Tok> = Vec::new();
    proof {
        assert(toks_view(out@) =~= Seq::<TokM>::empty());
    }
    push_section(&mut out, "resource");
    push_resource_items(&mut out, &f.resources.items);
    let ghost a = toks_view(out@);
    out.push(Tok::CloseBracket);
    proof {
        assert(toks_view(out@) =~= a + seq![TokM::CloseBracket]);
        assert(toks_view(out@) =~= toks_of_section(
            "resource"@,
            toks_of_path_items(f@.resources, 0),
        ));
    }
    let ghost s1 = toks_view(out@);
    push_section(&mut out, "state");
    push_state_items(&mut out, &f.states.items);
    let ghost b = toks_view(out@);
    out.push(Tok::CloseBracket);
    proof {
        assert(toks_view(out@) =~= b + seq![TokM::CloseBracket]);
        assert(toks_view(out@) =~= s1 + toks_of_section(
            "state"@,
            toks_of_path_items(f@.states, 0),
        ));
    }
    let ghost s2 = toks_view(out@);
    push_section(&mut out, "intermediate");
    push_intermediate_items(&mut out, &f.intermediates.items);
    let ghost c = toks_view(out@);
    out.push(Tok::CloseBracket);
    proof {
        assert(toks_view(out@) =~= c + seq![TokM::CloseBracket]);
        assert(toks_view(out@) =~= s2 + toks_of_section(
            "intermediate"@,
            toks_of_path_items(f@.intermediates, 0),
        ));
    }
    let ghost s3 = toks_view(out@);
    push_section(&mut out, "reference");
    push_ref_items(&mut out, &f.references.items);
    let ghost d = toks_view(out@);
    out.push(Tok::CloseBracket);
    proof {
        assert(toks_view(out@) =~= d + seq![TokM::CloseBracket]);
        assert(toks_view(out@) =~= s3 + toks_of_section(
            "reference"@,
            toks_of_ref_items(f@.references, 0),
        ));
    }
    let ghost s4 = toks_view(out@);
    push_section(&mut out, "transition");
    push_tr_items(&mut out, &f.transitions.items);
    let ghost e = toks_view(out@);
    out.push(Tok::CloseBracket);
    proof {
        assert(toks_view(out@) =~= e + seq![TokM::CloseBracket]);
        assert(toks_view(out@) =~= s4 + toks_of_section(
            "transition"@,
            toks_of_tr_items(f@.transitions, 0),
        ));
    }
    let ghost s5 = toks_view(out@);
    push_section(&mut out, "overlay");
    push_ov_items(&mut out, &f.overlays.items);
    let ghost g = toks_view(out@);
    out.push(Tok::CloseBracket);
    proof {
        assert(toks_view(out@) =~= g + seq![TokM::CloseBracket]);
        assert(toks_view(out@) =~= s5 + toks_of_section(
            "overlay"@,
            toks_of_ov_items(f@.overlays, 0),
        ));
        assert(toks_view(out@) =~= toks_of_flow(f@));
    }
    out
}

/// The text of one token vector: each token, then one blank.
pub fn toks_to_text(ts: &Vec<Tok>) -> (out: String)
    ensures
        out@ == text_of_toks(toks_view(ts@)),
{
    let ghost tsv = toks_view(ts@);
    let n = ts.len();
    let mut out = String::new();
    let mut k: usize = 0;
    while k < n
        invariant
            n == ts@.len(),
            tsv == toks_view(ts@),
            0 <= k <= n,
            out@ + text_from(tsv, k as int) == text_from(tsv, 0),
        decreases n - k,
    {
        let ghost before = out@;
        proof {
            assert(tsv[k as int] == ts@[k as int]@);
            reveal_strlit(":");
            reveal_strlit("::");
            reveal_strlit(",");
            reveal_strlit("[");
            reveal_strlit("]");
            reveal_strlit("-<");
            reveal_strlit(">-");
            reveal_strlit("->");
            reveal_strlit("^");
            reveal_strlit(" ");
        }
        match &ts[k] {
            Tok::Word(w) => out.append(w.as_str()),
            Tok::Colon => out.append(":"),
            Tok::PathSep => out.append("::"),
            Tok::Comma => out.append(","),
            Tok::OpenBracket => out.append("["),
            Tok::CloseBracket => out.append("]"),
            Tok::SubLt => out.append("-<"),
            Tok::GtSub => out.append(">-"),
            Tok::RArrow => out.append("->"),
            Tok::Caret => out.append("^"),
        }
        proof {
            assert(out@ =~= before + tok_text(tsv[k as int]));
        }
        let ghost mid = out@;
        out.append(" ");
        proof {
            assert(out@ =~= mid + seq![' ']);
            assert(out@ + text_from(tsv, k as int + 1) =~= before + text_from(tsv, k as int));
        }
        k = k + 1;
    }
    proof {
        assert(out@ + Seq::<char>::empty() =~= out@);
    }
    out
}

impl Flow {
    /// Renders the document back to source text: six sections in the
    /// fixed order, items in stored order, one blank after each token.
    pub fn render(&self) -> (out: String)
        ensures
            out@ == flow_text(self@),
    {
        let toks = flow_to_toks(self);
        toks_to_text(&toks)
    }
}

/// The plain text of an identifier: segments joined by `::`, no blanks.
/// This is the form the canonical mirror stores.
pub open spec fn ident_text_from(p: IdentV, k: int) -> Seq<char>
    decreases p.len() - k when 0 <= k <= p.len()
{
    if k >= p.len() {
        Seq::empty()
    } else if k + 1 == p.len() {
        p[k]
    } else {
        p[k] + seq![':', ':'] + ident_text_from(p, k + 1)
    }
}

/// The plain text of a whole identifier.
pub open spec fn ident_text(p: IdentV) -> Seq<char> {
    ident_text_from(p, 0)
}

/// Writes an identifier as plain text, segments joined by `::`.
pub fn ident_to_string(p: &Ident) -> (out: String)
    ensures
        out@ == ident_text(p@),
{
    let ghost pv = p@;
    let m = p.segments.len();
    let mut out = String::new();
    let mut k: usize = 0;
    while k < m
        invariant
            m == pv.len(),
            pv == p@,
            0 <= k <= m,
            out@ + ident_text_from(pv, k as int) == ident_text(pv),
        decreases m - k,
    {
        let ghost before = out@;
        proof {
            assert(pv[k as int] == p.segments@[k as int]@);
        }
        out.append(p.segments[k].as_str());
        if k + 1 < m {
            let ghost mid = out@;
            proof {
                reveal_strlit("::");
            }
            out.append("::");
            proof {
                assert(out@ =~= mid + seq![':', ':']);
                assert(out@ + ident_text_from(pv, k as int + 1) =~= before + ident_text_from(
                    pv,
                    k as int,
                ));
            }
        } else {
            proof {
                assert(out@ + ident_text_from(pv, k as int + 1) =~= before + ident_text_from(
                    pv,
                    k as int,
                ));
            }
        }
        k = k + 1;
    }
    proof {
        assert(out@ + Seq::<char>::empty() =~= out@);
    }
    out
}

} // verus!
