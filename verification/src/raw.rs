//! The canonical mirror: every identifier stored as plain `::`-joined
//! text, every compound node mirrored field by field.
//!
//! The forward conversion never fails.  The reverse conversion re-parses
//! each stored text as one identifier and aborts on the first text that
//! does not read as one, naming the field it sat in.

use vstd::prelude::*;
use crate::ast::{Ident, IdentV, wf_ident, Resource, State, Intermediate};
use crate::ast::{Reference, Transition, Overlay, Item, Flow};
use crate::ast::{ReferenceV, TransitionV, OverlayV, FlowV};
use crate::ast::{wf_reference, wf_transition, wf_overlay};
use crate::parse::{ParseError, parse_ident_text, parse_ident_all};
use crate::render::{ident_text, ident_to_string};
use crate::laws::lemma_ident_text_roundtrip;

verus! {

/// The field whose stored text failed to re-parse.
#[derive(Debug, Clone, Copy, PartialEq, Eq, Structural)]
pub enum Field {
    Resources,
    States,
    Intermediates,
    ReferenceState,
    ReferenceResource,
    TransitionFrom,
    TransitionIntermediate,
    TransitionTo,
    OverlayBack,
    OverlayFront,
}

/// A failed conversion from the mirror back to the tree: the stored text
/// of the named field does not read as exactly one identifier.
#[derive(Debug, Clone, Copy, PartialEq, Eq, Structural)]
pub enum Error {
    /// The stored text cannot even be tokenized.
    Lexical { field: Field },
    /// The tokens do not form one lone identifier.
    Grammar { field: Field },
}

/// Folds a re-parse failure into the mirror's error, keeping the
/// lexical/grammar distinction and naming the field.
pub open spec fn raw_err(e: ParseError, field: Field) -> Error {
    match e {
        ParseError::Lexical { .. } => Error::Lexical { field },
        ParseError::Grammar { .. } => Error::Grammar { field },
    }
}

/// The mirror of a resource: its identifier's text.
#[derive(Debug)]
pub struct RawResource(pub String);

impl View for RawResource {
    type V = Seq<char>;

    open spec fn view(&self) -> Seq<char> {
        self.0@
    }
}

/// The mirror of a state.
#[derive(Debug)]
pub struct RawState(pub String);

impl View for RawState {
    type V = Seq<char>;

    open spec fn view(&self) -> Seq<char> {
        self.0@
    }
}

/// The mirror of an intermediate.
#[derive(Debug)]
pub struct RawIntermediate(pub String);

impl View for RawIntermediate {
    type V = Seq<char>;

    open spec fn view(&self) -> Seq<char> {
        self.0@
    }
}

/// Model of a mirrored reference.
#[verifier::ext_equal]
pub struct RawReferenceV {
    pub state: Seq<char>,
    pub mutable: bool,
    pub resource: Seq<char>,
}

/// The mirror of a reference.
#[derive(Debug)]
pub struct RawReference {
    pub state: RawState,
    pub mutable: bool,
    pub resource: RawResource,
}

impl View for RawReference {
    type V = RawReferenceV;

    open spec fn view(&self) -> RawReferenceV {
        RawReferenceV { state: self.state@, mutable: self.mutable, resource: self.resource@ }
    }
}

/// Model of a mirrored transition.
#[verifier::ext_equal]
pub struct RawTransitionV {
    pub from: Seq<char>,
    pub intermediate: Option<Seq<char>>,
    pub to: Seq<char>,
}

/// The mirror of a transition.
#[derive(Debug)]
pub struct RawTransition {
    pub from: RawState,
    pub intermediate: Option<RawIntermediate>,
    pub to: RawState,
}

impl View for RawTransition {
    type V = RawTransitionV;

    open spec fn view(&self) -> RawTransitionV {
        RawTransitionV {
            from: self.from@,
            intermediate: match self.intermediate {
                Option::None => Option::None,
                Option::Some(i) => Option::Some(i@),
            },
            to: self.to@,
        }
    }
}

/// Model of a mirrored overlay.
#[verifier::ext_equal]
pub struct RawOverlayV {
    pub back: Seq<char>,
    pub front: Seq<char>,
}

/// The mirror of an overlay.
#[derive(Debug)]
pub struct RawOverlay {
    pub back: RawState,
    pub front: RawState,
}

impl View for RawOverlay {
    type V = RawOverlayV;

    open spec fn view(&self) -> RawOverlayV {
        RawOverlayV { back: self.back@, front: self.front@ }
    }
}

/// Model of the whole mirror: six plain sequences, position giving the
/// role.
#[verifier::ext_equal]
pub struct RawFlowV {
    pub resources: Seq<Seq<char>>,
    pub states: Seq<Seq<char>>,
    pub intermediates: Seq<Seq<char>>,
    pub references: Seq<RawReferenceV>,
    pub transitions: Seq<RawTransitionV>,
    pub overlays: Seq<RawOverlayV>,
}

/// The canonical mirror of a document.
#[derive(Debug)]
pub struct RawFlow {
    pub resources: Vec<RawResource>,
    pub states: Vec<RawState>,
    pub intermediates: Vec<RawIntermediate>,
    pub references: Vec<RawReference>,
    pub transitions: Vec<RawTransition>,
    pub overlays: Vec<RawOverlay>,
}

impl View for RawFlow {
    type V = RawFlowV;

    open spec fn view(&self) -> RawFlowV {
        RawFlowV {
            resources: self.resources@.map_values(|t: RawResource| t@),
            states: self.states@.map_values(|t: RawState| t@),
            intermediates: self.intermediates@.map_values(|t: RawIntermediate| t@),
            references: self.references@.map_values(|t: RawReference| t@),
            transitions: self.transitions@.map_values(|t: RawTransition| t@),
            overlays: self.overlays@.map_values(|t: RawOverlay| t@),
        }
    }
}

/// The stored texts of a sequence of identifiers.
pub open spec fn texts_of(v: Seq<IdentV>) -> Seq<Seq<char>> {
    v.map_values(|p: IdentV| ident_text(p))
}

/// The mirror of one reference.
pub open spec fn raw_of_reference(r: ReferenceV) -> RawReferenceV {
    RawReferenceV {
        state: ident_text(r.state),
        mutable: r.mutable,
        resource: ident_text(r.resource),
    }
}

/// The mirror of one transition.
pub open spec fn raw_of_transition(t: TransitionV) -> RawTransitionV {
    RawTransitionV {
        from: ident_text(t.from),
        intermediate: match t.intermediate {
            Option::None => Option::None,
            Option::Some(i) => Option::Some(ident_text(i)),
        },
        to: ident_text(t.to),
    }
}

/// The mirror of one overlay.
pub open spec fn raw_of_overlay(o: OverlayV) -> RawOverlayV {
    RawOverlayV { back: ident_text(o.back), front: ident_text(o.front) }
}

/// The mirror of a whole document.  Total: text extraction never fails.
pub open spec fn raw_of_flow(f: FlowV) -> RawFlowV {
    RawFlowV {
        resources: texts_of(f.resources),
        states: texts_of(f.states),
        intermediates: texts_of(f.intermediates),
        references: f.references.map_values(|r: ReferenceV| raw_of_reference(r)),
        transitions: f.transitions.map_values(|t: TransitionV| raw_of_transition(t)),
        overlays: f.overlays.map_values(|o: OverlayV| raw_of_overlay(o)),
    }
}

/// Re-parses a run of stored identifier texts, left to right; the first
/// failure aborts and names the section's field.
pub open spec fn idents_of_texts(v: Seq<Seq<char>>, k: int, field: Field) -> Result<
    Seq<IdentV>,
    Error,
>
    decreases v.len() - k when 0 <= k <= v.len()
{
    if k >= v.len() {
        Ok(Seq::empty())
    } else {
        match parse_ident_text(v[k]) {
            Err(e) => Err(raw_err(e, field)),
            Ok(p) => match idents_of_texts(v, k + 1, field) {
                Err(e) => Err(e),
                Ok(rest) => Ok(seq![p] + rest),
            },
        }
    }
}

/// Re-parses one mirrored reference.
pub open spec fn reference_of_raw(rv: RawReferenceV) -> Result<ReferenceV, Error> {
    match parse_ident_text(rv.state) {
        Err(e) => Err(raw_err(e, Field::ReferenceState)),
        Ok(st) => match parse_ident_text(rv.resource) {
            Err(e) => Err(raw_err(e, Field::ReferenceResource)),
            Ok(rs) => Ok(ReferenceV { state: st, mutable: rv.mutable, resource: rs }),
        },
    }
}

/// Re-parses mirrored references.
pub open spec fn refs_of_raw(v: Seq<RawReferenceV>, k: int) -> Result<Seq<ReferenceV>, Error>
    decreases v.len() - k when 0 <= k <= v.len()
{
    if k >= v.len() {
        Ok(Seq::empty())
    } else {
        match reference_of_raw(v[k]) {
            Err(e) => Err(e),
            Ok(r) => match refs_of_raw(v, k + 1) {
                Err(e) => Err(e),
                Ok(rest) => Ok(seq![r] + rest),
            },
        }
    }
}

/// Re-parses one mirrored transition.
pub open spec fn transition_of_raw(tv: RawTransitionV) -> Result<TransitionV, Error> {
    match parse_ident_text(tv.from) {
        Err(e) => Err(raw_err(e, Field::TransitionFrom)),
        Ok(from) => {
            let label: Result<Option<IdentV>, Error> = match tv.intermediate {
                Option::None => Ok(Option::None),
                Option::Some(s) => match parse_ident_text(s) {
                    Err(e) => Err(raw_err(e, Field::TransitionIntermediate)),
                    Ok(i) => Ok(Option::Some(i)),
                },
            };
            match label {
                Err(e) => Err(e),
                Ok(label) => match parse_ident_text(tv.to) {
                    Err(e) => Err(raw_err(e, Field::TransitionTo)),
                    Ok(to) => Ok(TransitionV { from, intermediate: label, to }),
                },
            }
        },
    }
}

/// Re-parses mirrored transitions.
pub open spec fn trs_of_raw(v: Seq<RawTransitionV>, k: int) -> Result<Seq<TransitionV>, Error>
    decreases v.len() - k when 0 <= k <= v.len()
{
    if k >= v.len() {
        Ok(Seq::empty())
    } else {
        match transition_of_raw(v[k]) {
            Err(e) => Err(e),
            Ok(t) => match trs_of_raw(v, k + 1) {
                Err(e) => Err(e),
                Ok(rest) => Ok(seq![t] + rest),
            },
        }
    }
}

/// Re-parses one mirrored overlay.
pub open spec fn overlay_of_raw(ov: RawOverlayV) -> Result<OverlayV, Error> {
    match parse_ident_text(ov.back) {
        Err(e) => Err(raw_err(e, Field::OverlayBack)),
        Ok(back) => match parse_ident_text(ov.front) {
            Err(e) => Err(raw_err(e, Field::OverlayFront)),
            Ok(front) => Ok(OverlayV { back, front }),
        },
    }
}

/// Re-parses mirrored overlays.
pub open spec fn ovs_of_raw(v: Seq<RawOverlayV>, k: int) -> Result<Seq<OverlayV>, Error>
    decreases v.len() - k when 0 <= k <= v.len()
{
    if k >= v.len() {
        Ok(Seq::empty())
    } else {
        match overlay_of_raw(v[k]) {
            Err(e) => Err(e),
            Ok(o) => match ovs_of_raw(v, k + 1) {
                Err(e) => Err(e),
                Ok(rest) => Ok(seq![o] + rest),
            },
        }
    }
}

/// Rebuilds a document from its mirror: each stored text re-parsed as one
/// identifier, sections visited in the fixed field order, first failure
/// reported.
pub open spec fn flow_of_raw(rf: RawFlowV) -> Result<FlowV, Error> {
    match idents_of_texts(rf.resources, 0, Field::Resources) {
        Err(e) => Err(e),
        Ok(resources) => match idents_of_texts(rf.states, 0, Field::States) {
            Err(e) => Err(e),
            Ok(states) => match idents_of_texts(rf.intermediates, 0, Field::Intermediates) {
                Err(e) => Err(e),
                Ok(intermediates) => match refs_of_raw(rf.references, 0) {
                    Err(e) => Err(e),
                    Ok(references) => match trs_of_raw(rf.transitions, 0) {
                        Err(e) => Err(e),
                        Ok(transitions) => match ovs_of_raw(rf.overlays, 0) {
                            Err(e) => Err(e),
                            Ok(overlays) => Ok(
                                FlowV {
                                    resources,
                                    states,
                                    intermediates,
                                    references,
                                    transitions,
                                    overlays,
                                },
                            ),
                        },
                    },
                },
            },
        },
    }
}

/// Maps a re-parse failure to the mirror's error, naming the field.
fn err_in(e: ParseError, field: Field) -> (r: Error)
    ensures
        r == raw_err(e, field),
{
    match e {
        ParseError::Lexical { .. } => Error::Lexical { field },
        ParseError::Grammar { .. } => Error::Grammar { field },
    }
}

impl RawResource {
    /// The mirror of a resource: its rendered identifier text.
    pub fn from(r: Resource) -> (rr: RawResource)
        ensures
            rr@ == ident_text(r@),
    {
        RawResource(ident_to_string(&r.0))
    }
}

impl Resource {
    /// Rebuilds a resource from its mirror by re-parsing the stored text.
    pub fn try_from(rr: RawResource) -> (r: Result<Resource, Error>)
        ensures
            match (r, parse_ident_text(rr@)) {
                (Ok(x), Ok(v)) => x@ == v,
                (Err(e), Err(pe)) => e == raw_err(pe, Field::Resources),
                _ => false,
            },
    {
        match parse_ident_all(rr.0.as_str()) {
            Err(e) => Err(err_in(e, Field::Resources)),
            Ok(x) => Ok(Resource(x)),
        }
    }
}

impl RawState {
    /// The mirror of a state.
    pub fn from(st: State) -> (rs: RawState)
        ensures
            rs@ == ident_text(st@),
    {
        RawState(ident_to_string(&st.0))
    }
}

impl State {
    /// Rebuilds a state from its mirror.
    pub fn try_from(rs: RawState) -> (r: Result<State, Error>)
        ensures
            match (r, parse_ident_text(rs@)) {
                (Ok(x), Ok(v)) => x@ == v,
                (Err(e), Err(pe)) => e == raw_err(pe, Field::States),
                _ => false,
            },
    {
        match parse_ident_all(rs.0.as_str()) {
            Err(e) => Err(err_in(e, Field::States)),
            Ok(x) => Ok(State(x)),
        }
    }
}

impl RawIntermediate {
    /// The mirror of an intermediate.
    pub fn from(im: Intermediate) -> (ri: RawIntermediate)
        ensures
            ri@ == ident_text(im@),
    {
        RawIntermediate(ident_to_string(&im.0))
    }
}

impl Intermediate {
    /// Rebuilds an intermediate from its mirror.
    pub fn try_from(ri: RawIntermediate) -> (r: Result<Intermediate, Error>)
        ensures
            match (r, parse_ident_text(ri@)) {
                (Ok(x), Ok(v)) => x@ == v,
                (Err(e), Err(pe)) => e == raw_err(pe, Field::Intermediates),
                _ => false,
            },
    {
        match parse_ident_all(ri.0.as_str()) {
            Err(e) => Err(err_in(e, Field::Intermediates)),
            Ok(x) => Ok(Intermediate(x)),
        }
    }
}

impl RawReference {
    /// The mirror of a reference: both identifier texts, the flag copied.
    pub fn from(reference: Reference) -> (rr: RawReference)
        ensures
            rr@ == raw_of_reference(reference@),
    {
        RawReference {
            state: RawState(ident_to_string(&reference.state.0)),
            mutable: reference.mutable,
            resource: RawResource(ident_to_string(&reference.resource.0)),
        }
    }
}

impl Reference {
    /// Rebuilds a reference from its mirror; either stored text can fail.
    pub fn try_from(rr: RawReference) -> (r: Result<Reference, Error>)
        ensures
            match (r, reference_of_raw(rr@)) {
                (Ok(x), Ok(v)) => x@ == v,
                (Err(e), Err(se)) => e == se,
                _ => false,
            },
    {
        match parse_ident_all(rr.state.0.as_str()) {
            Err(e) => Err(err_in(e, Field::ReferenceState)),
            Ok(st) => match parse_ident_all(rr.resource.0.as_str()) {
                Err(e) => Err(err_in(e, Field::ReferenceResource)),
                Ok(rs) => Ok(
                    Reference { state: State(st), mutable: rr.mutable, resource: Resource(rs) },
                ),
            },
        }
    }
}

impl RawTransition {
    /// The mirror of a transition.
    pub fn from(transition: Transition) -> (rt: RawTransition)
        ensures
            rt@ == raw_of_transition(transition@),
    {
        RawTransition {
            from: RawState(ident_to_string(&transition.from.0)),
            intermediate: match &transition.intermediate {
                Option::None => Option::None,
                Option::Some(i) => Option::Some(RawIntermediate(ident_to_string(&i.0))),
            },
            to: RawState(ident_to_string(&transition.to.0)),
        }
    }
}

impl Transition {
    /// Rebuilds a transition from its mirror; any of the three stored
    /// texts can fail.
    pub fn try_from(rt: RawTransition) -> (r: Result<Transition, Error>)
        ensures
            match (r, transition_of_raw(rt@)) {
                (Ok(x), Ok(v)) => x@ == v,
                (Err(e), Err(se)) => e == se,
                _ => false,
            },
    {
        match parse_ident_all(rt.from.0.as_str()) {
            Err(e) => Err(err_in(e, Field::TransitionFrom)),
            Ok(from) => {
                let label = match &rt.intermediate {
                    Option::None => Option::None,
                    Option::Some(ri) => match parse_ident_all(ri.0.as_str()) {
                        Err(e) => {
                            return Err(err_in(e, Field::TransitionIntermediate));
                        },
                        Ok(i) => Option::Some(Intermediate(i)),
                    },
                };
                match parse_ident_all(rt.to.0.as_str()) {
                    Err(e) => Err(err_in(e, Field::TransitionTo)),
                    Ok(to) => Ok(
                        Transition { from: State(from), intermediate: label, to: State(to) },
                    ),
                }
            },
        }
    }
}

impl RawOverlay {
    /// The mirror of an overlay.
    pub fn from(overlay: Overlay) -> (ro: RawOverlay)
        ensures
            ro@ == raw_of_overlay(overlay@),
    {
        RawOverlay {
            back: RawState(ident_to_string(&overlay.back.0)),
            front: RawState(ident_to_string(&overlay.front.0)),
        }
    }
}

impl Overlay {
    /// Rebuilds an overlay from its mirror.
    pub fn try_from(ro: RawOverlay) -> (r: Result<Overlay, Error>)
        ensures
            match (r, overlay_of_raw(ro@)) {
                (Ok(x), Ok(v)) => x@ == v,
                (Err(e), Err(se)) => e == se,
                _ => false,
            },
    {
        match parse_ident_all(ro.back.0.as_str()) {
            Err(e) => Err(err_in(e, Field::OverlayBack)),
            Ok(back) => match parse_ident_all(ro.front.0.as_str()) {
                Err(e) => Err(err_in(e, Field::OverlayFront)),
                Ok(front) => Ok(Overlay { back: State(back), front: State(front) }),
            },
        }
    }
}

impl RawFlow {
    /// The mirror of a whole document: pure text extraction, never
    /// failing, order kept in every section.
    pub fn from(flow: Flow) -> (rf: RawFlow)
        ensures
            rf@ == raw_of_flow(flow@),
    {
        let ghost fv = flow@;
        let mut resources: Vec<RawResource> = Vec::new();
        let mut k: usize = 0;
        while k < flow.resources.items.len()
            invariant
                k <= flow.resources.items@.len(),
                fv == flow@,
                resources@.map_values(|t: RawResource| t@) == texts_of(fv.resources).subrange(
                    0,
                    k as int,
                ),
            decreases flow.resources.items@.len() - k,
        {
            let ghost before = resources@;
            resources.push(RawResource(ident_to_string(&flow.resources.items[k].0)));
            proof {
                assert(fv.resources[k as int] == flow.resources.items@[k as int]@);
                assert(texts_of(fv.resources).len() == fv.resources.len());
                assert(before.map_values(|t: RawResource| t@).len() == before.len());
                assert(before.len() == k as int);
                assert(resources@ == before.push(resources@[k as int]));
                assert(resources@.map_values(|t: RawResource| t@) =~= texts_of(
                    fv.resources,
                ).subrange(0, k as int + 1)) by {
                    let lhs = resources@.map_values(|t: RawResource| t@);
                    let rhs = texts_of(fv.resources).subrange(0, k as int + 1);
                    assert(forall|idx: int|
                        0 <= idx < k as int ==> #[trigger] resources@[idx] == before[idx]);
                    assert(forall|idx: int|
                        0 <= idx <= k as int ==> #[trigger] lhs[idx] == resources@[idx]@);
                    assert(forall|idx: int|
                        0 <= idx <= k as int ==> #[trigger] rhs[idx] == texts_of(fv.resources)[idx]);
                    assert(forall|idx: int|
                        0 <= idx < k as int ==> before.map_values(|t: RawResource| t@)[idx]
                            == #[trigger] before[idx]@);
                }
            }
            k = k + 1;
        }
        let mut states: Vec<RawState> = Vec::new();
        let mut k: usize = 0;
        while k < flow.states.items.len()
            invariant
                k <= flow.states.items@.len(),
                fv == flow@,
                states@.map_values(|t: RawState| t@) == texts_of(fv.states).subrange(0, k as int),
            decreases flow.states.items@.len() - k,
        {
            let ghost before = states@;
            states.push(RawState(ident_to_string(&flow.states.items[k].0)));
            proof {
                assert(fv.states[k as int] == flow.states.items@[k as int]@);
                assert(before.map_values(|t: RawState| t@).len() == before.len());
                assert(before.len() == k as int);
                assert(states@.map_values(|t: RawState| t@) =~= texts_of(fv.states).subrange(
                    0,
                    k as int + 1,
                )) by {
                    let lhs = states@.map_values(|t: RawState| t@);
                    let rhs = texts_of(fv.states).subrange(0, k as int + 1);
                    assert(forall|idx: int|
                        0 <= idx < k as int ==> #[trigger] states@[idx] == before[idx]);
                    assert(forall|idx: int|
                        0 <= idx <= k as int ==> #[trigger] lhs[idx] == states@[idx]@);
                    assert(forall|idx: int|
                        0 <= idx <= k as int ==> #[trigger] rhs[idx] == texts_of(fv.states)[idx]);
                    assert(forall|idx: int|
                        0 <= idx < k as int ==> before.map_values(|t: RawState| t@)[idx]
                            == #[trigger] before[idx]@);
                }
            }
            k = k + 1;
        }
        let mut intermediates: Vec<RawIntermediate> = Vec::new();
        let mut k: usize = 0;
        while k < flow.intermediates.items.len()
            invariant
                k <= flow.intermediates.items@.len(),
                fv == flow@,
                intermediates@.map_values(|t: RawIntermediate| t@) == texts_of(
                    fv.intermediates,
                ).subrange(0, k as int),
            decreases flow.intermediates.items@.len() - k,
        {
            let ghost before = intermediates@;
            intermediates.push(RawIntermediate(ident_to_string(&flow.intermediates.items[k].0)));
            proof {
                assert(fv.intermediates[k as int] == flow.intermediates.items@[k as int]@);
                assert(before.map_values(|t: RawIntermediate| t@).len() == before.len());
                assert(before.len() == k as int);
                assert(intermediates@.map_values(|t: RawIntermediate| t@) =~= texts_of(
                    fv.intermediates,
                ).subrange(0, k as int + 1)) by {
                    let lhs = intermediates@.map_values(|t: RawIntermediate| t@);
                    let rhs = texts_of(fv.intermediates).subrange(0, k as int + 1);
                    assert(forall|idx: int|
                        0 <= idx < k as int ==> #[trigger] intermediates@[idx] == before[idx]);
                    assert(forall|idx: int|
                        0 <= idx <= k as int ==> #[trigger] lhs[idx] == intermediates@[idx]@);
                    assert(forall|idx: int|
                        0 <= idx <= k as int ==> #[trigger] rhs[idx] == texts_of(
                            fv.intermediates,
                        )[idx]);
                    assert(forall|idx: int|
                        0 <= idx < k as int ==> before.map_values(|t: RawIntermediate| t@)[idx]
                            == #[trigger] before[idx]@);
                }
            }
            k = k + 1;
        }
        let mut references: Vec<RawReference> = Vec::new();
        let mut k: usize = 0;
        while k < flow.references.items.len()
            invariant
                k <= flow.references.items@.len(),
                fv == flow@,
                references@.map_values(|t: RawReference| t@) == fv.references.map_values(
                    |r: ReferenceV| raw_of_reference(r),
                ).subrange(0, k as int),
            decreases flow.references.items@.len() - k,
        {
            let item = &flow.references.items[k];
            let ghost before = references@;
            references.push(
                RawReference {
                    state: RawState(ident_to_string(&item.state.0)),
                    mutable: item.mutable,
                    resource: RawResource(ident_to_string(&item.resource.0)),
                },
            );
            proof {
                assert(fv.references[k as int] == flow.references.items@[k as int]@);
                assert(before.map_values(|t: RawReference| t@).len() == before.len());
                assert(before.len() == k as int);
                assert(references@.map_values(|t: RawReference| t@) =~= fv.references.map_values(
                    |r: ReferenceV| raw_of_reference(r),
                ).subrange(0, k as int + 1)) by {
                    let lhs = references@.map_values(|t: RawReference| t@);
                    let target = fv.references.map_values(|r: ReferenceV| raw_of_reference(r));
                    let rhs = target.subrange(0, k as int + 1);
                    assert(forall|idx: int|
                        0 <= idx < k as int ==> #[trigger] references@[idx] == before[idx]);
                    assert(forall|idx: int|
                        0 <= idx <= k as int ==> #[trigger] lhs[idx] == references@[idx]@);
                    assert(forall|idx: int|
                        0 <= idx <= k as int ==> #[trigger] rhs[idx] == target[idx]);
                    assert(forall|idx: int|
                        0 <= idx < k as int ==> before.map_values(|t: RawReference| t@)[idx]
                            == #[trigger] before[idx]@);
                }
            }
            k = k + 1;
        }
        let mut transitions: Vec<RawTransition> = Vec::new();
        let mut k: usize = 0;
        while k < flow.transitions.items.len()
            invariant
                k <= flow.transitions.items@.len(),
                fv == flow@,
                transitions@.map_values(|t: RawTransition| t@) == fv.transitions.map_values(
                    |t: TransitionV| raw_of_transition(t),
                ).subrange(0, k as int),
            decreases flow.transitions.items@.len() - k,
        {
            let item = &flow.transitions.items[k];
            let ghost before = transitions@;
            transitions.push(
                RawTransition {
                    from: RawState(ident_to_string(&item.from.0)),
                    intermediate: match &item.intermediate {
                        Option::None => Option::None,
                        Option::Some(i) => Option::Some(RawIntermediate(ident_to_string(&i.0))),
                    },
                    to: RawState(ident_to_string(&item.to.0)),
                },
            );
            proof {
                assert(fv.transitions[k as int] == flow.transitions.items@[k as int]@);
                assert(before.map_values(|t: RawTransition| t@).len() == before.len());
                assert(before.len() == k as int);
                assert(transitions@.map_values(|t: RawTransition| t@) =~= fv.transitions.map_values(
                    |t: TransitionV| raw_of_transition(t),
                ).subrange(0, k as int + 1)) by {
                    let lhs = transitions@.map_values(|t: RawTransition| t@);
                    let target = fv.transitions.map_values(|t: TransitionV| raw_of_transition(t));
                    let rhs = target.subrange(0, k as int + 1);
                    assert(forall|idx: int|
                        0 <= idx < k as int ==> #[trigger] transitions@[idx] == before[idx]);
                    assert(forall|idx: int|
                        0 <= idx <= k as int ==> #[trigger] lhs[idx] == transitions@[idx]@);
                    assert(forall|idx: int|
                        0 <= idx <= k as int ==> #[trigger] rhs[idx] == target[idx]);
                    assert(forall|idx: int|
                        0 <= idx < k as int ==> before.map_values(|t: RawTransition| t@)[idx]
                            == #[trigger] before[idx]@);
                }
            }
            k = k + 1;
        }
        let mut overlays: Vec<RawOverlay> = Vec::new();
        let mut k: usize = 0;
        while k < flow.overlays.items.len()
            invariant
                k <= flow.overlays.items@.len(),
                fv == flow@,
                overlays@.map_values(|t: RawOverlay| t@) == fv.overlays.map_values(
                    |o: OverlayV| raw_of_overlay(o),
                ).subrange(0, k as int),
            decreases flow.overlays.items@.len() - k,
        {
            let item = &flow.overlays.items[k];
            let ghost before = overlays@;
            overlays.push(
                RawOverlay {
                    back: RawState(ident_to_string(&item.back.0)),
                    front: RawState(ident_to_string(&item.front.0)),
                },
            );
            proof {
                assert(fv.overlays[k as int] == flow.overlays.items@[k as int]@);
                assert(before.map_values(|t: RawOverlay| t@).len() == before.len());
                assert(before.len() == k as int);
                assert(overlays@.map_values(|t: RawOverlay| t@) =~= fv.overlays.map_values(
                    |o: OverlayV| raw_of_overlay(o),
                ).subrange(0, k as int + 1)) by {
                    let lhs = overlays@.map_values(|t: RawOverlay| t@);
                    let target = fv.overlays.map_values(|o: OverlayV| raw_of_overlay(o));
                    let rhs = target.subrange(0, k as int + 1);
                    assert(forall|idx: int|
                        0 <= idx < k as int ==> #[trigger] overlays@[idx] == before[idx]);
                    assert(forall|idx: int|
                        0 <= idx <= k as int ==> #[trigger] lhs[idx] == overlays@[idx]@);
                    assert(forall|idx: int|
                        0 <= idx <= k as int ==> #[trigger] rhs[idx] == target[idx]);
                    assert(forall|idx: int|
                        0 <= idx < k as int ==> before.map_values(|t: RawOverlay| t@)[idx]
                            == #[trigger] before[idx]@);
                }
            }
            k = k + 1;
        }
        let rf = RawFlow { resources, states, intermediates, references, transitions, overlays };
        proof {
            assert(texts_of(fv.resources).subrange(0, texts_of(fv.resources).len() as int)
                =~= texts_of(fv.resources));
            assert(texts_of(fv.states).subrange(0, texts_of(fv.states).len() as int) =~= texts_of(
                fv.states,
            ));
            assert(texts_of(fv.intermediates).subrange(
                0,
                texts_of(fv.intermediates).len() as int,
            ) =~= texts_of(fv.intermediates));
            let refs = fv.references.map_values(|r: ReferenceV| raw_of_reference(r));
            assert(refs.subrange(0, refs.len() as int) =~= refs);
            let trs = fv.transitions.map_values(|t: TransitionV| raw_of_transition(t));
            assert(trs.subrange(0, trs.len() as int) =~= trs);
            let ovs = fv.overlays.map_values(|o: OverlayV| raw_of_overlay(o));
            assert(ovs.subrange(0, ovs.len() as int) =~= ovs);
            assert(rf@ =~= raw_of_flow(fv));
        }
        rf
    }
}

impl Flow {
    /// Rebuilds a document from its mirror: every stored text re-parsed
    /// as one identifier, sections in the fixed field order, the first
    /// failure reported with its field.
    #[verifier::loop_isolation(false)]
    pub fn try_from(rf: RawFlow) -> (r: Result<Flow, Error>)
        ensures
            match (r, flow_of_raw(rf@)) {
                (Ok(f), Ok(fv)) => f@ == fv,
                (Err(e), Err(se)) => e == se,
                _ => false,
            },
    {
        let ghost rv = rf@;
        let mut resources: Vec<Resource> = Vec::new();
        let mut k: usize = 0;
        while k < rf.resources.len()
            invariant
                k <= rf.resources@.len(),
                rv == rf@,
                (match idents_of_texts(rv.resources, k as int, Field::Resources) {
                    Ok(rest) => idents_of_texts(rv.resources, 0, Field::Resources) == Ok::<
                        Seq<IdentV>,
                        Error,
                    >(resources@.map_values(|t: Resource| t@) + rest),
                    Err(e) => idents_of_texts(rv.resources, 0, Field::Resources) == Err::<
                        Seq<IdentV>,
                        Error,
                    >(e),
                }),
            decreases rf.resources@.len() - k,
        {
            proof {
                assert(rv.resources[k as int] == rf.resources@[k as int]@);
            }
            match parse_ident_all(rf.resources[k].0.as_str()) {
                Err(e) => {
                    return Err(err_in(e, Field::Resources));
                },
                Ok(x) => {
                    let ghost before = resources@;
                    let ghost xv = x@;
                    resources.push(Resource(x));
                    proof {
                        assert(before.map_values(|t: Resource| t@).len() == before.len());
                        assert(resources@.map_values(|t: Resource| t@) =~= before.map_values(
                            |t: Resource| t@,
                        ) + seq![xv]) by {
                            let lhs = resources@.map_values(|t: Resource| t@);
                            assert(forall|idx: int|
                                0 <= idx < before.len() ==> #[trigger] resources@[idx]
                                    == before[idx]);
                            assert(forall|idx: int|
                                0 <= idx < resources@.len() ==> #[trigger] lhs[idx]
                                    == resources@[idx]@);
                            assert(forall|idx: int|
                                0 <= idx < before.len() ==> before.map_values(|t: Resource| t@)[idx]
                                    == #[trigger] before[idx]@);
                        }
                        if let Ok(rest) = idents_of_texts(rv.resources, k as int + 1, Field::Resources) {
                            assert(before.map_values(|t: Resource| t@) + (seq![xv] + rest) =~= (
                            before.map_values(|t: Resource| t@) + seq![xv]) + rest);
                        }
                    }
                    k = k + 1;
                },
            }
        }
        proof {
            assert(resources@.map_values(|t: Resource| t@) + Seq::<IdentV>::empty()
                =~= resources@.map_values(|t: Resource| t@));
        }
        let mut states: Vec<State> = Vec::new();
        let mut k: usize = 0;
        while k < rf.states.len()
            invariant
                k <= rf.states@.len(),
                rv == rf@,
                (match idents_of_texts(rv.states, k as int, Field::States) {
                    Ok(rest) => idents_of_texts(rv.states, 0, Field::States) == Ok::<
                        Seq<IdentV>,
                        Error,
                    >(states@.map_values(|t: State| t@) + rest),
                    Err(e) => idents_of_texts(rv.states, 0, Field::States) == Err::<
                        Seq<IdentV>,
                        Error,
                    >(e),
                }),
            decreases rf.states@.len() - k,
        {
            proof {
                assert(rv.states[k as int] == rf.states@[k as int]@);
            }
            match parse_ident_all(rf.states[k].0.as_str()) {
                Err(e) => {
                    return Err(err_in(e, Field::States));
                },
                Ok(x) => {
                    let ghost before = states@;
                    let ghost xv = x@;
                    states.push(State(x));
                    proof {
                        assert(before.map_values(|t: State| t@).len() == before.len());
                        assert(states@.map_values(|t: State| t@) =~= before.map_values(
                            |t: State| t@,
                        ) + seq![xv]) by {
                            let lhs = states@.map_values(|t: State| t@);
                            assert(forall|idx: int|
                                0 <= idx < before.len() ==> #[trigger] states@[idx] == before[idx]);
                            assert(forall|idx: int|
                                0 <= idx < states@.len() ==> #[trigger] lhs[idx]
                                    == states@[idx]@);
                            assert(forall|idx: int|
                                0 <= idx < before.len() ==> before.map_values(|t: State| t@)[idx]
                                    == #[trigger] before[idx]@);
                        }
                        if let Ok(rest) = idents_of_texts(rv.states, k as int + 1, Field::States) {
                            assert(before.map_values(|t: State| t@) + (seq![xv] + rest) =~= (
                            before.map_values(|t: State| t@) + seq![xv]) + rest);
                        }
                    }
                    k = k + 1;
                },
            }
        }
        proof {
            assert(states@.map_values(|t: State| t@) + Seq::<IdentV>::empty() =~= states@.map_values(
                |t: State| t@,
            ));
        }
        let mut intermediates: Vec<Intermediate> = Vec::new();
        let mut k: usize = 0;
        while k < rf.intermediates.len()
            invariant
                k <= rf.intermediates@.len(),
                rv == rf@,
                (match idents_of_texts(rv.intermediates, k as int, Field::Intermediates) {
                    Ok(rest) => idents_of_texts(rv.intermediates, 0, Field::Intermediates) == Ok::<
                        Seq<IdentV>,
                        Error,
                    >(intermediates@.map_values(|t: Intermediate| t@) + rest),
                    Err(e) => idents_of_texts(rv.intermediates, 0, Field::Intermediates) == Err::<
                        Seq<IdentV>,
                        Error,
                    >(e),
                }),
            decreases rf.intermediates@.len() - k,
        {
            proof {
                assert(rv.intermediates[k as int] == rf.intermediates@[k as int]@);
            }
            match parse_ident_all(rf.intermediates[k].0.as_str()) {
                Err(e) => {
                    return Err(err_in(e, Field::Intermediates));
                },
                Ok(x) => {
                    let ghost before = intermediates@;
                    let ghost xv = x@;
                    intermediates.push(Intermediate(x));
                    proof {
                        assert(before.map_values(|t: Intermediate| t@).len() == before.len());
                        assert(intermediates@.map_values(|t: Intermediate| t@)
                            =~= before.map_values(|t: Intermediate| t@) + seq![xv]) by {
                            let lhs = intermediates@.map_values(|t: Intermediate| t@);
                            assert(forall|idx: int|
                                0 <= idx < before.len() ==> #[trigger] intermediates@[idx]
                                    == before[idx]);
                            assert(forall|idx: int|
                                0 <= idx < intermediates@.len() ==> #[trigger] lhs[idx]
                                    == intermediates@[idx]@);
                            assert(forall|idx: int|
                                0 <= idx < before.len() ==> before.map_values(
                                    |t: Intermediate| t@,
                                )[idx] == #[trigger] before[idx]@);
                        }
                        if let Ok(rest) = idents_of_texts(
                            rv.intermediates,
                            k as int + 1,
                            Field::Intermediates,
                        ) {
                            assert(before.map_values(|t: Intermediate| t@) + (seq![xv] + rest)
                                =~= (before.map_values(|t: Intermediate| t@) + seq![xv]) + rest);
                        }
                    }
                    k = k + 1;
                },
            }
        }
        proof {
            assert(intermediates@.map_values(|t: Intermediate| t@) + Seq::<IdentV>::empty()
                =~= intermediates@.map_values(|t: Intermediate| t@));
        }
        let mut references: Vec<Reference> = Vec::new();
        let mut k: usize = 0;
        while k < rf.references.len()
            invariant
                k <= rf.references@.len(),
                rv == rf@,
                (match refs_of_raw(rv.references, k as int) {
                    Ok(rest) => refs_of_raw(rv.references, 0) == Ok::<Seq<ReferenceV>, Error>(
                        references@.map_values(|t: Reference| t@) + rest,
                    ),
                    Err(e) => refs_of_raw(rv.references, 0) == Err::<Seq<ReferenceV>, Error>(e),
                }),
            decreases rf.references@.len() - k,
        {
            proof {
                assert(rv.references[k as int] == rf.references@[k as int]@);
            }
            let item = &rf.references[k];
            match parse_ident_all(item.state.0.as_str()) {
                Err(e) => {
                    return Err(err_in(e, Field::ReferenceState));
                },
                Ok(st) => {
                    match parse_ident_all(item.resource.0.as_str()) {
                        Err(e) => {
                            return Err(err_in(e, Field::ReferenceResource));
                        },
                        Ok(rs) => {
                            let ghost before = references@;
                            let reference = Reference {
                                state: State(st),
                                mutable: item.mutable,
                                resource: Resource(rs),
                            };
                            let ghost xv = reference@;
                            proof {
                                assert(reference_of_raw(rv.references[k as int]) == Ok::<
                                    ReferenceV,
                                    Error,
                                >(xv));
                            }
                            references.push(reference);
                            proof {
                                assert(before.map_values(|t: Reference| t@).len() == before.len());
                                assert(references@.map_values(|t: Reference| t@)
                                    =~= before.map_values(|t: Reference| t@) + seq![xv]) by {
                                    let lhs = references@.map_values(|t: Reference| t@);
                                    assert(forall|idx: int|
                                        0 <= idx < before.len() ==> #[trigger] references@[idx]
                                            == before[idx]);
                                    assert(forall|idx: int|
                                        0 <= idx < references@.len() ==> #[trigger] lhs[idx]
                                            == references@[idx]@);
                                    assert(forall|idx: int|
                                        0 <= idx < before.len() ==> before.map_values(
                                            |t: Reference| t@,
                                        )[idx] == #[trigger] before[idx]@);
                                }
                                if let Ok(rest) = refs_of_raw(rv.references, k as int + 1) {
                                    assert(before.map_values(|t: Reference| t@) + (seq![xv] + rest)
                                        =~= (before.map_values(|t: Reference| t@) + seq![xv])
                                        + rest);
                                }
                            }
                            k = k + 1;
                        },
                    }
                },
            }
        }
        proof {
            assert(references@.map_values(|t: Reference| t@) + Seq::<ReferenceV>::empty()
                =~= references@.map_values(|t: Reference| t@));
        }
        let mut transitions: Vec<Transition> = Vec::new();
        let mut k: usize = 0;
        while k < rf.transitions.len()
            invariant
                k <= rf.transitions@.len(),
                rv == rf@,
                (match trs_of_raw(rv.transitions, k as int) {
                    Ok(rest) => trs_of_raw(rv.transitions, 0) == Ok::<Seq<TransitionV>, Error>(
                        transitions@.map_values(|t: Transition| t@) + rest,
                    ),
                    Err(e) => trs_of_raw(rv.transitions, 0) == Err::<Seq<TransitionV>, Error>(e),
                }),
            decreases rf.transitions@.len() - k,
        {
            proof {
                assert(rv.transitions[k as int] == rf.transitions@[k as int]@);
            }
            let item = &rf.transitions[k];
            match parse_ident_all(item.from.0.as_str()) {
                Err(e) => {
                    return Err(err_in(e, Field::TransitionFrom));
                },
                Ok(from) => {
                    let label = match &item.intermediate {
                        Option::None => Option::None,
                        Option::Some(ri) => match parse_ident_all(ri.0.as_str()) {
                            Err(e) => {
                                return Err(err_in(e, Field::TransitionIntermediate));
                            },
                            Ok(i) => Option::Some(Intermediate(i)),
                        },
                    };
                    match parse_ident_all(item.to.0.as_str()) {
                        Err(e) => {
                            return Err(err_in(e, Field::TransitionTo));
                        },
                        Ok(to) => {
                            let ghost before = transitions@;
                            let transition = Transition {
                                from: State(from),
                                intermediate: label,
                                to: State(to),
                            };
                            let ghost xv = transition@;
                            proof {
                                assert(transition_of_raw(rv.transitions[k as int]) == Ok::<
                                    TransitionV,
                                    Error,
                                >(xv));
                            }
                            transitions.push(transition);
                            proof {
                                assert(before.map_values(|t: Transition| t@).len() == before.len());
                                assert(transitions@.map_values(|t: Transition| t@)
                                    =~= before.map_values(|t: Transition| t@) + seq![xv]) by {
                                    let lhs = transitions@.map_values(|t: Transition| t@);
                                    assert(forall|idx: int|
                                        0 <= idx < before.len() ==> #[trigger] transitions@[idx]
                                            == before[idx]);
                                    assert(forall|idx: int|
                                        0 <= idx < transitions@.len() ==> #[trigger] lhs[idx]
                                            == transitions@[idx]@);
                                    assert(forall|idx: int|
                                        0 <= idx < before.len() ==> before.map_values(
                                            |t: Transition| t@,
                                        )[idx] == #[trigger] before[idx]@);
                                }
                                if let Ok(rest) = trs_of_raw(rv.transitions, k as int + 1) {
                                    assert(before.map_values(|t: Transition| t@) + (seq![xv]
                                        + rest) =~= (before.map_values(|t: Transition| t@)
                                        + seq![xv]) + rest);
                                }
                            }
                            k = k + 1;
                        },
                    }
                },
            }
        }
        proof {
            assert(transitions@.map_values(|t: Transition| t@) + Seq::<TransitionV>::empty()
                =~= transitions@.map_values(|t: Transition| t@));
        }
        let mut overlays: Vec<Overlay> = Vec::new();
        let mut k: usize = 0;
        while k < rf.overlays.len()
            invariant
                k <= rf.overlays@.len(),
                rv == rf@,
                (match ovs_of_raw(rv.overlays, k as int) {
                    Ok(rest) => ovs_of_raw(rv.overlays, 0) == Ok::<Seq<OverlayV>, Error>(
                        overlays@.map_values(|t: Overlay| t@) + rest,
                    ),
                    Err(e) => ovs_of_raw(rv.overlays, 0) == Err::<Seq<OverlayV>, Error>(e),
                }),
            decreases rf.overlays@.len() - k,
        {
            proof {
                assert(rv.overlays[k as int] == rf.overlays@[k as int]@);
            }
            let item = &rf.overlays[k];
            match parse_ident_all(item.back.0.as_str()) {
                Err(e) => {
                    return Err(err_in(e, Field::OverlayBack));
                },
                Ok(back) => {
                    match parse_ident_all(item.front.0.as_str()) {
                        Err(e) => {
                            return Err(err_in(e, Field::OverlayFront));
                        },
                        Ok(front) => {
                            let ghost before = overlays@;
                            let overlay = Overlay { back: State(back), front: State(front) };
                            let ghost xv = overlay@;
                            proof {
                                assert(overlay_of_raw(rv.overlays[k as int]) == Ok::<
                                    OverlayV,
                                    Error,
                                >(xv));
                            }
                            overlays.push(overlay);
                            proof {
                                assert(before.map_values(|t: Overlay| t@).len() == before.len());
                                assert(overlays@.map_values(|t: Overlay| t@) =~= before.map_values(
                                    |t: Overlay| t@,
                                ) + seq![xv]) by {
                                    let lhs = overlays@.map_values(|t: Overlay| t@);
                                    assert(forall|idx: int|
                                        0 <= idx < before.len() ==> #[trigger] overlays@[idx]
                                            == before[idx]);
                                    assert(forall|idx: int|
                                        0 <= idx < overlays@.len() ==> #[trigger] lhs[idx]
                                            == overlays@[idx]@);
                                    assert(forall|idx: int|
                                        0 <= idx < before.len() ==> before.map_values(
                                            |t: Overlay| t@,
                                        )[idx] == #[trigger] before[idx]@);
                                }
                                if let Ok(rest) = ovs_of_raw(rv.overlays, k as int + 1) {
                                    assert(before.map_values(|t: Overlay| t@) + (seq![xv] + rest)
                                        =~= (before.map_values(|t: Overlay| t@) + seq![xv]) + rest);
                                }
                            }
                            k = k + 1;
                        },
                    }
                },
            }
        }
        proof {
            assert(overlays@.map_values(|t: Overlay| t@) + Seq::<OverlayV>::empty()
                =~= overlays@.map_values(|t: Overlay| t@));
        }
        let f = Flow {
            resources: Item { items: resources },
            states: Item { items: states },
            intermediates: Item { items: intermediates },
            references: Item { items: references },
            transitions: Item { items: transitions },
            overlays: Item { items: overlays },
        };
        proof {
            if let Ok(fv) = flow_of_raw(rv) {
                assert(f@ =~= fv);
            }
        }
        Ok(f)
    }
}

/// A section of stored texts taken from a well-formed document re-parses
/// to the very identifiers it was written from.
pub proof fn lemma_texts_of_roundtrip(v: Seq<IdentV>, k: int, field: Field)
    requires
        0 <= k <= v.len(),
        forall|m: int| 0 <= m < v.len() ==> wf_ident(#[trigger] v[m]),
    ensures
        idents_of_texts(texts_of(v), k, field) == Ok::<Seq<IdentV>, Error>(v.skip(k)),
    decreases v.len() - k,
{
    assert(texts_of(v).len() == v.len());
    if k < v.len() {
        assert(texts_of(v)[k] == ident_text(v[k]));
        lemma_ident_text_roundtrip(v[k]);
        lemma_texts_of_roundtrip(v, k + 1, field);
        assert(seq![v[k]] + v.skip(k + 1) =~= v.skip(k));
    } else {
        assert(v.skip(k) =~= Seq::<IdentV>::empty());
    }
}

pub proof fn lemma_refs_roundtrip(v: Seq<ReferenceV>, k: int)
    requires
        0 <= k <= v.len(),
        forall|m: int| 0 <= m < v.len() ==> wf_reference(#[trigger] v[m]),
    ensures
        refs_of_raw(v.map_values(|r: ReferenceV| raw_of_reference(r)), k) == Ok::<
            Seq<ReferenceV>,
            Error,
        >(v.skip(k)),
    decreases v.len() - k,
{
    let raws = v.map_values(|r: ReferenceV| raw_of_reference(r));
    assert(raws.len() == v.len());
    if k < v.len() {
        assert(raws[k] == raw_of_reference(v[k]));
        lemma_ident_text_roundtrip(v[k].state);
        lemma_ident_text_roundtrip(v[k].resource);
        assert(reference_of_raw(raws[k]) == Ok::<ReferenceV, Error>(
            ReferenceV { state: v[k].state, mutable: v[k].mutable, resource: v[k].resource },
        ));
        assert(ReferenceV { state: v[k].state, mutable: v[k].mutable, resource: v[k].resource }
            =~= v[k]);
        lemma_refs_roundtrip(v, k + 1);
        assert(seq![v[k]] + v.skip(k + 1) =~= v.skip(k));
    } else {
        assert(v.skip(k) =~= Seq::<ReferenceV>::empty());
    }
}

pub proof fn lemma_trs_roundtrip(v: Seq<TransitionV>, k: int)
    requires
        0 <= k <= v.len(),
        forall|m: int| 0 <= m < v.len() ==> wf_transition(#[trigger] v[m]),
    ensures
        trs_of_raw(v.map_values(|t: TransitionV| raw_of_transition(t)), k) == Ok::<
            Seq<TransitionV>,
            Error,
        >(v.skip(k)),
    decreases v.len() - k,
{
    let raws = v.map_values(|t: TransitionV| raw_of_transition(t));
    assert(raws.len() == v.len());
    if k < v.len() {
        assert(raws[k] == raw_of_transition(v[k]));
        lemma_ident_text_roundtrip(v[k].from);
        lemma_ident_text_roundtrip(v[k].to);
        match v[k].intermediate {
            Option::None => {},
            Option::Some(i) => {
                lemma_ident_text_roundtrip(i);
            },
        }
        assert(transition_of_raw(raws[k]) == Ok::<TransitionV, Error>(
            TransitionV { from: v[k].from, intermediate: v[k].intermediate, to: v[k].to },
        ));
        assert(TransitionV { from: v[k].from, intermediate: v[k].intermediate, to: v[k].to }
            =~= v[k]);
        lemma_trs_roundtrip(v, k + 1);
        assert(seq![v[k]] + v.skip(k + 1) =~= v.skip(k));
    } else {
        assert(v.skip(k) =~= Seq::<TransitionV>::empty());
    }
}

pub proof fn lemma_ovs_roundtrip(v: Seq<OverlayV>, k: int)
    requires
        0 <= k <= v.len(),
        forall|m: int| 0 <= m < v.len() ==> wf_overlay(#[trigger] v[m]),
    ensures
        ovs_of_raw(v.map_values(|o: OverlayV| raw_of_overlay(o)), k) == Ok::<Seq<OverlayV>, Error>(
            v.skip(k),
        ),
    decreases v.len() - k,
{
    let raws = v.map_values(|o: OverlayV| raw_of_overlay(o));
    assert(raws.len() == v.len());
    if k < v.len() {
        assert(raws[k] == raw_of_overlay(v[k]));
        lemma_ident_text_roundtrip(v[k].back);
        lemma_ident_text_roundtrip(v[k].front);
        assert(overlay_of_raw(raws[k]) == Ok::<OverlayV, Error>(
            OverlayV { back: v[k].back, front: v[k].front },
        ));
        assert(OverlayV { back: v[k].back, front: v[k].front } =~= v[k]);
        lemma_ovs_roundtrip(v, k + 1);
        assert(seq![v[k]] + v.skip(k + 1) =~= v.skip(k));
    } else {
        assert(v.skip(k) =~= Seq::<OverlayV>::empty());
    }
}

/// Canonical round trip: converting a well-formed document to its mirror
/// and back yields exactly the same document — identifier text,
/// structure, option presence, and order all kept.
pub proof fn lemma_canonical_roundtrip(f: FlowV)
    requires
        f.wf(),
    ensures
        flow_of_raw(raw_of_flow(f)) == Ok::<FlowV, Error>(f),
{
    lemma_texts_of_roundtrip(f.resources, 0, Field::Resources);
    lemma_texts_of_roundtrip(f.states, 0, Field::States);
    lemma_texts_of_roundtrip(f.intermediates, 0, Field::Intermediates);
    lemma_refs_roundtrip(f.references, 0);
    lemma_trs_roundtrip(f.transitions, 0);
    lemma_ovs_roundtrip(f.overlays, 0);
    assert(f.resources.skip(0) =~= f.resources);
    assert(f.states.skip(0) =~= f.states);
    assert(f.intermediates.skip(0) =~= f.intermediates);
    assert(f.references.skip(0) =~= f.references);
    assert(f.transitions.skip(0) =~= f.transitions);
    assert(f.overlays.skip(0) =~= f.overlays);
    assert(FlowV {
        resources: f.resources,
        states: f.states,
        intermediates: f.intermediates,
        references: f.references,
        transitions: f.transitions,
        overlays: f.overlays,
    } =~= f);
}

} // verus!
