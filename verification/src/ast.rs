//! The typed tree of a Flow document and its mathematical model.
//!
//! Every identifier is a qualified name: one or more word segments joined
//! by `::`.  The model of an identifier is the sequence of its segments'
//! character sequences; the model of the whole tree is built from those.

use vstd::prelude::*;
use crate::token::wf_word;

verus! {

/// Model of a qualified identifier: the segments, in order.
pub type IdentV = Seq<Seq<char>>;

/// A segment the grammar accepts: a well-formed word other than the
/// reserved keyword `mut`, which marks a mutable reference binding.
pub open spec fn wf_segment(w: Seq<char>) -> bool {
    wf_word(w) && w != "mut"@
}

/// A well-formed identifier: at least one segment, all of them acceptable.
pub open spec fn wf_ident(p: IdentV) -> bool {
    p.len() > 0 && (forall|k: int| 0 <= k < p.len() ==> wf_segment(#[trigger] p[k]))
}

/// A qualified identifier, e.g. `module::Type`.
#[derive(Debug)]
pub struct Ident {
    pub segments: Vec<String>,
}

impl View for Ident {
    type V = IdentV;

    open spec fn view(&self) -> IdentV {
        self.segments.deep_view()
    }
}

/// A declared resource: a capability a state may hold.
#[derive(Debug)]
pub struct Resource(pub Ident);

impl View for Resource {
    type V = IdentV;

    open spec fn view(&self) -> IdentV {
        self.0@
    }
}

/// A declared state: a node of the flow graph.
#[derive(Debug)]
pub struct State(pub Ident);

impl View for State {
    type V = IdentV;

    open spec fn view(&self) -> IdentV {
        self.0@
    }
}

/// A declared intermediate: a label a transition may carry.
#[derive(Debug)]
pub struct Intermediate(pub Ident);

impl View for Intermediate {
    type V = IdentV;

    open spec fn view(&self) -> IdentV {
        self.0@
    }
}

/// Model of a reference binding.
#[verifier::ext_equal]
pub struct ReferenceV {
    pub state: IdentV,
    pub mutable: bool,
    pub resource: IdentV,
}

/// A binding of a state to a resource, written `state -< resource`, or
/// `state -< mut resource` when the binding is exclusive.
#[derive(Debug)]
pub struct Reference {
    pub state: State,
    pub mutable: bool,
    pub resource: Resource,
}

impl View for Reference {
    type V = ReferenceV;

    open spec fn view(&self) -> ReferenceV {
        ReferenceV { state: self.state@, mutable: self.mutable, resource: self.resource@ }
    }
}

/// Model of a transition.
#[verifier::ext_equal]
pub struct TransitionV {
    pub from: IdentV,
    pub intermediate: Option<IdentV>,
    pub to: IdentV,
}

/// A directed edge `from >- -> to`, optionally labelled with an
/// intermediate: `from >- label -> to`.
#[derive(Debug)]
pub struct Transition {
    pub from: State,
    pub intermediate: Option<Intermediate>,
    pub to: State,
}

impl View for Transition {
    type V = TransitionV;

    open spec fn view(&self) -> TransitionV {
        TransitionV {
            from: self.from@,
            intermediate: match self.intermediate {
                Option::None => Option::None,
                Option::Some(i) => Option::Some(i@),
            },
            to: self.to@,
        }
    }
}

/// Model of an overlay.
#[verifier::ext_equal]
pub struct OverlayV {
    pub back: IdentV,
    pub front: IdentV,
}

/// A layering relation `back ^ front`: `front` sits above `back`.
#[derive(Debug)]
pub struct Overlay {
    pub back: State,
    pub front: State,
}

impl View for Overlay {
    type V = OverlayV;

    open spec fn view(&self) -> OverlayV {
        OverlayV { back: self.back@, front: self.front@ }
    }
}

/// The body of one keyword section: its items, in declaration order.  The
/// keyword itself is implied by the field of `Flow` that holds the item.
#[derive(Debug)]
pub struct Item<T> {
    pub items: Vec<T>,
}

impl<T: View> View for Item<T> {
    type V = Seq<T::V>;

    open spec fn view(&self) -> Seq<T::V> {
        self.items@.map_values(|t: T| t@)
    }
}

/// Model of a complete document.
#[verifier::ext_equal]
pub struct FlowV {
    pub resources: Seq<IdentV>,
    pub states: Seq<IdentV>,
    pub intermediates: Seq<IdentV>,
    pub references: Seq<ReferenceV>,
    pub transitions: Seq<TransitionV>,
    pub overlays: Seq<OverlayV>,
}

/// A complete Flow document: all six sections, each exactly once.
#[derive(Debug)]
pub struct Flow {
    pub resources: Item<Resource>,
    pub states: Item<State>,
    pub intermediates: Item<Intermediate>,
    pub references: Item<Reference>,
    pub transitions: Item<Transition>,
    pub overlays: Item<Overlay>,
}

impl View for Flow {
    type V = FlowV;

    open spec fn view(&self) -> FlowV {
        FlowV {
            resources: self.resources@,
            states: self.states@,
            intermediates: self.intermediates@,
            references: self.references@,
            transitions: self.transitions@,
            overlays: self.overlays@,
        }
    }
}

pub open spec fn wf_reference(r: ReferenceV) -> bool {
    wf_ident(r.state) && wf_ident(r.resource)
}

pub open spec fn wf_transition(t: TransitionV) -> bool {
    &&& wf_ident(t.from)
    &&& wf_ident(t.to)
    &&& match t.intermediate {
        Option::None => true,
        Option::Some(i) => wf_ident(i),
    }
}

pub open spec fn wf_overlay(o: OverlayV) -> bool {
    wf_ident(o.back) && wf_ident(o.front)
}

impl FlowV {
    /// Every identifier in the document is well formed.
    pub open spec fn wf(self) -> bool {
        &&& forall|k: int| 0 <= k < self.resources.len() ==> wf_ident(#[trigger] self.resources[k])
        &&& forall|k: int| 0 <= k < self.states.len() ==> wf_ident(#[trigger] self.states[k])
        &&& forall|k: int|
            0 <= k < self.intermediates.len() ==> wf_ident(#[trigger] self.intermediates[k])
        &&& forall|k: int|
            0 <= k < self.references.len() ==> wf_reference(#[trigger] self.references[k])
        &&& forall|k: int|
            0 <= k < self.transitions.len() ==> wf_transition(#[trigger] self.transitions[k])
        &&& forall|k: int| 0 <= k < self.overlays.len() ==> wf_overlay(#[trigger] self.overlays[k])
    }
}

} // verus!
