//! Parser, renderer and interchange codec for the Flow graph language.
//!
//! A Flow document lists six bracketed sections (resources, states,
//! intermediates, references, transitions, overlays).  The library parses
//! such a document into a typed tree, renders the tree back to source form,
//! and converts it to and from a plain-text mirror suitable for interchange.

pub mod ast;
pub mod json;
pub mod laws;
pub mod parse;
pub mod raw;
pub mod render;
pub mod token;

pub use ast::{Flow, Ident, Intermediate, Item, Overlay, Reference, Resource, State, Transition};
pub use json::{decode, encode, flow2json, json2flow, DecodeError, EncodingError};
pub use parse::{GrammarKind, ParseError, SectionKw};
pub use raw::{
    Error, Field, RawFlow, RawIntermediate, RawOverlay, RawReference, RawResource, RawState,
    RawTransition,
};
