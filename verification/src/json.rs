//! The interchange encoding: the canonical mirror written as a JSON
//! document with the fixed field names of the interchange shape.
//!
//! The encoder is total and exact: the specification functions below
//! give the produced text character by character.  Identifier texts are
//! written as JSON strings with the usual escapes, a missing transition
//! label as `null`.

use vstd::prelude::*;
use crate::ast::Flow;
use crate::parse::{ParseError, parse_doc};
use crate::raw::{RawFlow, RawFlowV, RawReferenceV, RawTransitionV, RawOverlayV, raw_of_flow};
use crate::raw::{RawResource, RawState, RawIntermediate, RawReference, RawTransition, RawOverlay};

verus! {

/// The hexadecimal digit of a value below sixteen.
pub open spec fn hex_digit(n: int) -> char {
    if n == 0 {
        '0'
    } else if n == 1 {
        '1'
    } else if n == 2 {
        '2'
    } else if n == 3 {
        '3'
    } else if n == 4 {
        '4'
    } else if n == 5 {
        '5'
    } else if n == 6 {
        '6'
    } else if n == 7 {
        '7'
    } else if n == 8 {
        '8'
    } else if n == 9 {
        '9'
    } else if n == 10 {
        'a'
    } else if n == 11 {
        'b'
    } else if n == 12 {
        'c'
    } else if n == 13 {
        'd'
    } else if n == 14 {
        'e'
    } else {
        'f'
    }
}

/// How one character is written inside a JSON string.
pub open spec fn json_escape_char(c: char) -> Seq<char> {
    if c == '"' {
        seq!['\\', '"']
    } else if c == '\\' {
        seq!['\\', '\\']
    } else if c == '\n' {
        seq!['\\', 'n']
    } else if c == '\r' {
        seq!['\\', 'r']
    } else if c == '\t' {
        seq!['\\', 't']
    } else if (c as u32) < 32 {
        seq!['\\', 'u', '0', '0', hex_digit(((c as u32) as int) / 16), hex_digit(
            ((c as u32) as int) % 16,
        )]
    } else {
        seq![c]
    }
}

/// The escaped body of a JSON string, from character `k` on.
pub open spec fn json_escape(s: Seq<char>, k: int) -> Seq<char>
    decreases s.len() - k when 0 <= k <= s.len()
{
    if k >= s.len() {
        Seq::empty()
    } else {
        json_escape_char(s[k]) + json_escape(s, k + 1)
    }
}

/// A JSON string: quoted, escaped.
pub open spec fn json_string(s: Seq<char>) -> Seq<char> {
    seq!['"'] + json_escape(s, 0) + seq!['"']
}

/// A JSON boolean.
pub open spec fn json_bool(b: bool) -> Seq<char> {
    if b {
        "true"@
    } else {
        "false"@
    }
}

/// A JSON string or `null`.
pub open spec fn json_opt_string(o: Option<Seq<char>>) -> Seq<char> {
    match o {
        Option::None => "null"@,
        Option::Some(s) => json_string(s),
    }
}

/// The comma-joined elements of an array of strings, from item `k` on.
pub open spec fn json_strs(v: Seq<Seq<char>>, k: int) -> Seq<char>
    decreases v.len() - k when 0 <= k <= v.len()
{
    if k >= v.len() {
        Seq::empty()
    } else if k + 1 == v.len() {
        json_string(v[k])
    } else {
        json_string(v[k]) + ","@ + json_strs(v, k + 1)
    }
}

/// One mirrored reference as a JSON object.
pub open spec fn json_of_reference(r: RawReferenceV) -> Seq<char> {
    "{\"state\":"@ + json_string(r.state) + ",\"mutable\":"@ + json_bool(r.mutable)
        + ",\"resource\":"@ + json_string(r.resource) + "}"@
}

/// One mirrored transition as a JSON object.
pub open spec fn json_of_transition(t: RawTransitionV) -> Seq<char> {
    "{\"from\":"@ + json_string(t.from) + ",\"intermediate\":"@ + json_opt_string(t.intermediate)
        + ",\"to\":"@ + json_string(t.to) + "}"@
}

/// One mirrored overlay as a JSON object.
pub open spec fn json_of_overlay(o: RawOverlayV) -> Seq<char> {
    "{\"back\":"@ + json_string(o.back) + ",\"front\":"@ + json_string(o.front) + "}"@
}

/// The comma-joined reference objects, from item `k` on.
pub open spec fn json_refs(v: Seq<RawReferenceV>, k: int) -> Seq<char>
    decreases v.len() - k when 0 <= k <= v.len()
{
    if k >= v.len() {
        Seq::empty()
    } else if k + 1 == v.len() {
        json_of_reference(v[k])
    } else {
        json_of_reference(v[k]) + ","@ + json_refs(v, k + 1)
    }
}

/// The comma-joined transition objects, from item `k` on.
pub open spec fn json_trs(v: Seq<RawTransitionV>, k: int) -> Seq<char>
    decreases v.len() - k when 0 <= k <= v.len()
{
    if k >= v.len() {
        Seq::empty()
    } else if k + 1 == v.len() {
        json_of_transition(v[k])
    } else {
        json_of_transition(v[k]) + ","@ + json_trs(v, k + 1)
    }
}

/// The comma-joined overlay objects, from item `k` on.
pub open spec fn json_ovs(v: Seq<RawOverlayV>, k: int) -> Seq<char>
    decreases v.len() - k when 0 <= k <= v.len()
{
    if k >= v.len() {
        Seq::empty()
    } else if k + 1 == v.len() {
        json_of_overlay(v[k])
    } else {
        json_of_overlay(v[k]) + ","@ + json_ovs(v, k + 1)
    }
}

/// The whole mirror as one JSON document, fields in the fixed interchange
/// order.
pub open spec fn json_of_raw(rf: RawFlowV) -> Seq<char> {
    "{\"resources\":["@ + json_strs(rf.resources, 0) + "],\"states\":["@ + json_strs(rf.states, 0)
        + "],\"intermediates\":["@ + json_strs(rf.intermediates, 0) + "],\"references\":["@
        + json_refs(rf.references, 0) + "],\"transitions\":["@ + json_trs(rf.transitions, 0)
        + "],\"overlays\":["@ + json_ovs(rf.overlays, 0) + "]}"@
}

/// Appends one character's JSON escape.
fn push_escaped(out: &mut String, s: &str, k: usize)
    requires
        k < s@.len(),
    ensures
        final(out)@ == old(out)@ + json_escape_char(s@[k as int]),
{
    let ghost base = out@;
    let c = s.get_char(k);
    proof {
        reveal_strlit("\\\"");
        reveal_strlit("\\\\");
        reveal_strlit("\\n");
        reveal_strlit("\\r");
        reveal_strlit("\\t");
        reveal_strlit("\\u00");
    }
    if c == '"' {
        out.append("\\\"");
        proof {
            assert(out@ =~= base + json_escape_char(c));
        }
    } else if c == '\\' {
        out.append("\\\\");
        proof {
            assert(out@ =~= base + json_escape_char(c));
        }
    } else if c == '\n' {
        out.append("\\n");
        proof {
            assert(out@ =~= base + json_escape_char(c));
        }
    } else if c == '\r' {
        out.append("\\r");
        proof {
            assert(out@ =~= base + json_escape_char(c));
        }
    } else if c == '\t' {
        out.append("\\t");
        proof {
            assert(out@ =~= base + json_escape_char(c));
        }
    } else if (c as u32) < 32 {
        out.append("\\u00");
        let hi = (c as u32) / 16;
        let lo = (c as u32) % 16;
        push_hex(out, hi);
        push_hex(out, lo);
        proof {
            assert(out@ =~= base + json_escape_char(c));
        }
    } else {
        let n = s.unicode_len();
        out.append(s.substring_char(k, k + 1));
        proof {
            assert(s@.subrange(k as int, k as int + 1) =~= seq![s@[k as int]]);
            assert(out@ =~= base + json_escape_char(c));
        }
    }
}

/// Appends one hexadecimal digit.
fn push_hex(out: &mut String, n: u32)
    requires
        n < 16,
    ensures
        final(out)@ == old(out)@ + seq![hex_digit(n as int)],
{
    let ghost base = out@;
    proof {
        reveal_strlit("0");
        reveal_strlit("1");
        reveal_strlit("2");
        reveal_strlit("3");
        reveal_strlit("4");
        reveal_strlit("5");
        reveal_strlit("6");
        reveal_strlit("7");
        reveal_strlit("8");
        reveal_strlit("9");
        reveal_strlit("a");
        reveal_strlit("b");
        reveal_strlit("c");
        reveal_strlit("d");
        reveal_strlit("e");
        reveal_strlit("f");
    }
    if n == 0 {
        out.append("0");
    } else if n == 1 {
        out.append("1");
    } else if n == 2 {
        out.append("2");
    } else if n == 3 {
        out.append("3");
    } else if n == 4 {
        out.append("4");
    } else if n == 5 {
        out.append("5");
    } else if n == 6 {
        out.append("6");
    } else if n == 7 {
        out.append("7");
    } else if n == 8 {
        out.append("8");
    } else if n == 9 {
        out.append("9");
    } else if n == 10 {
        out.append("a");
    } else if n == 11 {
        out.append("b");
    } else if n == 12 {
        out.append("c");
    } else if n == 13 {
        out.append("d");
    } else if n == 14 {
        out.append("e");
    } else {
        out.append("f");
    }
    proof {
        assert(out@ =~= base + seq![hex_digit(n as int)]);
    }
}

/// Appends a whole JSON string.
fn push_json_string(out: &mut String, s: &str)
    ensures
        final(out)@ == old(out)@ + json_string(s@),
{
    let ghost base = out@;
    proof {
        reveal_strlit("\"");
    }
    out.append("\"");
    proof {
        assert(out@ =~= base + seq!['"']);
    }
    let n = s.unicode_len();
    let mut k: usize = 0;
    while k < n
        invariant
            n == s@.len(),
            k <= n,
            out@ + json_escape(s@, k as int) == base + seq!['"'] + json_escape(s@, 0),
        decreases n - k,
    {
        let ghost before = out@;
        push_escaped(out, s, k);
        proof {
            assert(out@ + json_escape(s@, k as int + 1) =~= before + json_escape(s@, k as int));
        }
        k = k + 1;
    }
    let ghost mid = out@;
    out.append("\"");
    proof {
        assert(out@ =~= mid + seq!['"']);
        assert(mid =~= base + seq!['"'] + json_escape(s@, 0));
        assert(out@ =~= base + json_string(s@));
    }
}

/// Appends the comma-joined strings of one identifier section.
fn push_resource_strs(out: &mut String, v: &Vec<RawResource>)
    ensures
        final(out)@ == old(out)@ + json_strs(v@.map_values(|t: RawResource| t@), 0),
{
    let ghost sv = v@.map_values(|t: RawResource| t@);
    let ghost base = out@;
    let m = v.len();
    let mut k: usize = 0;
    while k < m
        invariant
            m == v@.len(),
            sv == v@.map_values(|t: RawResource| t@),
            k <= m,
            out@ + json_strs(sv, k as int) == base + json_strs(sv, 0),
        decreases m - k,
    {
        let ghost before = out@;
        proof {
            assert(sv[k as int] == v@[k as int]@);
        }
        push_json_string(out, v[k].0.as_str());
        if k + 1 < m {
            let ghost mid = out@;
            out.append(",");
            proof {
                assert(out@ + json_strs(sv, k as int + 1) =~= before + json_strs(sv, k as int));
            }
        } else {
            proof {
                assert(out@ + json_strs(sv, k as int + 1) =~= before + json_strs(sv, k as int));
            }
        }
        k = k + 1;
    }
    proof {
        assert(out@ + Seq::<char>::empty() =~= out@);
    }
}

/// Appends the comma-joined strings of the state section.
fn push_state_strs(out: &mut String, v: &Vec<RawState>)
    ensures
        final(out)@ == old(out)@ + json_strs(v@.map_values(|t: RawState| t@), 0),
{
    let ghost sv = v@.map_values(|t: RawState| t@);
    let ghost base = out@;
    let m = v.len();
    let mut k: usize = 0;
    while k < m
        invariant
            m == v@.len(),
            sv == v@.map_values(|t: RawState| t@),
            k <= m,
            out@ + json_strs(sv, k as int) == base + json_strs(sv, 0),
        decreases m - k,
    {
        let ghost before = out@;
        proof {
            assert(sv[k as int] == v@[k as int]@);
        }
        push_json_string(out, v[k].0.as_str());
        if k + 1 < m {
            out.append(",");
            proof {
                assert(out@ + json_strs(sv, k as int + 1) =~= before + json_strs(sv, k as int));
            }
        } else {
            proof {
                assert(out@ + json_strs(sv, k as int + 1) =~= before + json_strs(sv, k as int));
            }
        }
        k = k + 1;
    }
    proof {
        assert(out@ + Seq::<char>::empty() =~= out@);
    }
}

/// Appends the comma-joined strings of the intermediate section.
fn push_intermediate_strs(out: &mut String, v: &Vec<RawIntermediate>)
    ensures
        final(out)@ == old(out)@ + json_strs(v@.map_values(|t: RawIntermediate| t@), 0),
{
    let ghost sv = v@.map_values(|t: RawIntermediate| t@);
    let ghost base = out@;
    let m = v.len();
    let mut k: usize = 0;
    while k < m
        invariant
            m == v@.len(),
            sv == v@.map_values(|t: RawIntermediate| t@),
            k <= m,
            out@ + json_strs(sv, k as int) == base + json_strs(sv, 0),
        decreases m - k,
    {
        let ghost before = out@;
        proof {
            assert(sv[k as int] == v@[k as int]@);
        }
        push_json_string(out, v[k].0.as_str());
        if k + 1 < m {
            out.append(",");
            proof {
                assert(out@ + json_strs(sv, k as int + 1) =~= before + json_strs(sv, k as int));
            }
        } else {
            proof {
                assert(out@ + json_strs(sv, k as int + 1) =~= before + json_strs(sv, k as int));
            }
        }
        k = k + 1;
    }
    proof {
        assert(out@ + Seq::<char>::empty() =~= out@);
    }
}

/// Appends one reference object.
fn push_reference_json(out: &mut String, r: &RawReference)
    ensures
        final(out)@ == old(out)@ + json_of_reference(r@),
{
    let ghost base = out@;
    out.append("{\"state\":");
    push_json_string(out, r.state.0.as_str());
    out.append(",\"mutable\":");
    if r.mutable {
        out.append("true");
    } else {
        out.append("false");
    }
    out.append(",\"resource\":");
    push_json_string(out, r.resource.0.as_str());
    out.append("}");
    proof {
        assert(out@ =~= base + json_of_reference(r@));
    }
}

/// Appends one transition object; a missing label is written `null`.
fn push_transition_json(out: &mut String, t: &RawTransition)
    ensures
        final(out)@ == old(out)@ + json_of_transition(t@),
{
    let ghost base = out@;
    out.append("{\"from\":");
    push_json_string(out, t.from.0.as_str());
    out.append(",\"intermediate\":");
    match &t.intermediate {
        Option::None => out.append("null"),
        Option::Some(ri) => push_json_string(out, ri.0.as_str()),
    }
    out.append(",\"to\":");
    push_json_string(out, t.to.0.as_str());
    out.append("}");
    proof {
        assert(out@ =~= base + json_of_transition(t@));
    }
}

/// Appends one overlay object.
fn push_overlay_json(out: &mut String, o: &RawOverlay)
    ensures
        final(out)@ == old(out)@ + json_of_overlay(o@),
{
    let ghost base = out@;
    out.append("{\"back\":");
    push_json_string(out, o.back.0.as_str());
    out.append(",\"front\":");
    push_json_string(out, o.front.0.as_str());
    out.append("}");
    proof {
        assert(out@ =~= base + json_of_overlay(o@));
    }
}

/// Appends the comma-joined reference objects.
fn push_ref_json(out: &mut String, v: &Vec<RawReference>)
    ensures
        final(out)@ == old(out)@ + json_refs(v@.map_values(|t: RawReference| t@), 0),
{
    let ghost sv = v@.map_values(|t: RawReference| t@);
    let ghost base = out@;
    let m = v.len();
    let mut k: usize = 0;
    while k < m
        invariant
            m == v@.len(),
            sv == v@.map_values(|t: RawReference| t@),
            k <= m,
            out@ + json_refs(sv, k as int) == base + json_refs(sv, 0),
        decreases m - k,
    {
        let ghost before = out@;
        proof {
            assert(sv[k as int] == v@[k as int]@);
        }
        push_reference_json(out, &v[k]);
        if k + 1 < m {
            out.append(",");
            proof {
                assert(out@ + json_refs(sv, k as int + 1) =~= before + json_refs(sv, k as int));
            }
        } else {
            proof {
                assert(out@ + json_refs(sv, k as int + 1) =~= before + json_refs(sv, k as int));
            }
        }
        k = k + 1;
    }
    proof {
        assert(out@ + Seq::<char>::empty() =~= out@);
    }
}

/// Appends the comma-joined transition objects.
fn push_tr_json(out: &mut String, v: &Vec<RawTransition>)
    ensures
        final(out)@ == old(out)@ + json_trs(v@.map_values(|t: RawTransition| t@), 0),
{
    let ghost sv = v@.map_values(|t: RawTransition| t@);
    let ghost base = out@;
    let m = v.len();
    let mut k: usize = 0;
    while k < m
        invariant
            m == v@.len(),
            sv == v@.map_values(|t: RawTransition| t@),
            k <= m,
            out@ + json_trs(sv, k as int) == base + json_trs(sv, 0),
        decreases m - k,
    {
        let ghost before = out@;
        proof {
            assert(sv[k as int] == v@[k as int]@);
        }
        push_transition_json(out, &v[k]);
        if k + 1 < m {
            out.append(",");
            proof {
                assert(out@ + json_trs(sv, k as int + 1) =~= before + json_trs(sv, k as int));
            }
        } else {
            proof {
                assert(out@ + json_trs(sv, k as int + 1) =~= before + json_trs(sv, k as int));
            }
        }
        k = k + 1;
    }
    proof {
        assert(out@ + Seq::<char>::empty() =~= out@);
    }
}

/// Appends the comma-joined overlay objects.
fn push_ov_json(out: &mut String, v: &Vec<RawOverlay>)
    ensures
        final(out)@ == old(out)@ + json_ovs(v@.map_values(|t: RawOverlay| t@), 0),
{
    let ghost sv = v@.map_values(|t: RawOverlay| t@);
    let ghost base = out@;
    let m = v.len();
    let mut k: usize = 0;
    while k < m
        invariant
            m == v@.len(),
            sv == v@.map_values(|t: RawOverlay| t@),
            k <= m,
            out@ + json_ovs(sv, k as int) == base + json_ovs(sv, 0),
        decreases m - k,
    {
        let ghost before = out@;
        proof {
            assert(sv[k as int] == v@[k as int]@);
        }
        push_overlay_json(out, &v[k]);
        if k + 1 < m {
            out.append(",");
            proof {
                assert(out@ + json_ovs(sv, k as int + 1) =~= before + json_ovs(sv, k as int));
            }
        } else {
            proof {
                assert(out@ + json_ovs(sv, k as int + 1) =~= before + json_ovs(sv, k as int));
            }
        }
        k = k + 1;
    }
    proof {
        assert(out@ + Seq::<char>::empty() =~= out@);
    }
}

impl RawFlow {
    /// Writes the mirror as its JSON interchange document, fields in the
    /// fixed order, exactly as `json_of_raw` denotes.
    pub fn to_json(&self) -> (out: String)
        ensures
            out@ == json_of_raw(self@),
    {
        let mut out = String::new();
        out.append("{\"resources\":[");
        push_resource_strs(&mut out, &self.resources);
        out.append("],\"states\":[");
        push_state_strs(&mut out, &self.states);
        out.append("],\"intermediates\":[");
        push_intermediate_strs(&mut out, &self.intermediates);
        out.append("],\"references\":[");
        push_ref_json(&mut out, &self.references);
        out.append("],\"transitions\":[");
        push_tr_json(&mut out, &self.transitions);
        out.append("],\"overlays\":[");
        push_ov_json(&mut out, &self.overlays);
        out.append("]}");
        proof {
            assert(out@ =~= json_of_raw(self@));
        }
        out
    }
}

/// Encodes a document for interchange: its canonical mirror, written as
/// JSON.  Never fails.
pub fn encode(flow: Flow) -> (out: String)
    ensures
        out@ == json_of_raw(raw_of_flow(flow@)),
{
    let rf = RawFlow::from(flow);
    rf.to_json()
}

/// Parses Flow source text and encodes the result for interchange; a
/// document that does not parse gives the parse error back.
pub fn flow2json(flow_string: &str) -> (r: Result<String, ParseError>)
    ensures
        match (r, parse_doc(flow_string@)) {
            (Ok(out), Ok(fv)) => out@ == json_of_raw(raw_of_flow(fv)),
            (Err(e), Err(pe)) => e == pe,
            _ => false,
        },
{
    match Flow::from_str(flow_string) {
        Err(e) => Err(e),
        Ok(f) => Ok(encode(f)),
    }
}

/// A malformed interchange document: the text does not read as the
/// canonical JSON shape.  `pos` is the character position at which
/// reading failed.
#[derive(Debug, Clone, Copy, PartialEq, Eq, Structural)]
pub enum EncodingError {
    Malformed { pos: usize },
}

/// A failed decode: either the interchange text itself is malformed, or
/// a stored identifier text does not re-parse.
#[derive(Debug, Clone, Copy, PartialEq, Eq, Structural)]
pub enum DecodeError {
    Encoding(EncodingError),
    ReParse(crate::raw::Error),
}

/// Blank space the reader steps over between JSON tokens.
pub open spec fn is_json_ws(c: char) -> bool {
    c == ' ' || c == '\t' || c == '\n' || c == '\r'
}

/// The first position at or after `i` holding no blank space.
pub open spec fn skip_ws(s: Seq<char>, i: int) -> int
    decreases s.len() - i when 0 <= i <= s.len()
{
    if i < s.len() && is_json_ws(s[i]) {
        skip_ws(s, i + 1)
    } else {
        i
    }
}

pub proof fn lemma_skip_ws(s: Seq<char>, i: int)
    requires
        0 <= i <= s.len(),
    ensures
        i <= skip_ws(s, i) <= s.len(),
        skip_ws(s, i) < s.len() ==> !is_json_ws(s[skip_ws(s, i)]),
    decreases s.len() - i,
{
    if i < s.len() && is_json_ws(s[i]) {
        lemma_skip_ws(s, i + 1);
    }
}

/// The literal `lit` stands at position `i` of `s`.
pub open spec fn lit_at(s: Seq<char>, i: int, lit: Seq<char>) -> bool {
    0 <= i && i + lit.len() <= s.len() && s.subrange(i, i + lit.len()) == lit
}

/// Demands the literal `lit` at position `i`.
pub open spec fn expect_lit(s: Seq<char>, i: int, lit: Seq<char>) -> Result<int, EncodingError> {
    if lit_at(s, i, lit) {
        Ok(i + lit.len())
    } else {
        Err(EncodingError::Malformed { pos: i as usize })
    }
}

/// Reads the body of a JSON string after its opening quote, up to and
/// over the closing quote.  The escapes `\"  \\  \/  \n  \r  \t  \b  \f`
/// are taken; `\u` escapes and raw control characters are refused.
pub open spec fn str_body(s: Seq<char>, i: int) -> Result<(Seq<char>, int), EncodingError>
    decreases s.len() - i when 0 <= i <= s.len()
{
    if i >= s.len() {
        Err(EncodingError::Malformed { pos: i as usize })
    } else if s[i] == '"' {
        Ok((Seq::empty(), i + 1))
    } else if s[i] == '\\' {
        if i + 1 >= s.len() {
            Err(EncodingError::Malformed { pos: (i + 1) as usize })
        } else {
            let c = s[i + 1];
            let dec: Option<char> = if c == '"' {
                Option::Some('"')
            } else if c == '\\' {
                Option::Some('\\')
            } else if c == '/' {
                Option::Some('/')
            } else if c == 'n' {
                Option::Some('\n')
            } else if c == 'r' {
                Option::Some('\r')
            } else if c == 't' {
                Option::Some('\t')
            } else if c == 'b' {
                Option::Some('\u{8}')
            } else if c == 'f' {
                Option::Some('\u{c}')
            } else {
                Option::None
            };
            match dec {
                Option::None => Err(EncodingError::Malformed { pos: (i + 1) as usize }),
                Option::Some(d) => match str_body(s, i + 2) {
                    Err(e) => Err(e),
                    Ok((rest, j)) => Ok((seq![d] + rest, j)),
                },
            }
        }
    } else if (s[i] as u32) < 32 {
        Err(EncodingError::Malformed { pos: i as usize })
    } else {
        match str_body(s, i + 1) {
            Err(e) => Err(e),
            Ok((rest, j)) => Ok((seq![s[i]] + rest, j)),
        }
    }
}

pub proof fn lemma_str_body_bounds(s: Seq<char>, i: int)
    requires
        0 <= i <= s.len(),
    ensures
        str_body(s, i) matches Ok(r) ==> i < r.1 <= s.len(),
    decreases s.len() - i,
{
    if i < s.len() {
        if s[i] == '\\' {
            if i + 1 < s.len() {
                lemma_str_body_bounds(s, i + 2);
            }
        } else if s[i] != '"' {
            lemma_str_body_bounds(s, i + 1);
        }
    }
}

/// Reads a JSON string after optional blank space.
pub open spec fn read_string(s: Seq<char>, i: int) -> Result<(Seq<char>, int), EncodingError> {
    let j = skip_ws(s, i);
    if j < s.len() && s[j] == '"' {
        str_body(s, j + 1)
    } else {
        Err(EncodingError::Malformed { pos: j as usize })
    }
}

pub proof fn lemma_read_string_bounds(s: Seq<char>, i: int)
    requires
        0 <= i <= s.len(),
    ensures
        read_string(s, i) matches Ok(r) ==> i < r.1 <= s.len(),
{
    lemma_skip_ws(s, i);
    let j = skip_ws(s, i);
    if j < s.len() && s[j] == '"' {
        lemma_str_body_bounds(s, j + 1);
    }
}

/// Reads the string elements of an array whose first element starts at
/// or after `i`; the array is known non-empty.
pub open spec fn arr_strings_more(s: Seq<char>, i: int) -> Result<
    (Seq<Seq<char>>, int),
    EncodingError,
>
    decreases s.len() - i when 0 <= i <= s.len()
{
    match read_string(s, i) {
        Err(e) => Err(e),
        Ok((x, k)) => {
            proof {
                lemma_read_string_bounds(s, i);
                lemma_skip_ws(s, k);
            }
            let m = skip_ws(s, k);
            if m < s.len() && s[m] == ',' {
                match arr_strings_more(s, m + 1) {
                    Err(e) => Err(e),
                    Ok((rest, j)) => Ok((seq![x] + rest, j)),
                }
            } else if m < s.len() && s[m] == ']' {
                Ok((seq![x], m + 1))
            } else {
                Err(EncodingError::Malformed { pos: m as usize })
            }
        },
    }
}

/// Reads a whole string array after its opening bracket.
pub open spec fn arr_strings(s: Seq<char>, i: int) -> Result<(Seq<Seq<char>>, int), EncodingError> {
    let j = skip_ws(s, i);
    if j < s.len() && s[j] == ']' {
        Ok((Seq::empty(), j + 1))
    } else {
        arr_strings_more(s, i)
    }
}

pub proof fn lemma_arr_strings_more_bounds(s: Seq<char>, i: int)
    requires
        0 <= i <= s.len(),
    ensures
        arr_strings_more(s, i) matches Ok(r) ==> i < r.1 <= s.len(),
    decreases s.len() - i,
{
    lemma_read_string_bounds(s, i);
    if let Ok((_x, k)) = read_string(s, i) {
        lemma_skip_ws(s, k);
        let m = skip_ws(s, k);
        if m < s.len() && s[m] == ',' {
            lemma_arr_strings_more_bounds(s, m + 1);
        }
    }
}

pub proof fn lemma_arr_strings_bounds(s: Seq<char>, i: int)
    requires
        0 <= i <= s.len(),
    ensures
        arr_strings(s, i) matches Ok(r) ==> i <= r.1 <= s.len(),
{
    lemma_skip_ws(s, i);
    lemma_arr_strings_more_bounds(s, i);
}

/// Demands `marker` at the position after the blank space, then reads a
/// string value: the frame of every `"key": value` pair below.
pub open spec fn key_string(s: Seq<char>, i: int, key: Seq<char>) -> Result<
    (Seq<char>, int),
    EncodingError,
> {
    match expect_lit(s, skip_ws(s, i), key) {
        Err(e) => Err(e),
        Ok(j) => match expect_lit(s, skip_ws(s, j), ":"@) {
            Err(e) => Err(e),
            Ok(j2) => read_string(s, j2),
        },
    }
}

pub proof fn lemma_key_string_bounds(s: Seq<char>, i: int, key: Seq<char>)
    requires
        0 <= i <= s.len(),
    ensures
        key_string(s, i, key) matches Ok(r) ==> i < r.1 <= s.len(),
{
    lemma_skip_ws(s, i);
    if let Ok(j) = expect_lit(s, skip_ws(s, i), key) {
        lemma_skip_ws(s, j);
        if let Ok(j2) = expect_lit(s, skip_ws(s, j), ":"@) {
            lemma_read_string_bounds(s, j2);
        }
    }
}

/// Reads one reference object: its three fields, in the canonical order.
pub open spec fn read_reference(s: Seq<char>, i: int) -> Result<
    (RawReferenceV, int),
    EncodingError,
> {
    match expect_lit(s, skip_ws(s, i), "{"@) {
        Err(e) => Err(e),
        Ok(j) => match key_string(s, j, "\"state\""@) {
            Err(e) => Err(e),
            Ok((st, j)) => match expect_lit(s, skip_ws(s, j), ","@) {
                Err(e) => Err(e),
                Ok(j) => match expect_lit(s, skip_ws(s, j), "\"mutable\""@) {
                    Err(e) => Err(e),
                    Ok(j) => match expect_lit(s, skip_ws(s, j), ":"@) {
                        Err(e) => Err(e),
                        Ok(j) => {
                            let j2 = skip_ws(s, j);
                            let b: Result<(bool, int), EncodingError> = if lit_at(s, j2, "true"@) {
                                Ok((true, j2 + 4))
                            } else if lit_at(s, j2, "false"@) {
                                Ok((false, j2 + 5))
                            } else {
                                Err(EncodingError::Malformed { pos: j2 as usize })
                            };
                            match b {
                                Err(e) => Err(e),
                                Ok((mutable, j)) => match expect_lit(s, skip_ws(s, j), ","@) {
                                    Err(e) => Err(e),
                                    Ok(j) => match key_string(s, j, "\"resource\""@) {
                                        Err(e) => Err(e),
                                        Ok((rs, j)) => match expect_lit(s, skip_ws(s, j), "}"@) {
                                            Err(e) => Err(e),
                                            Ok(j) => Ok(
                                                (
                                                    RawReferenceV {
                                                        state: st,
                                                        mutable,
                                                        resource: rs,
                                                    },
                                                    j,
                                                ),
                                            ),
                                        },
                                    },
                                },
                            }
                        },
                    },
                },
            },
        },
    }
}

/// Reads one transition object; the label is a string or `null`.
pub open spec fn read_transition(s: Seq<char>, i: int) -> Result<
    (RawTransitionV, int),
    EncodingError,
> {
    match expect_lit(s, skip_ws(s, i), "{"@) {
        Err(e) => Err(e),
        Ok(j) => match key_string(s, j, "\"from\""@) {
            Err(e) => Err(e),
            Ok((from, j)) => match expect_lit(s, skip_ws(s, j), ","@) {
                Err(e) => Err(e),
                Ok(j) => match expect_lit(s, skip_ws(s, j), "\"intermediate\""@) {
                    Err(e) => Err(e),
                    Ok(j) => match expect_lit(s, skip_ws(s, j), ":"@) {
                        Err(e) => Err(e),
                        Ok(j) => {
                            let j2 = skip_ws(s, j);
                            let lab: Result<(Option<Seq<char>>, int), EncodingError> = if lit_at(
                                s,
                                j2,
                                "null"@,
                            ) {
                                Ok((Option::None, j2 + 4))
                            } else {
                                match read_string(s, j2) {
                                    Err(e) => Err(e),
                                    Ok((x, j3)) => Ok((Option::Some(x), j3)),
                                }
                            };
                            match lab {
                                Err(e) => Err(e),
                                Ok((intermediate, j)) => match expect_lit(s, skip_ws(s, j), ","@) {
                                    Err(e) => Err(e),
                                    Ok(j) => match key_string(s, j, "\"to\""@) {
                                        Err(e) => Err(e),
                                        Ok((to, j)) => match expect_lit(s, skip_ws(s, j), "}"@) {
                                            Err(e) => Err(e),
                                            Ok(j) => Ok(
                                                (RawTransitionV { from, intermediate, to }, j),
                                            ),
                                        },
                                    },
                                },
                            }
                        },
                    },
                },
            },
        },
    }
}

/// Reads one overlay object.
pub open spec fn read_overlay(s: Seq<char>, i: int) -> Result<(RawOverlayV, int), EncodingError> {
    match expect_lit(s, skip_ws(s, i), "{"@) {
        Err(e) => Err(e),
        Ok(j) => match key_string(s, j, "\"back\""@) {
            Err(e) => Err(e),
            Ok((back, j)) => match expect_lit(s, skip_ws(s, j), ","@) {
                Err(e) => Err(e),
                Ok(j) => match key_string(s, j, "\"front\""@) {
                    Err(e) => Err(e),
                    Ok((front, j)) => match expect_lit(s, skip_ws(s, j), "}"@) {
                        Err(e) => Err(e),
                        Ok(j) => Ok((RawOverlayV { back, front }, j)),
                    },
                },
            },
        },
    }
}

pub proof fn lemma_read_reference_bounds(s: Seq<char>, i: int)
    requires
        0 <= i <= s.len(),
    ensures
        read_reference(s, i) matches Ok(r) ==> i < r.1 <= s.len(),
{
    lemma_skip_ws(s, i);
    if let Ok(j) = expect_lit(s, skip_ws(s, i), "{"@) {
        lemma_key_string_bounds(s, j, "\"state\""@);
        if let Ok((_st, j)) = key_string(s, j, "\"state\""@) {
            lemma_skip_ws(s, j);
            if let Ok(j) = expect_lit(s, skip_ws(s, j), ","@) {
                lemma_skip_ws(s, j);
                if let Ok(j) = expect_lit(s, skip_ws(s, j), "\"mutable\""@) {
                    lemma_skip_ws(s, j);
                    if let Ok(j) = expect_lit(s, skip_ws(s, j), ":"@) {
                        lemma_skip_ws(s, j);
                        let j2 = skip_ws(s, j);
                        let b: Result<(bool, int), EncodingError> = if lit_at(s, j2, "true"@) {
                            Ok((true, j2 + 4))
                        } else if lit_at(s, j2, "false"@) {
                            Ok((false, j2 + 5))
                        } else {
                            Err(EncodingError::Malformed { pos: j2 as usize })
                        };
                        if let Ok((_m, j)) = b {
                            assert(j <= s.len()) by {
                                reveal_strlit("true");
                                reveal_strlit("false");
                            }
                            lemma_skip_ws(s, j);
                            if let Ok(j) = expect_lit(s, skip_ws(s, j), ","@) {
                                lemma_key_string_bounds(s, j, "\"resource\""@);
                                if let Ok((_rs, j)) = key_string(s, j, "\"resource\""@) {
                                    lemma_skip_ws(s, j);
                                }
                            }
                        }
                    }
                }
            }
        }
    }
}

pub proof fn lemma_read_transition_bounds(s: Seq<char>, i: int)
    requires
        0 <= i <= s.len(),
    ensures
        read_transition(s, i) matches Ok(r) ==> i < r.1 <= s.len(),
{
    lemma_skip_ws(s, i);
    if let Ok(j) = expect_lit(s, skip_ws(s, i), "{"@) {
        lemma_key_string_bounds(s, j, "\"from\""@);
        if let Ok((_f, j)) = key_string(s, j, "\"from\""@) {
            lemma_skip_ws(s, j);
            if let Ok(j) = expect_lit(s, skip_ws(s, j), ","@) {
                lemma_skip_ws(s, j);
                if let Ok(j) = expect_lit(s, skip_ws(s, j), "\"intermediate\""@) {
                    lemma_skip_ws(s, j);
                    if let Ok(j) = expect_lit(s, skip_ws(s, j), ":"@) {
                        lemma_skip_ws(s, j);
                        let j2 = skip_ws(s, j);
                        let lab: Result<(Option<Seq<char>>, int), EncodingError> = if lit_at(
                            s,
                            j2,
                            "null"@,
                        ) {
                            Ok((Option::None, j2 + 4))
                        } else {
                            match read_string(s, j2) {
                                Err(e) => Err(e),
                                Ok((x, j3)) => Ok((Option::Some(x), j3)),
                            }
                        };
                        lemma_read_string_bounds(s, j2);
                        if let Ok((_l, j)) = lab {
                            assert(j <= s.len()) by {
                                reveal_strlit("null");
                            }
                            lemma_skip_ws(s, j);
                            if let Ok(j) = expect_lit(s, skip_ws(s, j), ","@) {
                                lemma_key_string_bounds(s, j, "\"to\""@);
                                if let Ok((_t, j)) = key_string(s, j, "\"to\""@) {
                                    lemma_skip_ws(s, j);
                                }
                            }
                        }
                    }
                }
            }
        }
    }
}

pub proof fn lemma_read_overlay_bounds(s: Seq<char>, i: int)
    requires
        0 <= i <= s.len(),
    ensures
        read_overlay(s, i) matches Ok(r) ==> i < r.1 <= s.len(),
{
    lemma_skip_ws(s, i);
    if let Ok(j) = expect_lit(s, skip_ws(s, i), "{"@) {
        lemma_key_string_bounds(s, j, "\"back\""@);
        if let Ok((_b, j)) = key_string(s, j, "\"back\""@) {
            lemma_skip_ws(s, j);
            if let Ok(j) = expect_lit(s, skip_ws(s, j), ","@) {
                lemma_key_string_bounds(s, j, "\"front\""@);
                if let Ok((_f, j)) = key_string(s, j, "\"front\""@) {
                    lemma_skip_ws(s, j);
                }
            }
        }
    }
}

/// Reads the reference elements of a non-empty array.
pub open spec fn arr_refs_more(s: Seq<char>, i: int) -> Result<
    (Seq<RawReferenceV>, int),
    EncodingError,
>
    decreases s.len() - i when 0 <= i <= s.len()
{
    match read_reference(s, i) {
        Err(e) => Err(e),
        Ok((x, k)) => {
            proof {
                lemma_read_reference_bounds(s, i);
                lemma_skip_ws(s, k);
            }
            let m = skip_ws(s, k);
            if m < s.len() && s[m] == ',' {
                match arr_refs_more(s, m + 1) {
                    Err(e) => Err(e),
                    Ok((rest, j)) => Ok((seq![x] + rest, j)),
                }
            } else if m < s.len() && s[m] == ']' {
                Ok((seq![x], m + 1))
            } else {
                Err(EncodingError::Malformed { pos: m as usize })
            }
        },
    }
}

/// Reads a whole reference array after its opening bracket.
pub open spec fn arr_refs(s: Seq<char>, i: int) -> Result<(Seq<RawReferenceV>, int), EncodingError> {
    let j = skip_ws(s, i);
    if j < s.len() && s[j] == ']' {
        Ok((Seq::empty(), j + 1))
    } else {
        arr_refs_more(s, i)
    }
}

/// Reads the transition elements of a non-empty array.
pub open spec fn arr_trs_more(s: Seq<char>, i: int) -> Result<
    (Seq<RawTransitionV>, int),
    EncodingError,
>
    decreases s.len() - i when 0 <= i <= s.len()
{
    match read_transition(s, i) {
        Err(e) => Err(e),
        Ok((x, k)) => {
            proof {
                lemma_read_transition_bounds(s, i);
                lemma_skip_ws(s, k);
            }
            let m = skip_ws(s, k);
            if m < s.len() && s[m] == ',' {
                match arr_trs_more(s, m + 1) {
                    Err(e) => Err(e),
                    Ok((rest, j)) => Ok((seq![x] + rest, j)),
                }
            } else if m < s.len() && s[m] == ']' {
                Ok((seq![x], m + 1))
            } else {
                Err(EncodingError::Malformed { pos: m as usize })
            }
        },
    }
}

/// Reads a whole transition array after its opening bracket.
pub open spec fn arr_trs(s: Seq<char>, i: int) -> Result<(Seq<RawTransitionV>, int), EncodingError> {
    let j = skip_ws(s, i);
    if j < s.len() && s[j] == ']' {
        Ok((Seq::empty(), j + 1))
    } else {
        arr_trs_more(s, i)
    }
}

/// Reads the overlay elements of a non-empty array.
pub open spec fn arr_ovs_more(s: Seq<char>, i: int) -> Result<
    (Seq<RawOverlayV>, int),
    EncodingError,
>
    decreases s.len() - i when 0 <= i <= s.len()
{
    match read_overlay(s, i) {
        Err(e) => Err(e),
        Ok((x, k)) => {
            proof {
                lemma_read_overlay_bounds(s, i);
                lemma_skip_ws(s, k);
            }
            let m = skip_ws(s, k);
            if m < s.len() && s[m] == ',' {
                match arr_ovs_more(s, m + 1) {
                    Err(e) => Err(e),
                    Ok((rest, j)) => Ok((seq![x] + rest, j)),
                }
            } else if m < s.len() && s[m] == ']' {
                Ok((seq![x], m + 1))
            } else {
                Err(EncodingError::Malformed { pos: m as usize })
            }
        },
    }
}

/// Reads a whole overlay array after its opening bracket.
pub open spec fn arr_ovs(s: Seq<char>, i: int) -> Result<(Seq<RawOverlayV>, int), EncodingError> {
    let j = skip_ws(s, i);
    if j < s.len() && s[j] == ']' {
        Ok((Seq::empty(), j + 1))
    } else {
        arr_ovs_more(s, i)
    }
}

/// Demands one `"key": [` frame.
pub open spec fn key_array(s: Seq<char>, i: int, key: Seq<char>) -> Result<int, EncodingError> {
    match expect_lit(s, skip_ws(s, i), key) {
        Err(e) => Err(e),
        Ok(j) => match expect_lit(s, skip_ws(s, j), ":"@) {
            Err(e) => Err(e),
            Ok(j) => expect_lit(s, skip_ws(s, j), "["@),
        },
    }
}

/// Reads a whole interchange document: the six fields, in the canonical
/// order, nothing after the closing brace.
pub open spec fn json_to_raw(s: Seq<char>) -> Result<RawFlowV, EncodingError> {
    match expect_lit(s, skip_ws(s, 0), "{"@) {
        Err(e) => Err(e),
        Ok(j) => match key_array(s, j, "\"resources\""@) {
            Err(e) => Err(e),
            Ok(j) => match arr_strings(s, j) {
                Err(e) => Err(e),
                Ok((resources, j)) => match expect_lit(s, skip_ws(s, j), ","@) {
                    Err(e) => Err(e),
                    Ok(j) => match key_array(s, j, "\"states\""@) {
                        Err(e) => Err(e),
                        Ok(j) => match arr_strings(s, j) {
                            Err(e) => Err(e),
                            Ok((states, j)) => match expect_lit(s, skip_ws(s, j), ","@) {
                                Err(e) => Err(e),
                                Ok(j) => match key_array(s, j, "\"intermediates\""@) {
                                    Err(e) => Err(e),
                                    Ok(j) => match arr_strings(s, j) {
                                        Err(e) => Err(e),
                                        Ok((intermediates, j)) => match expect_lit(
                                            s,
                                            skip_ws(s, j),
                                            ","@,
                                        ) {
                                            Err(e) => Err(e),
                                            Ok(j) => match key_array(s, j, "\"references\""@) {
                                                Err(e) => Err(e),
                                                Ok(j) => match arr_refs(s, j) {
                                                    Err(e) => Err(e),
                                                    Ok((references, j)) => match expect_lit(
                                                        s,
                                                        skip_ws(s, j),
                                                        ","@,
                                                    ) {
                                                        Err(e) => Err(e),
                                                        Ok(j) => match key_array(
                                                            s,
                                                            j,
                                                            "\"transitions\""@,
                                                        ) {
                                                            Err(e) => Err(e),
                                                            Ok(j) => match arr_trs(s, j) {
                                                                Err(e) => Err(e),
                                                                Ok((transitions, j)) => match expect_lit(
                                                                    s,
                                                                    skip_ws(s, j),
                                                                    ","@,
                                                                ) {
                                                                    Err(e) => Err(e),
                                                                    Ok(j) => match key_array(
                                                                        s,
                                                                        j,
                                                                        "\"overlays\""@,
                                                                    ) {
                                                                        Err(e) => Err(e),
                                                                        Ok(j) => match arr_ovs(
                                                                            s,
                                                                            j,
                                                                        ) {
                                                                            Err(e) => Err(e),
                                                                            Ok(
                                                                                (overlays, j),
                                                                            ) => match expect_lit(
                                                                                s,
                                                                                skip_ws(s, j),
                                                                                "}"@,
                                                                            ) {
                                                                                Err(e) => Err(e),
                                                                                Ok(j) => if skip_ws(
                                                                                    s,
                                                                                    j,
                                                                                ) == s.len() {
                                                                                    Ok(
                                                                                        RawFlowV {
                                                                                            resources,
                                                                                            states,
                                                                                            intermediates,
                                                                                            references,
                                                                                            transitions,
                                                                                            overlays,
                                                                                        },
                                                                                    )
                                                                                } else {
                                                                                    Err(
                                                                                        EncodingError::Malformed {
                                                                                            pos: skip_ws(
                                                                                                s,
                                                                                                j,
                                                                                            ) as usize,
                                                                                        },
                                                                                    )
                                                                                },
                                                                            },
                                                                        },
                                                                    },
                                                                },
                                                            },
                                                        },
                                                    },
                                                },
                                            },
                                        },
                                    },
                                },
                            },
                        },
                    },
                },
            },
        },
    }
}

/// Decoding an interchange text: read the canonical JSON shape, then
/// re-parse every stored identifier.
pub open spec fn decode_doc(s: Seq<char>) -> Result<crate::ast::FlowV, DecodeError> {
    match json_to_raw(s) {
        Err(e) => Err(DecodeError::Encoding(e)),
        Ok(rv) => match crate::raw::flow_of_raw(rv) {
            Err(e) => Err(DecodeError::ReParse(e)),
            Ok(f) => Ok(f),
        },
    }
}

/// Steps over blank space.
fn skip_ws_x(s: &str, i: usize, n: usize) -> (r: usize)
    requires
        n == s@.len(),
        i <= n,
    ensures
        r as int == skip_ws(s@, i as int),
        i <= r <= n,
    decreases n - i,
{
    proof {
        lemma_skip_ws(s@, i as int);
    }
    if i < n {
        let c = s.get_char(i);
        if c == ' ' || c == '\t' || c == '\n' || c == '\r' {
            return skip_ws_x(s, i + 1, n);
        }
    }
    i
}

/// Demands the literal `lit` at position `i`; mirrors `expect_lit`.
fn expect_lit_x(s: &str, i: usize, n: usize, lit: &str) -> (r: Result<usize, EncodingError>)
    requires
        n == s@.len(),
        i <= n,
    ensures
        match (r, expect_lit(s@, i as int, lit@)) {
            (Ok(j), Ok(sj)) => j as int == sj && j <= n,
            (Err(e), Err(se)) => e == se,
            _ => false,
        },
{
    let m = lit.unicode_len();
    if m > n - i {
        proof {
            assert(!lit_at(s@, i as int, lit@));
        }
        return Err(EncodingError::Malformed { pos: i });
    }
    let mut d: usize = 0;
    while d < m
        invariant
            n == s@.len(),
            m == lit@.len(),
            i + m <= n,
            d <= m,
            forall|q: int| 0 <= q < d ==> s@[i + q] == lit@[q],
        decreases m - d,
    {
        if s.get_char(i + d) != lit.get_char(d) {
            proof {
                assert(!lit_at(s@, i as int, lit@)) by {
                    if lit_at(s@, i as int, lit@) {
                        assert(s@.subrange(i as int, i as int + lit@.len())[d as int] == s@[i as int
                            + d as int]);
                    }
                }
            }
            return Err(EncodingError::Malformed { pos: i });
        }
        d = d + 1;
    }
    proof {
        assert(lit_at(s@, i as int, lit@)) by {
            assert(s@.subrange(i as int, i as int + lit@.len()) =~= lit@) by {
                assert(forall|q: int|
                    0 <= q < lit@.len() ==> #[trigger] s@.subrange(
                        i as int,
                        i as int + lit@.len(),
                    )[q] == s@[i as int + q]);
            }
        }
    }
    Ok(i + m)
}

/// Reads a string body after its opening quote; mirrors `str_body`.
fn str_body_x(s: &str, i: usize, n: usize) -> (r: Result<(String, usize), EncodingError>)
    requires
        n == s@.len(),
        i <= n,
    ensures
        match (r, str_body(s@, i as int)) {
            (Ok((x, j)), Ok(sj)) => x@ == sj.0 && j as int == sj.1 && j <= n,
            (Err(e), Err(se)) => e == se,
            _ => false,
        },
{
    proof {
        lemma_str_body_bounds(s@, i as int);
    }
    let mut out = String::new();
    let mut cur = i;
    loop
        invariant
            n == s@.len(),
            i <= cur <= n,
            (match str_body(s@, cur as int) {
                Ok(sj) => str_body(s@, i as int) == Ok::<(Seq<char>, int), EncodingError>(
                    (out@ + sj.0, sj.1),
                ),
                Err(e) => str_body(s@, i as int) == Err::<(Seq<char>, int), EncodingError>(e),
            }),
        decreases n - cur,
    {
        if cur >= n {
            return Err(EncodingError::Malformed { pos: cur });
        }
        let c = s.get_char(cur);
        if c == '"' {
            proof {
                assert(out@ + Seq::<char>::empty() =~= out@);
                lemma_str_body_bounds(s@, i as int);
            }
            return Ok((out, cur + 1));
        } else if c == '\\' {
            if cur + 1 >= n {
                return Err(EncodingError::Malformed { pos: cur + 1 });
            }
            let e = s.get_char(cur + 1);
            let ghost before = out@;
            proof {
                reveal_strlit("\"");
                reveal_strlit("\\");
                reveal_strlit("/");
                reveal_strlit("\n");
                reveal_strlit("\r");
                reveal_strlit("\t");
                reveal_strlit("\u{8}");
                reveal_strlit("\u{c}");
            }
            if e == '"' {
                out.append("\"");
            } else if e == '\\' {
                out.append("\\");
            } else if e == '/' {
                out.append("/");
            } else if e == 'n' {
                out.append("\n");
            } else if e == 'r' {
                out.append("\r");
            } else if e == 't' {
                out.append("\t");
            } else if e == 'b' {
                out.append("\u{8}");
            } else if e == 'f' {
                out.append("\u{c}");
            } else {
                return Err(EncodingError::Malformed { pos: cur + 1 });
            }
            proof {
                if let Ok(sj) = str_body(s@, cur as int + 2) {
                    assert(before + (seq![out@[before.len() as int]] + sj.0) =~= out@ + sj.0);
                }
            }
            cur = cur + 2;
        } else if (c as u32) < 32 {
            return Err(EncodingError::Malformed { pos: cur });
        } else {
            let ghost before = out@;
            out.append(s.substring_char(cur, cur + 1));
            proof {
                assert(s@.subrange(cur as int, cur as int + 1) =~= seq![s@[cur as int]]);
                if let Ok(sj) = str_body(s@, cur as int + 1) {
                    assert(before + (seq![s@[cur as int]] + sj.0) =~= out@ + sj.0);
                }
            }
            cur = cur + 1;
        }
    }
}

/// Reads a JSON string after blank space; mirrors `read_string`.
fn read_string_x(s: &str, i: usize, n: usize) -> (r: Result<(String, usize), EncodingError>)
    requires
        n == s@.len(),
        i <= n,
    ensures
        match (r, read_string(s@, i as int)) {
            (Ok((x, j)), Ok(sj)) => x@ == sj.0 && j as int == sj.1 && i < j <= n,
            (Err(e), Err(se)) => e == se,
            _ => false,
        },
{
    proof {
        lemma_read_string_bounds(s@, i as int);
    }
    let j = skip_ws_x(s, i, n);
    if j < n && s.get_char(j) == '"' {
        str_body_x(s, j + 1, n)
    } else {
        Err(EncodingError::Malformed { pos: j })
    }
}

/// Demands one `"key":` frame and reads its string value.
fn key_string_x(s: &str, i: usize, n: usize, key: &str) -> (r: Result<
    (String, usize),
    EncodingError,
>)
    requires
        n == s@.len(),
        i <= n,
    ensures
        match (r, key_string(s@, i as int, key@)) {
            (Ok((x, j)), Ok(sj)) => x@ == sj.0 && j as int == sj.1 && i < j <= n,
            (Err(e), Err(se)) => e == se,
            _ => false,
        },
{
    proof {
        lemma_key_string_bounds(s@, i as int, key@);
    }
    let j = skip_ws_x(s, i, n);
    match expect_lit_x(s, j, n, key) {
        Err(e) => Err(e),
        Ok(j) => {
            let j2 = skip_ws_x(s, j, n);
            match expect_lit_x(s, j2, n, ":") {
                Err(e) => Err(e),
                Ok(j3) => read_string_x(s, j3, n),
            }
        },
    }
}

/// Reads one reference object; mirrors `read_reference`.
fn read_reference_x(s: &str, i: usize, n: usize) -> (r: Result<(RawReference, usize), EncodingError>)
    requires
        n == s@.len(),
        i <= n,
    ensures
        match (r, read_reference(s@, i as int)) {
            (Ok((x, j)), Ok(sj)) => x@ == sj.0 && j as int == sj.1 && i < j <= n,
            (Err(e), Err(se)) => e == se,
            _ => false,
        },
{
    proof {
        lemma_read_reference_bounds(s@, i as int);
    }
    let j = skip_ws_x(s, i, n);
    let j = match expect_lit_x(s, j, n, "{") {
        Err(e) => {
            return Err(e);
        },
        Ok(j) => j,
    };
    let (st, j) = match key_string_x(s, j, n, "\"state\"") {
        Err(e) => {
            return Err(e);
        },
        Ok(v) => v,
    };
    let jw = skip_ws_x(s, j, n);
    let j = match expect_lit_x(s, jw, n, ",") {
        Err(e) => {
            return Err(e);
        },
        Ok(j) => j,
    };
    let jw = skip_ws_x(s, j, n);
    let j = match expect_lit_x(s, jw, n, "\"mutable\"") {
        Err(e) => {
            return Err(e);
        },
        Ok(j) => j,
    };
    let jw = skip_ws_x(s, j, n);
    let j = match expect_lit_x(s, jw, n, ":") {
        Err(e) => {
            return Err(e);
        },
        Ok(j) => j,
    };
    let j2 = skip_ws_x(s, j, n);
    let tr = expect_lit_x(s, j2, n, "true");
    let (mutable, j) = match tr {
        Ok(j) => (true, j),
        Err(_) => {
            match expect_lit_x(s, j2, n, "false") {
                Ok(j) => (false, j),
                Err(_) => {
                    proof {
                        reveal_strlit("true");
                        reveal_strlit("false");
                    }
                    return Err(EncodingError::Malformed { pos: j2 });
                },
            }
        },
    };
    proof {
        reveal_strlit("true");
        reveal_strlit("false");
    }
    let jw = skip_ws_x(s, j, n);
    let j = match expect_lit_x(s, jw, n, ",") {
        Err(e) => {
            return Err(e);
        },
        Ok(j) => j,
    };
    let (rs, j) = match key_string_x(s, j, n, "\"resource\"") {
        Err(e) => {
            return Err(e);
        },
        Ok(v) => v,
    };
    let jw = skip_ws_x(s, j, n);
    let j = match expect_lit_x(s, jw, n, "}") {
        Err(e) => {
            return Err(e);
        },
        Ok(j) => j,
    };
    Ok((RawReference { state: RawState(st), mutable, resource: RawResource(rs) }, j))
}

/// Reads one transition object; mirrors `read_transition`.
fn read_transition_x(s: &str, i: usize, n: usize) -> (r: Result<
    (RawTransition, usize),
    EncodingError,
>)
    requires
        n == s@.len(),
        i <= n,
    ensures
        match (r, read_transition(s@, i as int)) {
            (Ok((x, j)), Ok(sj)) => x@ == sj.0 && j as int == sj.1 && i < j <= n,
            (Err(e), Err(se)) => e == se,
            _ => false,
        },
{
    proof {
        lemma_read_transition_bounds(s@, i as int);
    }
    let j = skip_ws_x(s, i, n);
    let j = match expect_lit_x(s, j, n, "{") {
        Err(e) => {
            return Err(e);
        },
        Ok(j) => j,
    };
    let (from, j) = match key_string_x(s, j, n, "\"from\"") {
        Err(e) => {
            return Err(e);
        },
        Ok(v) => v,
    };
    let jw = skip_ws_x(s, j, n);
    let j = match expect_lit_x(s, jw, n, ",") {
        Err(e) => {
            return Err(e);
        },
        Ok(j) => j,
    };
    let jw = skip_ws_x(s, j, n);
    let j = match expect_lit_x(s, jw, n, "\"intermediate\"") {
        Err(e) => {
            return Err(e);
        },
        Ok(j) => j,
    };
    let jw = skip_ws_x(s, j, n);
    let j = match expect_lit_x(s, jw, n, ":") {
        Err(e) => {
            return Err(e);
        },
        Ok(j) => j,
    };
    let j2 = skip_ws_x(s, j, n);
    let nu = expect_lit_x(s, j2, n, "null");
    let (intermediate, j) = match nu {
        Ok(j) => (Option::None, j),
        Err(_) => {
            match read_string_x(s, j2, n) {
                Err(e) => {
                    proof {
                        reveal_strlit("null");
                    }
                    return Err(e);
                },
                Ok((x, j3)) => (Option::Some(RawIntermediate(x)), j3),
            }
        },
    };
    proof {
        reveal_strlit("null");
    }
    let jw = skip_ws_x(s, j, n);
    let j = match expect_lit_x(s, jw, n, ",") {
        Err(e) => {
            return Err(e);
        },
        Ok(j) => j,
    };
    let (to, j) = match key_string_x(s, j, n, "\"to\"") {
        Err(e) => {
            return Err(e);
        },
        Ok(v) => v,
    };
    let jw = skip_ws_x(s, j, n);
    let j = match expect_lit_x(s, jw, n, "}") {
        Err(e) => {
            return Err(e);
        },
        Ok(j) => j,
    };
    Ok((RawTransition { from: RawState(from), intermediate, to: RawState(to) }, j))
}

/// Reads one overlay object; mirrors `read_overlay`.
fn read_overlay_x(s: &str, i: usize, n: usize) -> (r: Result<(RawOverlay, usize), EncodingError>)
    requires
        n == s@.len(),
        i <= n,
    ensures
        match (r, read_overlay(s@, i as int)) {
            (Ok((x, j)), Ok(sj)) => x@ == sj.0 && j as int == sj.1 && i < j <= n,
            (Err(e), Err(se)) => e == se,
            _ => false,
        },
{
    proof {
        lemma_read_overlay_bounds(s@, i as int);
    }
    let j = skip_ws_x(s, i, n);
    let j = match expect_lit_x(s, j, n, "{") {
        Err(e) => {
            return Err(e);
        },
        Ok(j) => j,
    };
    let (back, j) = match key_string_x(s, j, n, "\"back\"") {
        Err(e) => {
            return Err(e);
        },
        Ok(v) => v,
    };
    let jw = skip_ws_x(s, j, n);
    let j = match expect_lit_x(s, jw, n, ",") {
        Err(e) => {
            return Err(e);
        },
        Ok(j) => j,
    };
    let (front, j) = match key_string_x(s, j, n, "\"front\"") {
        Err(e) => {
            return Err(e);
        },
        Ok(v) => v,
    };
    let jw = skip_ws_x(s, j, n);
    let j = match expect_lit_x(s, jw, n, "}") {
        Err(e) => {
            return Err(e);
        },
        Ok(j) => j,
    };
    Ok((RawOverlay { back: RawState(back), front: RawState(front) }, j))
}

/// Reads a string array after its opening bracket; mirrors `arr_strings`.
fn arr_strings_x(s: &str, i: usize, n: usize) -> (r: Result<(Vec<String>, usize), EncodingError>)
    requires
        n == s@.len(),
        i <= n,
    ensures
        match (r, arr_strings(s@, i as int)) {
            (Ok((v, j)), Ok(sj)) => v@.map_values(|x: String| x@) == sj.0 && j as int == sj.1 && j
                <= n,
            (Err(e), Err(se)) => e == se,
            _ => false,
        },
{
    let j = skip_ws_x(s, i, n);
    if j < n && s.get_char(j) == ']' {
        let out: Vec<String> = Vec::new();
        proof {
            assert(out@.map_values(|x: String| x@) =~= Seq::<Seq<char>>::empty());
        }
        return Ok((out, j + 1));
    }
    let mut out: Vec<String> = Vec::new();
    let mut cur = i;
    loop
        invariant
            n == s@.len(),
            i <= cur <= n,
            (match arr_strings_more(s@, cur as int) {
                Ok(sj) => arr_strings(s@, i as int) == Ok::<(Seq<Seq<char>>, int), EncodingError>(
                    (out@.map_values(|x: String| x@) + sj.0, sj.1),
                ),
                Err(e) => arr_strings(s@, i as int) == Err::<
                    (Seq<Seq<char>>, int),
                    EncodingError,
                >(e),
            }),
        decreases n - cur,
    {
        proof {
            lemma_arr_strings_more_bounds(s@, cur as int);
        }
        match read_string_x(s, cur, n) {
            Err(e) => {
                return Err(e);
            },
            Ok((x, k)) => {
                let m = skip_ws_x(s, k, n);
                let ghost before = out@;
                let ghost xv = x@;
                if m < n && s.get_char(m) == ',' {
                    out.push(x);
                    proof {
                        assert(out@.map_values(|q: String| q@) =~= before.map_values(
                            |q: String| q@,
                        ) + seq![xv]) by {
                            let lhs = out@.map_values(|q: String| q@);
                            let bmap = before.map_values(|q: String| q@);
                            assert(forall|d: int|
                                0 <= d < before.len() ==> #[trigger] out@[d] == before[d]);
                            assert(forall|d: int|
                                0 <= d < out@.len() ==> #[trigger] lhs[d] == out@[d]@);
                            assert(forall|d: int|
                                0 <= d < before.len() ==> #[trigger] bmap[d] == before[d]@);
                        }
                        if let Ok(sj) = arr_strings_more(s@, m as int + 1) {
                            assert(before.map_values(|q: String| q@) + (seq![xv] + sj.0) =~= (
                            before.map_values(|q: String| q@) + seq![xv]) + sj.0);
                        }
                    }
                    cur = m + 1;
                } else if m < n && s.get_char(m) == ']' {
                    out.push(x);
                    proof {
                        assert(out@.map_values(|q: String| q@) =~= before.map_values(
                            |q: String| q@,
                        ) + seq![xv]) by {
                            let lhs = out@.map_values(|q: String| q@);
                            let bmap = before.map_values(|q: String| q@);
                            assert(forall|d: int|
                                0 <= d < before.len() ==> #[trigger] out@[d] == before[d]);
                            assert(forall|d: int|
                                0 <= d < out@.len() ==> #[trigger] lhs[d] == out@[d]@);
                            assert(forall|d: int|
                                0 <= d < before.len() ==> #[trigger] bmap[d] == before[d]@);
                        }
                    }
                    return Ok((out, m + 1));
                } else {
                    return Err(EncodingError::Malformed { pos: m });
                }
            },
        }
    }
}

/// Reads a reference array after its opening bracket; mirrors `arr_refs`.
fn arr_refs_x(s: &str, i: usize, n: usize) -> (r: Result<(Vec<RawReference>, usize), EncodingError>)
    requires
        n == s@.len(),
        i <= n,
    ensures
        match (r, arr_refs(s@, i as int)) {
            (Ok((v, j)), Ok(sj)) => v@.map_values(|x: RawReference| x@) == sj.0 && j as int == sj.1
                && j <= n,
            (Err(e), Err(se)) => e == se,
            _ => false,
        },
{
    let j = skip_ws_x(s, i, n);
    if j < n && s.get_char(j) == ']' {
        let out: Vec<RawReference> = Vec::new();
        proof {
            assert(out@.map_values(|x: RawReference| x@) =~= Seq::<RawReferenceV>::empty());
        }
        return Ok((out, j + 1));
    }
    let mut out: Vec<RawReference> = Vec::new();
    let mut cur = i;
    loop
        invariant
            n == s@.len(),
            i <= cur <= n,
            (match arr_refs_more(s@, cur as int) {
                Ok(sj) => arr_refs(s@, i as int) == Ok::<
                    (Seq<RawReferenceV>, int),
                    EncodingError,
                >((out@.map_values(|x: RawReference| x@) + sj.0, sj.1)),
                Err(e) => arr_refs(s@, i as int) == Err::<
                    (Seq<RawReferenceV>, int),
                    EncodingError,
                >(e),
            }),
        decreases n - cur,
    {
        proof {
            lemma_read_reference_bounds(s@, cur as int);
        }
        match read_reference_x(s, cur, n) {
            Err(e) => {
                return Err(e);
            },
            Ok((x, k)) => {
                let m = skip_ws_x(s, k, n);
                let ghost before = out@;
                let ghost xv = x@;
                if m < n && s.get_char(m) == ',' {
                    out.push(x);
                    proof {
                        assert(out@.map_values(|q: RawReference| q@) =~= before.map_values(
                            |q: RawReference| q@,
                        ) + seq![xv]) by {
                            let lhs = out@.map_values(|q: RawReference| q@);
                            let bmap = before.map_values(|q: RawReference| q@);
                            assert(forall|d: int|
                                0 <= d < before.len() ==> #[trigger] out@[d] == before[d]);
                            assert(forall|d: int|
                                0 <= d < out@.len() ==> #[trigger] lhs[d] == out@[d]@);
                            assert(forall|d: int|
                                0 <= d < before.len() ==> #[trigger] bmap[d] == before[d]@);
                        }
                        if let Ok(sj) = arr_refs_more(s@, m as int + 1) {
                            assert(before.map_values(|q: RawReference| q@) + (seq![xv] + sj.0) =~= (
                            before.map_values(|q: RawReference| q@) + seq![xv]) + sj.0);
                        }
                    }
                    cur = m + 1;
                } else if m < n && s.get_char(m) == ']' {
                    out.push(x);
                    proof {
                        assert(out@.map_values(|q: RawReference| q@) =~= before.map_values(
                            |q: RawReference| q@,
                        ) + seq![xv]) by {
                            let lhs = out@.map_values(|q: RawReference| q@);
                            let bmap = before.map_values(|q: RawReference| q@);
                            assert(forall|d: int|
                                0 <= d < before.len() ==> #[trigger] out@[d] == before[d]);
                            assert(forall|d: int|
                                0 <= d < out@.len() ==> #[trigger] lhs[d] == out@[d]@);
                            assert(forall|d: int|
                                0 <= d < before.len() ==> #[trigger] bmap[d] == before[d]@);
                        }
                    }
                    return Ok((out, m + 1));
                } else {
                    return Err(EncodingError::Malformed { pos: m });
                }
            },
        }
    }
}

/// Reads a transition array after its opening bracket; mirrors `arr_trs`.
fn arr_trs_x(s: &str, i: usize, n: usize) -> (r: Result<(Vec<RawTransition>, usize), EncodingError>)
    requires
        n == s@.len(),
        i <= n,
    ensures
        match (r, arr_trs(s@, i as int)) {
            (Ok((v, j)), Ok(sj)) => v@.map_values(|x: RawTransition| x@) == sj.0 && j as int == sj.1
                && j <= n,
            (Err(e), Err(se)) => e == se,
            _ => false,
        },
{
    let j = skip_ws_x(s, i, n);
    if j < n && s.get_char(j) == ']' {
        let out: Vec<RawTransition> = Vec::new();
        proof {
            assert(out@.map_values(|x: RawTransition| x@) =~= Seq::<RawTransitionV>::empty());
        }
        return Ok((out, j + 1));
    }
    let mut out: Vec<RawTransition> = Vec::new();
    let mut cur = i;
    loop
        invariant
            n == s@.len(),
            i <= cur <= n,
            (match arr_trs_more(s@, cur as int) {
                Ok(sj) => arr_trs(s@, i as int) == Ok::<
                    (Seq<RawTransitionV>, int),
                    EncodingError,
                >((out@.map_values(|x: RawTransition| x@) + sj.0, sj.1)),
                Err(e) => arr_trs(s@, i as int) == Err::<
                    (Seq<RawTransitionV>, int),
                    EncodingError,
                >(e),
            }),
        decreases n - cur,
    {
        proof {
            lemma_read_transition_bounds(s@, cur as int);
        }
        match read_transition_x(s, cur, n) {
            Err(e) => {
                return Err(e);
            },
            Ok((x, k)) => {
                let m = skip_ws_x(s, k, n);
                let ghost before = out@;
                let ghost xv = x@;
                if m < n && s.get_char(m) == ',' {
                    out.push(x);
                    proof {
                        assert(out@.map_values(|q: RawTransition| q@) =~= before.map_values(
                            |q: RawTransition| q@,
                        ) + seq![xv]) by {
                            let lhs = out@.map_values(|q: RawTransition| q@);
                            let bmap = before.map_values(|q: RawTransition| q@);
                            assert(forall|d: int|
                                0 <= d < before.len() ==> #[trigger] out@[d] == before[d]);
                            assert(forall|d: int|
                                0 <= d < out@.len() ==> #[trigger] lhs[d] == out@[d]@);
                            assert(forall|d: int|
                                0 <= d < before.len() ==> #[trigger] bmap[d] == before[d]@);
                        }
                        if let Ok(sj) = arr_trs_more(s@, m as int + 1) {
                            assert(before.map_values(|q: RawTransition| q@) + (seq![xv] + sj.0)
                                =~= (before.map_values(|q: RawTransition| q@) + seq![xv]) + sj.0);
                        }
                    }
                    cur = m + 1;
                } else if m < n && s.get_char(m) == ']' {
                    out.push(x);
                    proof {
                        assert(out@.map_values(|q: RawTransition| q@) =~= before.map_values(
                            |q: RawTransition| q@,
                        ) + seq![xv]) by {
                            let lhs = out@.map_values(|q: RawTransition| q@);
                            let bmap = before.map_values(|q: RawTransition| q@);
                            assert(forall|d: int|
                                0 <= d < before.len() ==> #[trigger] out@[d] == before[d]);
                            assert(forall|d: int|
                                0 <= d < out@.len() ==> #[trigger] lhs[d] == out@[d]@);
                            assert(forall|d: int|
                                0 <= d < before.len() ==> #[trigger] bmap[d] == before[d]@);
                        }
                    }
                    return Ok((out, m + 1));
                } else {
                    return Err(EncodingError::Malformed { pos: m });
                }
            },
        }
    }
}

/// Reads an overlay array after its opening bracket; mirrors `arr_ovs`.
fn arr_ovs_x(s: &str, i: usize, n: usize) -> (r: Result<(Vec<RawOverlay>, usize), EncodingError>)
    requires
        n == s@.len(),
        i <= n,
    ensures
        match (r, arr_ovs(s@, i as int)) {
            (Ok((v, j)), Ok(sj)) => v@.map_values(|x: RawOverlay| x@) == sj.0 && j as int == sj.1
                && j <= n,
            (Err(e), Err(se)) => e == se,
            _ => false,
        },
{
    let j = skip_ws_x(s, i, n);
    if j < n && s.get_char(j) == ']' {
        let out: Vec<RawOverlay> = Vec::new();
        proof {
            assert(out@.map_values(|x: RawOverlay| x@) =~= Seq::<RawOverlayV>::empty());
        }
        return Ok((out, j + 1));
    }
    let mut out: Vec<RawOverlay> = Vec::new();
    let mut cur = i;
    loop
        invariant
            n == s@.len(),
            i <= cur <= n,
            (match arr_ovs_more(s@, cur as int) {
                Ok(sj) => arr_ovs(s@, i as int) == Ok::<(Seq<RawOverlayV>, int), EncodingError>(
                    (out@.map_values(|x: RawOverlay| x@) + sj.0, sj.1),
                ),
                Err(e) => arr_ovs(s@, i as int) == Err::<(Seq<RawOverlayV>, int), EncodingError>(
                    e,
                ),
            }),
        decreases n - cur,
    {
        proof {
            lemma_read_overlay_bounds(s@, cur as int);
        }
        match read_overlay_x(s, cur, n) {
            Err(e) => {
                return Err(e);
            },
            Ok((x, k)) => {
                let m = skip_ws_x(s, k, n);
                let ghost before = out@;
                let ghost xv = x@;
                if m < n && s.get_char(m) == ',' {
                    out.push(x);
                    proof {
                        assert(out@.map_values(|q: RawOverlay| q@) =~= before.map_values(
                            |q: RawOverlay| q@,
                        ) + seq![xv]) by {
                            let lhs = out@.map_values(|q: RawOverlay| q@);
                            let bmap = before.map_values(|q: RawOverlay| q@);
                            assert(forall|d: int|
                                0 <= d < before.len() ==> #[trigger] out@[d] == before[d]);
                            assert(forall|d: int|
                                0 <= d < out@.len() ==> #[trigger] lhs[d] == out@[d]@);
                            assert(forall|d: int|
                                0 <= d < before.len() ==> #[trigger] bmap[d] == before[d]@);
                        }
                        if let Ok(sj) = arr_ovs_more(s@, m as int + 1) {
                            assert(before.map_values(|q: RawOverlay| q@) + (seq![xv] + sj.0) =~= (
                            before.map_values(|q: RawOverlay| q@) + seq![xv]) + sj.0);
                        }
                    }
                    cur = m + 1;
                } else if m < n && s.get_char(m) == ']' {
                    out.push(x);
                    proof {
                        assert(out@.map_values(|q: RawOverlay| q@) =~= before.map_values(
                            |q: RawOverlay| q@,
                        ) + seq![xv]) by {
                            let lhs = out@.map_values(|q: RawOverlay| q@);
                            let bmap = before.map_values(|q: RawOverlay| q@);
                            assert(forall|d: int|
                                0 <= d < before.len() ==> #[trigger] out@[d] == before[d]);
                            assert(forall|d: int|
                                0 <= d < out@.len() ==> #[trigger] lhs[d] == out@[d]@);
                            assert(forall|d: int|
                                0 <= d < before.len() ==> #[trigger] bmap[d] == before[d]@);
                        }
                    }
                    return Ok((out, m + 1));
                } else {
                    return Err(EncodingError::Malformed { pos: m });
                }
            },
        }
    }
}

/// Demands one `"key": [` frame; mirrors `key_array`.
fn key_array_x(s: &str, i: usize, n: usize, key: &str) -> (r: Result<usize, EncodingError>)
    requires
        n == s@.len(),
        i <= n,
    ensures
        match (r, key_array(s@, i as int, key@)) {
            (Ok(j), Ok(sj)) => j as int == sj && j <= n,
            (Err(e), Err(se)) => e == se,
            _ => false,
        },
{
    let j = skip_ws_x(s, i, n);
    match expect_lit_x(s, j, n, key) {
        Err(e) => Err(e),
        Ok(j) => {
            let j2 = skip_ws_x(s, j, n);
            match expect_lit_x(s, j2, n, ":") {
                Err(e) => Err(e),
                Ok(j3) => {
                    let j4 = skip_ws_x(s, j3, n);
                    expect_lit_x(s, j4, n, "[")
                },
            }
        },
    }
}

/// Wraps the decoded identifier texts of the resource section.
fn wrap_resources(v: Vec<String>) -> (r: Vec<RawResource>)
    ensures
        r@.map_values(|x: RawResource| x@) == v@.map_values(|x: String| x@),
{
    let ghost orig = v@;
    let mut v = v;
    let mut out: Vec<RawResource> = Vec::new();
    while v.len() > 0
        invariant
            out@.map_values(|x: RawResource| x@) + v@.map_values(|x: String| x@)
                == orig.map_values(|x: String| x@),
        decreases v.len(),
    {
        let ghost old_v = v@;
        let ghost old_out = out@;
        let x = v.remove(0);
        let ghost xv = x@;
        out.push(RawResource(x));
        proof {
            assert(old_v.map_values(|q: String| q@) =~= seq![xv] + v@.map_values(|q: String| q@));
            assert(out@.map_values(|q: RawResource| q@) =~= old_out.map_values(|q: RawResource| q@)
                + seq![xv]);
            assert((old_out.map_values(|q: RawResource| q@) + seq![xv]) + v@.map_values(
                |q: String| q@,
            ) =~= old_out.map_values(|q: RawResource| q@) + (seq![xv] + v@.map_values(
                |q: String| q@,
            )));
        }
    }
    proof {
        assert(out@.map_values(|x: RawResource| x@) + v@.map_values(|x: String| x@)
            =~= out@.map_values(|x: RawResource| x@));
    }
    out
}

/// Wraps the decoded identifier texts of the state section.
fn wrap_states(v: Vec<String>) -> (r: Vec<RawState>)
    ensures
        r@.map_values(|x: RawState| x@) == v@.map_values(|x: String| x@),
{
    let ghost orig = v@;
    let mut v = v;
    let mut out: Vec<RawState> = Vec::new();
    while v.len() > 0
        invariant
            out@.map_values(|x: RawState| x@) + v@.map_values(|x: String| x@) == orig.map_values(
                |x: String| x@,
            ),
        decreases v.len(),
    {
        let ghost old_v = v@;
        let ghost old_out = out@;
        let x = v.remove(0);
        let ghost xv = x@;
        out.push(RawState(x));
        proof {
            assert(old_v.map_values(|q: String| q@) =~= seq![xv] + v@.map_values(|q: String| q@));
            assert(out@.map_values(|q: RawState| q@) =~= old_out.map_values(|q: RawState| q@)
                + seq![xv]);
            assert((old_out.map_values(|q: RawState| q@) + seq![xv]) + v@.map_values(
                |q: String| q@,
            ) =~= old_out.map_values(|q: RawState| q@) + (seq![xv] + v@.map_values(
                |q: String| q@,
            )));
        }
    }
    proof {
        assert(out@.map_values(|x: RawState| x@) + v@.map_values(|x: String| x@)
            =~= out@.map_values(|x: RawState| x@));
    }
    out
}

/// Wraps the decoded identifier texts of the intermediate section.
fn wrap_intermediates(v: Vec<String>) -> (r: Vec<RawIntermediate>)
    ensures
        r@.map_values(|x: RawIntermediate| x@) == v@.map_values(|x: String| x@),
{
    let ghost orig = v@;
    let mut v = v;
    let mut out: Vec<RawIntermediate> = Vec::new();
    while v.len() > 0
        invariant
            out@.map_values(|x: RawIntermediate| x@) + v@.map_values(|x: String| x@)
                == orig.map_values(|x: String| x@),
        decreases v.len(),
    {
        let ghost old_v = v@;
        let ghost old_out = out@;
        let x = v.remove(0);
        let ghost xv = x@;
        out.push(RawIntermediate(x));
        proof {
            assert(old_v.map_values(|q: String| q@) =~= seq![xv] + v@.map_values(|q: String| q@));
            assert(out@.map_values(|q: RawIntermediate| q@) =~= old_out.map_values(
                |q: RawIntermediate| q@,
            ) + seq![xv]);
            assert((old_out.map_values(|q: RawIntermediate| q@) + seq![xv]) + v@.map_values(
                |q: String| q@,
            ) =~= old_out.map_values(|q: RawIntermediate| q@) + (seq![xv] + v@.map_values(
                |q: String| q@,
            )));
        }
    }
    proof {
        assert(out@.map_values(|x: RawIntermediate| x@) + v@.map_values(|x: String| x@)
            =~= out@.map_values(|x: RawIntermediate| x@));
    }
    out
}

impl RawFlow {
    /// Reads the canonical JSON shape back into the mirror; mirrors
    /// `json_to_raw`.
    #[verifier::loop_isolation(false)]
    pub fn from_json(s: &str) -> (r: Result<RawFlow, EncodingError>)
        ensures
            match (r, json_to_raw(s@)) {
                (Ok(rf), Ok(rv)) => rf@ == rv,
                (Err(e), Err(se)) => e == se,
                _ => false,
            },
    {
        let n = s.unicode_len();
        let j = skip_ws_x(s, 0, n);
        let j = match expect_lit_x(s, j, n, "{") {
            Err(e) => {
                return Err(e);
            },
            Ok(j) => j,
        };
        let j = match key_array_x(s, j, n, "\"resources\"") {
            Err(e) => {
                return Err(e);
            },
            Ok(j) => j,
        };
        let (resources, j) = match arr_strings_x(s, j, n) {
            Err(e) => {
                return Err(e);
            },
            Ok(v) => v,
        };
        let jw = skip_ws_x(s, j, n);
        let j = match expect_lit_x(s, jw, n, ",") {
            Err(e) => {
                return Err(e);
            },
            Ok(j) => j,
        };
        let j = match key_array_x(s, j, n, "\"states\"") {
            Err(e) => {
                return Err(e);
            },
            Ok(j) => j,
        };
        let (states, j) = match arr_strings_x(s, j, n) {
            Err(e) => {
                return Err(e);
            },
            Ok(v) => v,
        };
        let jw = skip_ws_x(s, j, n);
        let j = match expect_lit_x(s, jw, n, ",") {
            Err(e) => {
                return Err(e);
            },
            Ok(j) => j,
        };
        let j = match key_array_x(s, j, n, "\"intermediates\"") {
            Err(e) => {
                return Err(e);
            },
            Ok(j) => j,
        };
        let (intermediates, j) = match arr_strings_x(s, j, n) {
            Err(e) => {
                return Err(e);
            },
            Ok(v) => v,
        };
        let jw = skip_ws_x(s, j, n);
        let j = match expect_lit_x(s, jw, n, ",") {
            Err(e) => {
                return Err(e);
            },
            Ok(j) => j,
        };
        let j = match key_array_x(s, j, n, "\"references\"") {
            Err(e) => {
                return Err(e);
            },
            Ok(j) => j,
        };
        let (references, j) = match arr_refs_x(s, j, n) {
            Err(e) => {
                return Err(e);
            },
            Ok(v) => v,
        };
        let jw = skip_ws_x(s, j, n);
        let j = match expect_lit_x(s, jw, n, ",") {
            Err(e) => {
                return Err(e);
            },
            Ok(j) => j,
        };
        let j = match key_array_x(s, j, n, "\"transitions\"") {
            Err(e) => {
                return Err(e);
            },
            Ok(j) => j,
        };
        let (transitions, j) = match arr_trs_x(s, j, n) {
            Err(e) => {
                return Err(e);
            },
            Ok(v) => v,
        };
        let jw = skip_ws_x(s, j, n);
        let j = match expect_lit_x(s, jw, n, ",") {
            Err(e) => {
                return Err(e);
            },
            Ok(j) => j,
        };
        let j = match key_array_x(s, j, n, "\"overlays\"") {
            Err(e) => {
                return Err(e);
            },
            Ok(j) => j,
        };
        let (overlays, j) = match arr_ovs_x(s, j, n) {
            Err(e) => {
                return Err(e);
            },
            Ok(v) => v,
        };
        let jw = skip_ws_x(s, j, n);
        let j = match expect_lit_x(s, jw, n, "}") {
            Err(e) => {
                return Err(e);
            },
            Ok(j) => j,
        };
        let end = skip_ws_x(s, j, n);
        if end != n {
            return Err(EncodingError::Malformed { pos: end });
        }
        let rf = RawFlow {
            resources: wrap_resources(resources),
            states: wrap_states(states),
            intermediates: wrap_intermediates(intermediates),
            references,
            transitions,
            overlays,
        };
        proof {
            if let Ok(rv) = json_to_raw(s@) {
                assert(rf@ =~= rv);
            }
        }
        Ok(rf)
    }
}

/// Decodes an interchange document: the canonical JSON shape, then the
/// re-parse of every stored identifier.
pub fn decode(s: &str) -> (r: Result<Flow, DecodeError>)
    ensures
        match (r, decode_doc(s@)) {
            (Ok(f), Ok(fv)) => f@ == fv,
            (Err(e), Err(se)) => e == se,
            _ => false,
        },
{
    match RawFlow::from_json(s) {
        Err(e) => Err(DecodeError::Encoding(e)),
        Ok(rf) => match Flow::try_from(rf) {
            Err(e) => Err(DecodeError::ReParse(e)),
            Ok(f) => Ok(f),
        },
    }
}

/// Decodes an interchange document and renders it back to Flow source
/// text.
pub fn json2flow(json_string: &str) -> (r: Result<String, DecodeError>)
    ensures
        match (r, decode_doc(json_string@)) {
            (Ok(out), Ok(fv)) => out@ == crate::render::flow_text(fv),
            (Err(e), Err(se)) => e == se,
            _ => false,
        },
{
    match decode(json_string) {
        Err(e) => Err(e),
        Ok(f) => Ok(f.render()),
    }
}

} // verus!
