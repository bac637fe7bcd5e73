use flower_parser::{
    decode, encode, flow2json, json2flow, DecodeError, EncodingError, Error, Field, Flow, RawFlow,
    RawIntermediate, RawOverlay, RawReference, RawResource, RawState, RawTransition, Resource,
};

const FLOW_STR: &str = r#"resource: [A]
state: [S, T]
reference: [S -< A]
transition: [S >- N -> T]
overlay: [S ^ T]
intermediate: [N]
"#;

fn empty_raw() -> RawFlow {
    RawFlow {
        resources: vec![],
        states: vec![],
        intermediates: vec![],
        references: vec![],
        transitions: vec![],
        overlays: vec![],
    }
}

#[test]
fn canonical_round_trip() {
    let f1 = Flow::from_str(FLOW_STR).unwrap();
    let rendered = f1.render();
    let raw = RawFlow::from(f1);
    assert_eq!(raw.resources[0].0, "A");
    assert_eq!(raw.states[0].0, "S");
    assert_eq!(raw.states[1].0, "T");
    assert_eq!(raw.references[0].state.0, "S");
    assert!(!raw.references[0].mutable);
    assert_eq!(raw.transitions[0].intermediate.as_ref().unwrap().0, "N");
    assert_eq!(raw.overlays[0].back.0, "S");
    assert_eq!(raw.overlays[0].front.0, "T");
    let f2 = Flow::try_from(raw).unwrap();
    assert_eq!(f2.render(), rendered);
}

#[test]
fn canonical_keeps_qualified_names() {
    let text = "resource: [lib::R]\nstate: [app::S]\nreference: [app::S -< mut lib::R]\ntransition: []\noverlay: []\nintermediate: []";
    let f = Flow::from_str(text).unwrap();
    let raw = RawFlow::from(f);
    assert_eq!(raw.resources[0].0, "lib::R");
    assert_eq!(raw.references[0].resource.0, "lib::R");
    assert!(raw.references[0].mutable);
    let f2 = Flow::try_from(raw).unwrap();
    assert_eq!(f2.references.items[0].resource.0.segments, vec!["lib", "R"]);
}

#[test]
fn bad_identifier_reparse() {
    let mut raw = empty_raw();
    raw.resources.push(RawResource("1bad".to_string()));
    match Flow::try_from(raw) {
        Err(Error::Lexical { field }) => assert_eq!(field, Field::Resources),
        other => panic!("expected a re-parse failure, got {:?}", other),
    }
}

#[test]
fn reparse_failure_names_field() {
    let mut raw = empty_raw();
    raw.references.push(RawReference {
        state: RawState("S".to_string()),
        mutable: false,
        resource: RawResource("not an ident".to_string()),
    });
    match Flow::try_from(raw) {
        Err(Error::Grammar { field }) => assert_eq!(field, Field::ReferenceResource),
        other => panic!("expected a re-parse failure, got {:?}", other),
    }
    let mut raw = empty_raw();
    raw.transitions.push(RawTransition {
        from: RawState("S".to_string()),
        intermediate: Some(RawIntermediate("".to_string())),
        to: RawState("T".to_string()),
    });
    match Flow::try_from(raw) {
        Err(Error::Grammar { field }) => assert_eq!(field, Field::TransitionIntermediate),
        other => panic!("expected a re-parse failure, got {:?}", other),
    }
    let mut raw = empty_raw();
    raw.overlays.push(RawOverlay {
        back: RawState("^".to_string()),
        front: RawState("T".to_string()),
    });
    match Flow::try_from(raw) {
        Err(Error::Grammar { field }) => assert_eq!(field, Field::OverlayBack),
        other => panic!("expected a re-parse failure, got {:?}", other),
    }
}

#[test]
fn single_mirrors_round_trip() {
    let r = Resource::try_from(RawResource("m::T".to_string())).unwrap();
    assert_eq!(r.0.segments, vec!["m", "T"]);
    assert_eq!(RawResource::from(r).0, "m::T");
}

#[test]
fn end_to_end() {
    let f = Flow::from_str(FLOW_STR).unwrap();
    assert_eq!(f.resources.items.len(), 1);
    assert_eq!(f.resources.items[0].0.segments, vec!["A"]);
    assert_eq!(f.states.items.len(), 2);
    assert_eq!(f.states.items[0].0.segments, vec!["S"]);
    assert_eq!(f.states.items[1].0.segments, vec!["T"]);
    assert_eq!(f.intermediates.items.len(), 1);
    assert_eq!(f.intermediates.items[0].0.segments, vec!["N"]);
    assert_eq!(f.references.items.len(), 1);
    assert!(!f.references.items[0].mutable);
    assert_eq!(f.references.items[0].state.0.segments, vec!["S"]);
    assert_eq!(f.references.items[0].resource.0.segments, vec!["A"]);
    assert_eq!(f.transitions.items.len(), 1);
    assert_eq!(f.transitions.items[0].from.0.segments, vec!["S"]);
    assert_eq!(
        f.transitions.items[0].intermediate.as_ref().unwrap().0.segments,
        vec!["N"]
    );
    assert_eq!(f.transitions.items[0].to.0.segments, vec!["T"]);
    assert_eq!(f.overlays.items.len(), 1);
    assert_eq!(f.overlays.items[0].back.0.segments, vec!["S"]);
    assert_eq!(f.overlays.items[0].front.0.segments, vec!["T"]);
    let json = encode(f);
    assert_eq!(
        json,
        "{\"resources\":[\"A\"],\"states\":[\"S\",\"T\"],\"intermediates\":[\"N\"],\
         \"references\":[{\"state\":\"S\",\"mutable\":false,\"resource\":\"A\"}],\
         \"transitions\":[{\"from\":\"S\",\"intermediate\":\"N\",\"to\":\"T\"}],\
         \"overlays\":[{\"back\":\"S\",\"front\":\"T\"}]}"
    );
    let value: serde_json::Value = serde_json::from_str(&json).unwrap();
    assert_eq!(value["resources"][0], "A");
    assert_eq!(value["states"][1], "T");
    assert_eq!(value["intermediates"][0], "N");
    assert_eq!(value["references"][0]["state"], "S");
    assert_eq!(value["references"][0]["mutable"], false);
    assert_eq!(value["references"][0]["resource"], "A");
    assert_eq!(value["transitions"][0]["from"], "S");
    assert_eq!(value["transitions"][0]["intermediate"], "N");
    assert_eq!(value["transitions"][0]["to"], "T");
    assert_eq!(value["overlays"][0]["back"], "S");
    assert_eq!(value["overlays"][0]["front"], "T");
}

#[test]
fn flow2json_reports_parse_errors() {
    assert!(flow2json("resource: [A").is_err());
    let json = flow2json(FLOW_STR).unwrap();
    assert!(json.starts_with("{\"resources\":[\"A\"]"));
}

#[test]
fn decode_inverts_encode() {
    let f = Flow::from_str(FLOW_STR).unwrap();
    let rendered = f.render();
    let json = encode(f);
    let g = decode(&json).unwrap();
    assert_eq!(g.render(), rendered);
    assert_eq!(json2flow(&json).unwrap(), rendered);
    // the composed direction as well
    let json2 = flow2json(&rendered).unwrap();
    assert_eq!(json2, json);
}

#[test]
fn decode_accepts_blank_space() {
    let json = " { \"resources\" : [ \"A\" ] , \"states\" : [ \"S\" , \"T\" ] ,\n\
                 \"intermediates\" : [ ] , \"references\" : [ ] ,\n\
                 \"transitions\" : [ { \"from\" : \"S\" , \"intermediate\" : null , \"to\" : \"T\" } ] ,\n\
                 \"overlays\" : [ ] } ";
    let f = decode(json).unwrap();
    assert_eq!(f.resources.items[0].0.segments, vec!["A"]);
    assert_eq!(f.states.items.len(), 2);
    assert!(f.transitions.items[0].intermediate.is_none());
    assert!(f.intermediates.items.is_empty());
}

#[test]
fn decode_rejects_malformed_documents() {
    assert!(matches!(
        decode("nonsense"),
        Err(DecodeError::Encoding(EncodingError::Malformed { .. }))
    ));
    // truncated inside the first array
    assert!(matches!(
        decode("{\"resources\":[\"A\""),
        Err(DecodeError::Encoding(EncodingError::Malformed { .. }))
    ));
    // a field of the wrong type
    assert!(matches!(
        decode("{\"resources\":[1],\"states\":[],\"intermediates\":[],\"references\":[],\"transitions\":[],\"overlays\":[]}"),
        Err(DecodeError::Encoding(EncodingError::Malformed { .. }))
    ));
    // a missing field
    assert!(matches!(
        decode("{\"resources\":[],\"states\":[],\"intermediates\":[],\"references\":[],\"transitions\":[]}"),
        Err(DecodeError::Encoding(EncodingError::Malformed { .. }))
    ));
    // trailing text after the document
    assert!(matches!(
        decode("{\"resources\":[],\"states\":[],\"intermediates\":[],\"references\":[],\"transitions\":[],\"overlays\":[]} x"),
        Err(DecodeError::Encoding(EncodingError::Malformed { .. }))
    ));
}

#[test]
fn decode_reports_reparse_failures() {
    let json = "{\"resources\":[\"1bad\"],\"states\":[],\"intermediates\":[],\"references\":[],\"transitions\":[],\"overlays\":[]}";
    assert!(matches!(
        decode(json),
        Err(DecodeError::ReParse(Error::Lexical { field: Field::Resources }))
    ));
}

#[test]
fn encoder_agrees_with_a_json_reader() {
    // an identifier text with every escape class, fed straight into the
    // mirror: the encoder must produce a document a JSON reader accepts
    // and decodes back to the same text
    let odd = "a\"b\\c\nd\te\u{1}f";
    let mut raw = empty_raw();
    raw.resources.push(RawResource(odd.to_string()));
    raw.transitions.push(RawTransition {
        from: RawState("S".to_string()),
        intermediate: None,
        to: RawState("T".to_string()),
    });
    let json = raw.to_json();
    let value: serde_json::Value = serde_json::from_str(&json).unwrap();
    assert_eq!(value["resources"][0], odd);
    assert!(value["transitions"][0]["intermediate"].is_null());
}
