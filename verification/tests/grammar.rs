use flower_parser::{Flow, GrammarKind, ParseError, Reference, SectionKw, Transition};

const FLOW_STR: &str = r#"resource: [A]
state: [S, T]
reference: [S -< A]
transition: [S >- N -> T]
overlay: [S ^ T]
intermediate: [N]
"#;

fn seg(s: &str) -> Vec<String> {
    s.split("::").map(|p| p.to_string()).collect()
}

#[test]
fn raw_ast_from_str() {
    let flow: Flow = Flow::from_str(FLOW_STR).unwrap();
    let _ = format!("{:?}", flow);
}

const REF_STR: &str = r#"A -< B"#;

#[test]
fn reference_from_str() {
    let reference: Reference = Reference::from_str(REF_STR).unwrap();
    let _ = format!("{:?}", reference);
}

const TRANSITION_STR: &str = r#"A >--> B"#;

#[test]
fn transition_from_str() {
    let transition: Transition = Transition::from_str(TRANSITION_STR).unwrap();
    let _ = format!("{:?}", transition);
}

const TRANSITION_INTERMEDIATE_STR: &str = r#"A >- B -> C"#;

#[test]
fn transition_intermediate_from_str() {
    let transition: Transition = Transition::from_str(TRANSITION_INTERMEDIATE_STR).unwrap();
    let _ = format!("{:?}", transition);
}

#[test]
fn transition_lookahead_no_label() {
    let t = Transition::from_str("A >--> B").unwrap();
    assert_eq!(t.from.0.segments, seg("A"));
    assert!(t.intermediate.is_none());
    assert_eq!(t.to.0.segments, seg("B"));
}

#[test]
fn transition_lookahead_with_label() {
    let t = Transition::from_str("A >- N -> B").unwrap();
    assert_eq!(t.from.0.segments, seg("A"));
    assert_eq!(t.intermediate.as_ref().unwrap().0.segments, seg("N"));
    assert_eq!(t.to.0.segments, seg("B"));
}

#[test]
fn reference_mutability() {
    let r = Reference::from_str("S -< mut R").unwrap();
    assert!(r.mutable);
    assert_eq!(r.state.0.segments, seg("S"));
    assert_eq!(r.resource.0.segments, seg("R"));
    let r = Reference::from_str("S -< R").unwrap();
    assert!(!r.mutable);
}

#[test]
fn qualified_identifiers() {
    let r = Reference::from_str("app::S -< mut lib::res::R").unwrap();
    assert_eq!(r.state.0.segments, seg("app::S"));
    assert_eq!(r.resource.0.segments, seg("lib::res::R"));
}

#[test]
fn truncated_input_rejected() {
    match Flow::from_str("resource: [A") {
        Err(ParseError::Grammar { kind, .. }) => {
            assert_eq!(kind, GrammarKind::CommaOrClose);
        }
        other => panic!("expected a grammar error, got {:?}", other),
    }
}

#[test]
fn missing_section_named() {
    // all six present but the intermediate section
    let text = "resource: [A]\nstate: [S, T]\nreference: [S -< A]\ntransition: [S >--> T]\noverlay: [S ^ T]\n";
    match Flow::from_str(text) {
        Err(ParseError::Grammar { kind, .. }) => {
            assert_eq!(kind, GrammarKind::MissingSection(SectionKw::Intermediate));
        }
        other => panic!("expected a missing-section error, got {:?}", other),
    }
    // and with the resource section absent instead
    let text = "state: [S]\nreference: []\ntransition: []\noverlay: []\nintermediate: []\n";
    match Flow::from_str(text) {
        Err(ParseError::Grammar { kind, .. }) => {
            assert_eq!(kind, GrammarKind::MissingSection(SectionKw::Resource));
        }
        other => panic!("expected a missing-section error, got {:?}", other),
    }
}

#[test]
fn any_permutation_parses() {
    let sections = [
        "resource: [A]",
        "state: [S, T]",
        "intermediate: [N]",
        "reference: [S -< A]",
        "transition: [S >- N -> T]",
        "overlay: [S ^ T]",
    ];
    // rotate through all cyclic orders and one swapped order
    for start in 0..sections.len() {
        let mut doc = String::new();
        for k in 0..sections.len() {
            doc.push_str(sections[(start + k) % sections.len()]);
            doc.push('\n');
        }
        Flow::from_str(&doc).unwrap();
    }
    let swapped = format!(
        "{}\n{}\n{}\n{}\n{}\n{}\n",
        sections[5], sections[3], sections[1], sections[0], sections[2], sections[4]
    );
    Flow::from_str(&swapped).unwrap();
}

#[test]
fn duplicate_section_rejected() {
    let text = "resource: [A]\nresource: [B]\nstate: []\nreference: []\ntransition: []\noverlay: []\nintermediate: []\n";
    match Flow::from_str(text) {
        Err(ParseError::Grammar { kind, .. }) => {
            assert_eq!(kind, GrammarKind::DuplicateSection(SectionKw::Resource));
        }
        other => panic!("expected a duplicate-section error, got {:?}", other),
    }
}

#[test]
fn lexical_error_position() {
    match Flow::from_str("resource: [$]") {
        Err(ParseError::Lexical { pos }) => assert_eq!(pos, 11),
        other => panic!("expected a lexical error, got {:?}", other),
    }
}

#[test]
fn stray_colon_rejected() {
    match Flow::from_str("resource [A]") {
        Err(ParseError::Grammar { at, kind }) => {
            assert_eq!(at, 1);
            assert_eq!(kind, GrammarKind::Colon);
        }
        other => panic!("expected a grammar error, got {:?}", other),
    }
}

#[test]
fn mut_is_not_an_identifier() {
    assert!(Reference::from_str("S -< mut").is_err());
    assert!(flower_parser::Resource::from_str("mut").is_err());
}

#[test]
fn trailing_comma_accepted() {
    let f = Flow::from_str(
        "resource: [A, B,]\nstate: []\nreference: []\ntransition: []\noverlay: []\nintermediate: []",
    )
    .unwrap();
    assert_eq!(f.resources.items.len(), 2);
}

#[test]
fn grammar_error_kinds() {
    // a token that opens no section
    assert!(matches!(
        Flow::from_str("banana: [A]"),
        Err(ParseError::Grammar { kind: GrammarKind::SectionKeyword, .. })
    ));
    // a missing opening bracket
    assert!(matches!(
        Flow::from_str("resource: A]"),
        Err(ParseError::Grammar { kind: GrammarKind::OpenBracket, .. })
    ));
    // an item where an identifier was wanted
    assert!(matches!(
        Flow::from_str("resource: [,]"),
        Err(ParseError::Grammar { kind: GrammarKind::Identifier, .. })
    ));
    // a reference without its mark
    assert!(matches!(
        Reference::from_str("S R"),
        Err(ParseError::Grammar { kind: GrammarKind::SubLt, .. })
    ));
    // a transition without its opening mark
    assert!(matches!(
        Transition::from_str("S -> T"),
        Err(ParseError::Grammar { kind: GrammarKind::GtSub, .. })
    ));
    // `-<` where `->` must close the transition
    assert!(matches!(
        Transition::from_str("S >--< T"),
        Err(ParseError::Grammar { kind: GrammarKind::RArrow, .. })
    ));
    // an overlay without its caret
    assert!(matches!(
        flower_parser::Overlay::from_str("S T"),
        Err(ParseError::Grammar { kind: GrammarKind::Caret, .. })
    ));
    // leftover tokens after a complete item
    assert!(matches!(
        Reference::from_str("S -< R extra"),
        Err(ParseError::Grammar { kind: GrammarKind::End, .. })
    ));
}

#[test]
fn round_trip_identity() {
    let f1 = Flow::from_str(FLOW_STR).unwrap();
    let rendered = f1.render();
    let f2 = Flow::from_str(&rendered).unwrap();
    assert_eq!(f2.render(), rendered);
    assert_eq!(f1.resources.items.len(), f2.resources.items.len());
    assert_eq!(
        f1.resources.items[0].0.segments,
        f2.resources.items[0].0.segments
    );
    assert_eq!(f1.states.items[0].0.segments, f2.states.items[0].0.segments);
    assert_eq!(f1.states.items[1].0.segments, f2.states.items[1].0.segments);
    assert_eq!(
        f1.references.items[0].mutable,
        f2.references.items[0].mutable
    );
    assert_eq!(
        f1.transitions.items[0]
            .intermediate
            .as_ref()
            .unwrap()
            .0
            .segments,
        f2.transitions.items[0]
            .intermediate
            .as_ref()
            .unwrap()
            .0
            .segments
    );
    assert_eq!(
        f1.overlays.items[0].front.0.segments,
        f2.overlays.items[0].front.0.segments
    );
}

#[test]
fn order_preserved_by_round_trip() {
    let text = "resource: [C, A, B]\nstate: [Z, Y]\nreference: []\ntransition: []\noverlay: []\nintermediate: []";
    let f1 = Flow::from_str(text).unwrap();
    let f2 = Flow::from_str(&f1.render()).unwrap();
    let names1: Vec<_> = f1
        .resources
        .items
        .iter()
        .map(|r| r.0.segments.clone())
        .collect();
    let names2: Vec<_> = f2
        .resources
        .items
        .iter()
        .map(|r| r.0.segments.clone())
        .collect();
    assert_eq!(names1, names2);
    assert_eq!(names1[0], seg("C"));
    assert_eq!(names1[1], seg("A"));
    assert_eq!(names1[2], seg("B"));
}
