use sbv2_core::{select_style_row, Error, TTSIdent, TTSModelHolder};

fn holder() -> TTSModelHolder<(), u32> {
    TTSModelHolder::new(())
}

#[test]
fn new_registry_lists_nothing() {
    let h = holder();
    assert!(h.models().is_empty());
}

#[test]
fn load_then_list_contains_identifier_once() {
    let mut h = holder();
    let r: Result<(), String> = h.load(TTSIdent::new("A"), || Ok(1));
    assert!(r.is_ok());
    assert_eq!(h.models(), vec!["A".to_string()]);
}

#[test]
fn load_twice_keeps_first_model() {
    let mut h = holder();
    let r: Result<(), String> = h.load(TTSIdent::new("A"), || Ok(1));
    assert!(r.is_ok());
    let mut called = false;
    let r: Result<(), String> = h.load(TTSIdent::new("A"), || {
        called = true;
        Ok(2)
    });
    assert!(r.is_ok());
    assert!(!called);
    assert_eq!(h.models(), vec!["A".to_string()]);
    assert_eq!(*h.find_model(&TTSIdent::new("A")).unwrap().resources(), 1);
}

#[test]
fn failed_load_adds_nothing() {
    let mut h = holder();
    let r: Result<(), String> = h.load(TTSIdent::new("A"), || Err("bad weights".to_string()));
    assert_eq!(r, Err("bad weights".to_string()));
    assert!(h.models().is_empty());
    assert!(!h.contains(&TTSIdent::new("A")));
}

#[test]
fn models_keep_load_order() {
    let mut h = holder();
    for (name, v) in [("b", 1), ("a", 2), ("c", 3)] {
        let r: Result<(), String> = h.load(TTSIdent::new(name), || Ok(v));
        assert!(r.is_ok());
    }
    assert_eq!(h.models(), vec!["b".to_string(), "a".to_string(), "c".to_string()]);
}

#[test]
fn identifiers_are_case_and_space_sensitive() {
    let mut h = holder();
    let r: Result<(), String> = h.load(TTSIdent::new("A"), || Ok(1));
    assert!(r.is_ok());
    assert!(!h.contains(&TTSIdent::new("a")));
    assert!(!h.contains(&TTSIdent::new("A ")));
    let r: Result<(), String> = h.load(TTSIdent::from("a".to_string()), || Ok(2));
    assert!(r.is_ok());
    assert_eq!(h.models().len(), 2);
}

#[test]
fn unload_present_removes_one_entry() {
    let mut h = holder();
    for (name, v) in [("x", 1), ("y", 2), ("z", 3)] {
        let r: Result<(), String> = h.load(TTSIdent::new(name), || Ok(v));
        assert!(r.is_ok());
    }
    assert!(h.unload(&TTSIdent::new("y")));
    assert_eq!(h.models(), vec!["x".to_string(), "z".to_string()]);
    assert!(!h.unload(&TTSIdent::new("y")));
}

#[test]
fn unload_absent_leaves_registry_unchanged() {
    let mut h = holder();
    let r: Result<(), String> = h.load(TTSIdent::new("A"), || Ok(1));
    assert!(r.is_ok());
    assert!(!h.unload(&TTSIdent::new("B")));
    assert_eq!(h.models(), vec!["A".to_string()]);
}

#[test]
fn find_model_of_unknown_identifier_is_not_found() {
    let h = holder();
    match h.find_model(&TTSIdent::new("nobody")) {
        Err(Error::ModelNotFoundError(s)) => assert_eq!(s, "nobody"),
        _ => panic!("expected a not-found error"),
    }
}

#[test]
fn find_model_returns_the_loaded_resources() {
    let mut h = holder();
    let r: Result<(), String> = h.load(TTSIdent::new("A"), || Ok(7));
    assert!(r.is_ok());
    let m = h.find_model(&TTSIdent::new("A")).unwrap();
    assert_eq!(m.ident().as_str(), "A");
    assert_eq!(*m.resources(), 7);
}

#[test]
fn synthesis_model_of_unknown_identifier_is_not_found() {
    let h = holder();
    match h.synthesis_model(&TTSIdent::new("A"), 3, 5) {
        Err(Error::ModelNotFoundError(s)) => assert_eq!(s, "A"),
        _ => panic!("expected a not-found error"),
    }
}

#[test]
fn synthesis_model_checks_feature_rows() {
    let mut h = holder();
    let r: Result<(), String> = h.load(TTSIdent::new("A"), || Ok(4));
    assert!(r.is_ok());
    match h.synthesis_model(&TTSIdent::new("A"), 3, 5) {
        Err(e) => assert_eq!(e, Error::FeatureLengthMismatch { feature_rows: 3, phones: 5 }),
        Ok(_) => panic!("expected a length mismatch"),
    }
    assert_eq!(*h.synthesis_model(&TTSIdent::new("A"), 5, 5).unwrap().resources(), 4);
}

#[test]
fn style_row_in_range() {
    assert_eq!(select_style_row(3, 0), Ok(0));
    assert_eq!(select_style_row(3, 2), Ok(2));
}

#[test]
fn style_row_out_of_range() {
    assert_eq!(
        select_style_row(3, 3),
        Err(Error::StyleIndexOutOfRange { style_id: 3, rows: 3 })
    );
    assert_eq!(
        select_style_row(3, -1),
        Err(Error::StyleIndexOutOfRange { style_id: -1, rows: 3 })
    );
    assert_eq!(
        select_style_row(0, 0),
        Err(Error::StyleIndexOutOfRange { style_id: 0, rows: 0 })
    );
}

#[test]
fn ident_round_trips_its_text() {
    let id = TTSIdent::new("voice-1");
    assert_eq!(id.to_string(), "voice-1");
    assert_eq!(id.copy(), id);
    assert_eq!(TTSIdent::from("voice-1".to_string()), id);
    assert_ne!(TTSIdent::new("voice-2"), id);
}

#[test]
fn engine_is_kept() {
    let h: TTSModelHolder<&str, u32> = TTSModelHolder::new("engine");
    assert_eq!(*h.engine(), "engine");
}
