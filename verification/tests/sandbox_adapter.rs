use codestrain::errors::SandboxError;
use codestrain::{invoke, load_strain, BuiltinStrategy, StrainHandle, StrainInput};

fn tiny_view() -> StrainInput {
    StrainInput {
        board: vec![((0, 0), Some(true)), ((1, 0), None)],
        allowed: vec![(1, 0)],
    }
}

#[test]
fn loading_garbage_fails_with_load_failure() {
    let r = load_strain(&vec![1, 2, 3, 4]);
    match r {
        Err(e) => assert_eq!(e, SandboxError::LoadFailure),
        Ok(_) => panic!("garbage bytes loaded"),
    }
}

#[test]
fn module_without_the_strain_interface_is_refused_at_load() {
    // well-formed wasm (magic and version) but without the exports the
    // sandbox links against: instantiation is refused, not the call
    let empty_module: Vec<u8> = vec![0x00, 0x61, 0x73, 0x6d, 0x01, 0x00, 0x00, 0x00];
    match load_strain(&empty_module) {
        Err(e) => assert_eq!(e, SandboxError::LoadFailure),
        Ok(_) => panic!("a module without the strain interface was loaded"),
    }
}

#[test]
fn failing_handle_always_reports_call_failure() {
    let mut h = StrainHandle::Failing;
    assert_eq!(invoke(&mut h, &tiny_view()), Err(SandboxError::CallFailure));
    assert_eq!(invoke(&mut h, &tiny_view()), Err(SandboxError::CallFailure));
}

#[test]
fn scripted_handle_plays_its_moves_then_fails() {
    let mut h = StrainHandle::Scripted { moves: vec![(1, 2), (3, 4)], next: 0 };
    assert_eq!(invoke(&mut h, &tiny_view()), Ok((1, 2)));
    assert_eq!(invoke(&mut h, &tiny_view()), Ok((3, 4)));
    assert_eq!(invoke(&mut h, &tiny_view()), Err(SandboxError::CallFailure));
}

#[test]
fn strategy_handle_answers_from_the_view() {
    let mut h = StrainHandle::Strategy(BuiltinStrategy::FirstChoice);
    assert_eq!(invoke(&mut h, &tiny_view()), Ok((1, 0)));
    let empty = StrainInput { board: vec![], allowed: vec![] };
    assert_eq!(invoke(&mut h, &empty), Err(SandboxError::CallFailure));
}
