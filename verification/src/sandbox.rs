//! The sandbox adapter: the only component that talks to the opaque
//! execution capability.
//!
//! A strain handle is created fresh for one battle and consumed with it; no
//! state leaks between two handles. An invocation hands the strain its turn
//! input in the wire format and converts the reply back; any failure (load,
//! call or decode) is reported as a `SandboxError`, which the scheduler
//! absorbs as a skipped turn. Besides sandboxed wasm code, a handle can be
//! a scripted move list, an always-failing stub, or one of the built-in
//! strategies — these run the same battle path without the sandbox.

use vstd::prelude::*;

use crate::StrainInput;
use crate::errors::SandboxError;
use crate::strategy;
use crate::strategy::{is_first_nearest, is_last_farthest};
use crate::wire::{encode_strain_input, parse_coord};

verus! {

#[verifier::external_type_specification]
#[verifier::external_body]
pub struct ExPlugin(extism::Plugin);

#[verifier::external_type_specification]
#[verifier::external_body]
pub struct ExError(extism::Error);

/// Relies on extism::Plugin::new: instantiate a wasm module from its bytes
/// (with WASI enabled), or report why it could not be instantiated.
#[verifier::external_body]
fn plugin_new(wasm: &Vec<u8>) -> (r: Result<extism::Plugin, extism::Error>) {
    let manifest = extism::Manifest::new([extism::Wasm::data(wasm.clone())]);
    extism::Plugin::new(&manifest, [], true)
}

/// Relies on extism::Plugin::call: invoke the named export of the plugin
/// with the given input bytes and return the bytes it produced, or the
/// error the invocation raised. Nothing is promised of the bytes: the
/// plugin runs arbitrary untrusted code.
#[verifier::external_body]
fn plugin_call(plugin: &mut extism::Plugin, name: &str, input: &Vec<u8>) -> (r: Result<
    Vec<u8>,
    extism::Error,
>) {
    plugin.call::<&[u8], Vec<u8>>(name, input.as_slice())
}

/// Relies on uuid::Uuid::new_v4: a freshly generated random identifier.
/// Nothing is promised of the value.
#[verifier::external_body]
pub(crate) fn fresh_battle_id() -> (r: u128) {
    uuid::Uuid::new_v4().as_u128()
}

/// A built-in deterministic strategy a handle can play.
#[derive(Clone, Copy, Debug, PartialEq, Eq, Structural)]
pub enum BuiltinStrategy {
    /// The first allowed move.
    FirstChoice,
    /// The allowed move closest to the view origin.
    Fill,
    /// The allowed move farthest from the view origin.
    FillReverse,
    /// The allowed move from which the far corner of the view is reachable
    /// through empty cells, or the one whose search came closest.
    Pathfinding,
}

/// One strain of a battle: sandboxed code or a built-in stand-in. A handle
/// is scoped to a single battle and consumed with it.
pub enum StrainHandle {
    /// Untrusted code executed by the sandbox capability.
    Wasm(extism::Plugin),
    /// A fixed list of view coordinates, played in order; once the script
    /// is exhausted every further invocation fails.
    Scripted { moves: Vec<(i32, i32)>, next: usize },
    /// Every invocation fails.
    Failing,
    /// A built-in strategy, computed without any sandbox call.
    Strategy(BuiltinStrategy),
}

/// Load a strain's executable payload into a fresh sandbox handle for one
/// battle. Fails with `LoadFailure` when the capability cannot instantiate
/// the code.
pub fn load_strain(wasm: &Vec<u8>) -> (r: Result<StrainHandle, SandboxError>)
    ensures
        r is Ok ==> r.unwrap() is Wasm,
        r is Err ==> r == Err::<StrainHandle, SandboxError>(SandboxError::LoadFailure),
{
    match plugin_new(wasm) {
        Ok(p) => Ok(StrainHandle::Wasm(p)),
        Err(_) => Err(SandboxError::LoadFailure),
    }
}

/// Invoke a strain for one move slot with its turn input, and return the
/// view coordinate it answered or the failure that stood in its place. The
/// adapter performs no legality checking: a syntactically valid coordinate
/// is returned as is and judged by the scheduler.
pub fn invoke(handle: &mut StrainHandle, input: &StrainInput) -> (r: Result<
    (i32, i32),
    SandboxError,
>)
    ensures
        ({
            let post = *final(handle);
            match *old(handle) {
                StrainHandle::Wasm(_) => post is Wasm && (r is Err ==> r == Err::<
                    (i32, i32),
                    SandboxError,
                >(SandboxError::CallFailure) || r == Err::<(i32, i32), SandboxError>(
                    SandboxError::MalformedResponse,
                )),
                StrainHandle::Failing => post is Failing && r == Err::<(i32, i32), SandboxError>(
                    SandboxError::CallFailure,
                ),
                StrainHandle::Scripted { moves, next } => {
                    &&& (next < moves@.len() ==> r == Ok::<(i32, i32), SandboxError>(
                        moves@[next as int],
                    ) && post == (StrainHandle::Scripted { moves, next: (next + 1) as usize }))
                    &&& (next >= moves@.len() ==> r == Err::<(i32, i32), SandboxError>(
                        SandboxError::CallFailure,
                    ) && post == (StrainHandle::Scripted { moves, next }))
                },
                StrainHandle::Strategy(s) => post == StrainHandle::Strategy(s) && (match s {
                    BuiltinStrategy::FirstChoice => (input.allowed@.len() == 0 ==> r == Err::<
                        (i32, i32),
                        SandboxError,
                    >(SandboxError::CallFailure)) && (input.allowed@.len() > 0 ==> r == Ok::<
                        (i32, i32),
                        SandboxError,
                    >(input.allowed@[0])),
                    BuiltinStrategy::Fill => (input.allowed@.len() == 0 ==> r == Err::<
                        (i32, i32),
                        SandboxError,
                    >(SandboxError::CallFailure)) && (input.allowed@.len() > 0 ==> r is Ok
                        && is_first_nearest(input.allowed@, r.unwrap())),
                    BuiltinStrategy::FillReverse => (input.allowed@.len() == 0 ==> r == Err::<
                        (i32, i32),
                        SandboxError,
                    >(SandboxError::CallFailure)) && (input.allowed@.len() > 0 ==> r is Ok
                        && is_last_farthest(input.allowed@, r.unwrap())),
                    BuiltinStrategy::Pathfinding => (input.allowed@.len() == 0
                        || input.board@.len() == 0 ==> r == Err::<(i32, i32), SandboxError>(
                        SandboxError::CallFailure,
                    )) && (input.allowed@.len() > 0 && input.board@.len() > 0 ==> r is Ok
                        && input.allowed@.contains(r.unwrap())),
                }),
            }
        }),
{
    match handle {
        StrainHandle::Wasm(p) => {
            let bytes = encode_strain_input(input);
            match plugin_call(p, "take_turn", &bytes) {
                Err(_) => Err(SandboxError::CallFailure),
                Ok(out) => match parse_coord(&out) {
                    Some(c) => Ok(c),
                    None => Err(SandboxError::MalformedResponse),
                },
            }
        },
        StrainHandle::Failing => Err(SandboxError::CallFailure),
        StrainHandle::Scripted { moves, next } => {
            if *next < moves.len() {
                let c = moves[*next];
                *next = *next + 1;
                Ok(c)
            } else {
                Err(SandboxError::CallFailure)
            }
        },
        StrainHandle::Strategy(s) => match s {
            BuiltinStrategy::FirstChoice => match strategy::first_choice(input) {
                Some(c) => Ok(c),
                None => Err(SandboxError::CallFailure),
            },
            BuiltinStrategy::Fill => match strategy::fill(input) {
                Some(c) => Ok(c),
                None => Err(SandboxError::CallFailure),
            },
            BuiltinStrategy::FillReverse => match strategy::fill_reverse(input) {
                Some(c) => Ok(c),
                None => Err(SandboxError::CallFailure),
            },
            BuiltinStrategy::Pathfinding => match strategy::pathfinding(input) {
                Some(c) => Ok(c),
                None => Err(SandboxError::CallFailure),
            },
        },
    }
}

} // verus!
