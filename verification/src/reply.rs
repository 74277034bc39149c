//! Plain data carried in sequencer replies, as far as it holds no foreign
//! hash or integer types: block and transaction status, contract ABI
//! elements, execution resources and transaction kinds. The wire formats
//! live with the caller; these are the values the library's users work with.

use vstd::prelude::*;

use std::collections::HashMap;

verus! {

/// Block and transaction status values.
#[derive(Copy, Clone, Debug, PartialEq)]
pub enum Status {
    NotReceived,
    Received,
    Pending,
    Rejected,
    AcceptedOnL1,
    AcceptedOnL2,
    Reverted,
    Aborted,
}

/// Problems encountered during some call failures, keyed by calldata index.
#[derive(Clone, Debug, PartialEq)]
pub struct Problems {
    pub calldata: HashMap<u64, Vec<String>>,
}

/// One element of a contract's application interface.
#[derive(Clone, Debug, PartialEq)]
pub struct Abi {
    pub inputs: Option<Vec<Input>>,
    pub members: Option<Vec<Member>>,
    pub name: String,
    pub kind: String,
    pub size: Option<u64>,
    pub state_mutability: Option<String>,
}

/// An interface input element.
#[derive(Clone, Debug, PartialEq)]
pub struct Input {
    pub name: String,
    pub kind: String,
}

/// An interface member element.
#[derive(Clone, Debug, PartialEq)]
pub struct Member {
    pub name: String,
    pub offset: u64,
    pub kind: String,
}

/// An interface output element.
#[derive(Clone, Debug, PartialEq)]
pub struct Output {
    pub name: String,
    pub kind: String,
}

/// Transaction entry point kinds.
#[derive(Copy, Clone, Debug, PartialEq)]
pub enum EntryPointType {
    External,
    L1Handler,
}

/// Execution resources consumed by a transaction.
#[derive(Copy, Clone, Debug, PartialEq)]
pub struct ExecutionResources {
    pub builtin_instance_counter: BuiltinInstanceCounter,
    pub n_steps: u64,
    pub n_memory_holes: u64,
}

/// Builtin instance counts; sometimes reported as an empty object.
#[derive(Copy, Clone, Debug, PartialEq)]
pub enum BuiltinInstanceCounter {
    Normal(NormalBuiltinInstanceCounter),
    Empty(EmptyBuiltinInstanceCounter),
}

#[derive(Copy, Clone, Debug, PartialEq)]
pub struct NormalBuiltinInstanceCounter {
    pub bitwise_builtin: u64,
    pub ecdsa_builtin: u64,
    pub ec_op_builtin: u64,
    pub output_builtin: u64,
    pub pedersen_builtin: u64,
    pub range_check_builtin: u64,
}

#[derive(Copy, Clone, Debug, PartialEq)]
pub struct EmptyBuiltinInstanceCounter {}

/// Transaction kinds.
#[derive(Copy, Clone, Debug, PartialEq)]
pub enum Type {
    Deploy,
    InvokeFunction,
}

} // verus!
