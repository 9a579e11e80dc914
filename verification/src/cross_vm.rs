//! Calls from the first virtual machine into the second: the parameters of
//! a call and the code a failed call is reported with.
use vstd::prelude::*;
use crate::evm::TXExecutor;
use crate::task::StateView;

verus! {

/// The type argument of the call is no plain struct.
pub const INCORRECT_TYPE_TAG: u64 = 0x1;

/// The call failed or was reverted.
pub const EVM_CALL_REVERT: u64 = 0x2;

/// No executor of the second machine is at hand.
pub const CANNOT_CALL_EVM: u64 = 0x3;

/// What the call returned cannot be decoded.
pub const MALFORMED_OUTPUT: u64 = 0x4;

/// Gas a call may use.
pub const CALL_GAS: u128 = 10_000_000;

/// Price of a unit of gas in a call.
pub const CALL_GAS_PRICE: u128 = 1;

/// Units of the second machine in one unit of coin of the first.
pub const COIN_SCALE: u128 = 10_000_000_000;

/// Length of an address of the second machine, in bytes.
pub const ADDRESS_LENGTH: usize = 20;

/// The executor through which native code of the first machine reaches the
/// second.
pub struct CrossVMContext<'a, S: StateView> {
    pub executor: TXExecutor<'a, S>,
}

/// The parameters of one call.
#[derive(Debug)]
pub struct CrossVMParams {
    pub receiver: Vec<u8>,
    pub function_name: String,
    pub gas: u128,
    pub gas_price: u128,
    pub value: u128,
    pub evm_params: Vec<Vec<u8>>,
    pub caller_info: String,
}

/// The value a call carries: the coin, if any, in units of the second
/// machine.
pub open spec fn call_value(coin: Option<u64>) -> int {
    match coin {
        Some(c) => c * 10_000_000_000,
        None => 0,
    }
}

/// The parameters of a call to `receiver_raw`, which has to be an address of
/// 20 bytes: fixed gas and gas price, and the coin scaled to the units of
/// the second machine.
pub fn make_cross_vm_params(
    receiver_raw: Vec<u8>,
    function_name: String,
    coin: Option<u64>,
    evm_params: Vec<Vec<u8>>,
    caller_info: String,
) -> (params: Option<CrossVMParams>)
    ensures
        params is Some <==> receiver_raw@.len() == ADDRESS_LENGTH,
        params is Some ==> {
            let p = params.unwrap();
            &&& p.receiver == receiver_raw
            &&& p.function_name == function_name
            &&& p.gas == CALL_GAS
            &&& p.gas_price == CALL_GAS_PRICE
            &&& p.value == call_value(coin)
            &&& p.evm_params == evm_params
            &&& p.caller_info == caller_info
        },
{
    if receiver_raw.len() != ADDRESS_LENGTH {
        return None;
    }
    let value: u128 = match coin {
        Some(c) => {
            assert(c * 10_000_000_000 <= 0xFFFF_FFFF_FFFF_FFFF * 10_000_000_000) by (nonlinear_arith)
                requires
                    c <= 0xFFFF_FFFF_FFFF_FFFF,
            ;
            (c as u128) * COIN_SCALE
        },
        None => 0,
    };
    Some(
        CrossVMParams {
            receiver: receiver_raw,
            function_name,
            gas: CALL_GAS,
            gas_price: CALL_GAS_PRICE,
            value,
            evm_params,
            caller_info,
        },
    )
}

/// How a call into the second machine went.
#[derive(Clone, Copy, Debug, PartialEq, Eq, Structural)]
pub enum CallResult {
    /// The machine reported an error.
    Failed,
    /// The call was reverted.
    Reverted,
    /// The call returned nothing.
    ReturnedNothing,
    /// The call returned data that could be decoded.
    ReturnedData,
    /// The call returned data that could not be decoded.
    ReturnedGarbage,
}

/// The abort code for a call, `None` when the call succeeded: a wrong type
/// argument comes first, then a missing executor, then how the call went.
pub open spec fn abort_code(
    type_is_struct: bool,
    type_params: nat,
    has_executor: bool,
    result: CallResult,
) -> Option<u64> {
    if !type_is_struct || type_params != 0 {
        Some(INCORRECT_TYPE_TAG)
    } else if !has_executor {
        Some(CANNOT_CALL_EVM)
    } else {
        match result {
            CallResult::Failed => Some(EVM_CALL_REVERT),
            CallResult::Reverted => Some(EVM_CALL_REVERT),
            CallResult::ReturnedGarbage => Some(MALFORMED_OUTPUT),
            _ => None,
        }
    }
}

/// The abort code that a native call ends with, if it fails.
pub fn native_call_abort_code(
    type_is_struct: bool,
    type_params: usize,
    has_executor: bool,
    result: CallResult,
) -> (code: Option<u64>)
    ensures
        code == abort_code(type_is_struct, type_params as nat, has_executor, result),
{
    if !type_is_struct || type_params != 0 {
        return Some(INCORRECT_TYPE_TAG);
    }
    if !has_executor {
        return Some(CANNOT_CALL_EVM);
    }
    match result {
        CallResult::Failed => Some(EVM_CALL_REVERT),
        CallResult::Reverted => Some(EVM_CALL_REVERT),
        CallResult::ReturnedGarbage => Some(MALFORMED_OUTPUT),
        CallResult::ReturnedNothing => None,
        CallResult::ReturnedData => None,
    }
}

} // verus!
