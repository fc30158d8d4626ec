//! How many inputs and parameters a combination takes.

use vstd::prelude::*;

use crate::error::{ErrorView, FastNoiseError, FastNoiseResult, invalid_spec};
use crate::model::BufferSlot;
use crate::noise::{CombineOp, F32Bits};
use crate::text::{append_decimal, decimal};

verus! {

/// The name of an operation.
pub open spec fn op_name(op: CombineOp) -> Seq<char> {
    match op {
        CombineOp::Add => "Add"@,
        CombineOp::Sub => "Sub"@,
        CombineOp::Mul => "Mul"@,
        CombineOp::Min => "Min"@,
        CombineOp::Max => "Max"@,
        CombineOp::Clamp => "Clamp"@,
        CombineOp::Remap => "Remap"@,
        CombineOp::YGradient => "YGradient"@,
    }
}

/// How many inputs an operation takes.
pub open spec fn input_arity(op: CombineOp) -> nat {
    match op {
        CombineOp::Clamp | CombineOp::Remap | CombineOp::YGradient => 1,
        _ => 2,
    }
}

/// How many parameters an operation takes.
pub open spec fn param_arity(op: CombineOp) -> nat {
    match op {
        CombineOp::Clamp => 2,
        CombineOp::Remap | CombineOp::YGradient => 4,
        _ => 0,
    }
}

/// The refusal of a wrong number of `what`.
pub open spec fn wrong_count(op: CombineOp, expected: nat, what: Seq<char>, got: nat) -> ErrorView {
    ErrorView::InvalidSpec(
        "combine op "@ + op_name(op) + " expects "@ + decimal(expected) + what + decimal(got),
    )
}

/// What is wrong with the numbers of inputs and parameters of an operation, if
/// anything is; the inputs come first.
pub open spec fn arity_refusal(op: CombineOp, inputs: nat, params: nat) -> Option<ErrorView> {
    if inputs != input_arity(op) {
        Some(wrong_count(op, input_arity(op), " inputs, got "@, inputs))
    } else if params != param_arity(op) {
        Some(wrong_count(op, param_arity(op), " parameters, got "@, params))
    } else {
        None
    }
}

fn op_text(op: CombineOp) -> (text: &'static str)
    ensures
        text@ == op_name(op),
{
    match op {
        CombineOp::Add => "Add",
        CombineOp::Sub => "Sub",
        CombineOp::Mul => "Mul",
        CombineOp::Min => "Min",
        CombineOp::Max => "Max",
        CombineOp::Clamp => "Clamp",
        CombineOp::Remap => "Remap",
        CombineOp::YGradient => "YGradient",
    }
}

fn refuse_count(op: CombineOp, expected: usize, what: &str, got: usize) -> (error: FastNoiseError)
    ensures
        error@ == wrong_count(op, expected as nat, what@, got as nat),
{
    let mut text = "combine op ".to_owned();
    text.append(op_text(op));
    text.append(" expects ");
    append_decimal(&mut text, expected as u64);
    text.append(what);
    append_decimal(&mut text, got as u64);
    FastNoiseError::InvalidSpec(text)
}

/// Checks the numbers of inputs and parameters of an operation.
pub fn validate_combine_contract(op: CombineOp, input_count: usize, param_count: usize) -> (valid:
    FastNoiseResult<()>)
    ensures
        match arity_refusal(op, input_count as nat, param_count as nat) {
            None => valid is Ok,
            Some(refusal) => valid is Err && valid->Err_0@ == refusal,
        },
{
    let (expected_inputs, expected_params): (usize, usize) = match op {
        CombineOp::Add | CombineOp::Sub | CombineOp::Mul | CombineOp::Min | CombineOp::Max => (
            2,
            0,
        ),
        CombineOp::Clamp => (1, 2),
        CombineOp::Remap | CombineOp::YGradient => (1, 4),
    };
    if input_count != expected_inputs {
        return Err(refuse_count(op, expected_inputs, " inputs, got ", input_count));
    }
    if param_count != expected_params {
        return Err(refuse_count(op, expected_params, " parameters, got ", param_count));
    }
    Ok(())
}

/// What is wrong with the number of inputs of an operation that takes two.
pub open spec fn two_inputs_refusal(count: nat) -> Option<ErrorView> {
    if count == 0 {
        Some(ErrorView::InvalidSpec("combine op expects 2 inputs, but got none"@))
    } else if count == 1 {
        Some(ErrorView::InvalidSpec("combine op expects 2 inputs, but got only 1"@))
    } else if count > 2 {
        Some(ErrorView::InvalidSpec("combine op expects 2 inputs, but got more than 2"@))
    } else {
        None
    }
}

/// What is wrong with the number of inputs of an operation that takes one.
pub open spec fn one_input_refusal(count: nat) -> Option<ErrorView> {
    if count == 0 {
        Some(ErrorView::InvalidSpec("combine op expects 1 input, but got none"@))
    } else if count > 1 {
        Some(ErrorView::InvalidSpec("combine op expects 1 input, but got more than 1"@))
    } else {
        None
    }
}

/// The two inputs of an operation that takes two.
pub fn expect_two_inputs(inputs: &[BufferSlot]) -> (slots: FastNoiseResult<(BufferSlot, BufferSlot)>)
    ensures
        match slots {
            Ok((left, right)) => inputs@ == seq![left, right],
            Err(error) => two_inputs_refusal(inputs@.len()) == Some(error@),
        },
{
    if inputs.len() == 0 {
        return Err(invalid_spec("combine op expects 2 inputs, but got none"));
    }
    if inputs.len() == 1 {
        return Err(invalid_spec("combine op expects 2 inputs, but got only 1"));
    }
    if inputs.len() > 2 {
        return Err(invalid_spec("combine op expects 2 inputs, but got more than 2"));
    }
    assert(inputs@ =~= seq![inputs@[0], inputs@[1]]);
    Ok((inputs[0], inputs[1]))
}

/// The input of an operation that takes one.
pub fn expect_input(inputs: &[BufferSlot]) -> (slot: FastNoiseResult<BufferSlot>)
    ensures
        match slot {
            Ok(input) => inputs@ == seq![input],
            Err(error) => one_input_refusal(inputs@.len()) == Some(error@),
        },
{
    if inputs.len() == 0 {
        return Err(invalid_spec("combine op expects 1 input, but got none"));
    }
    if inputs.len() > 1 {
        return Err(invalid_spec("combine op expects 1 input, but got more than 1"));
    }
    assert(inputs@ =~= seq![inputs@[0]]);
    Ok(inputs[0])
}

/// The parameters of an operation that takes `N` of them.
pub fn expect_params<const N: usize>(params: &[F32Bits], op: CombineOp) -> (values: FastNoiseResult<
    [F32Bits; N],
>)
    ensures
        match values {
            Ok(values) => values@ == params@,
            Err(error) => {
                &&& params@.len() != N
                &&& error@ == wrong_count(
                    op,
                    N as nat,
                    " parameters, got "@,
                    params@.len(),
                )
            },
        },
{
    if params.len() != N {
        return Err(refuse_count(op, N, " parameters, got ", params.len()));
    }
    let mut out = [F32Bits(0); N];
    let mut i: usize = 0;
    while i < N
        invariant
            i <= N,
            params@.len() == N,
            forall|j: int| 0 <= j < i ==> #[trigger] out@[j] == params@[j],
        decreases N - i,
    {
        out[i] = params[i];
        i += 1;
    }
    assert(out@ =~= params@);
    Ok(out)
}

/// Operations on two fields take two inputs and no parameters; a clamp takes one
/// input and two parameters, a remap and a gradient one input and four. Any other
/// numbers are refused.
pub proof fn law_arities(op: CombineOp, inputs: nat, params: nat)
    ensures
        arity_refusal(op, inputs, params) is None <==> match op {
            CombineOp::Add | CombineOp::Sub | CombineOp::Mul | CombineOp::Min | CombineOp::Max => {
                inputs == 2 && params == 0
            },
            CombineOp::Clamp => inputs == 1 && params == 2,
            CombineOp::Remap | CombineOp::YGradient => inputs == 1 && params == 4,
        },
        arity_refusal(op, inputs, params) matches Some(error) ==> error is InvalidSpec,
        two_inputs_refusal(inputs) is None <==> inputs == 2,
        one_input_refusal(inputs) is None <==> inputs == 1,
{
}

/// Operations are named as they are written.
pub proof fn law_operations_are_named()
    ensures
        op_name(CombineOp::Add) == "Add"@,
        op_name(CombineOp::Sub) == "Sub"@,
        op_name(CombineOp::Mul) == "Mul"@,
        op_name(CombineOp::Min) == "Min"@,
        op_name(CombineOp::Max) == "Max"@,
        op_name(CombineOp::Clamp) == "Clamp"@,
        op_name(CombineOp::Remap) == "Remap"@,
        op_name(CombineOp::YGradient) == "YGradient"@,
{
}

/// What is told of a wrong number of inputs or parameters is the operation, the
/// number that it takes and the number that it got; of the two, a wrong number of
/// inputs is told first.
pub proof fn law_wrong_numbers_are_told(op: CombineOp, inputs: nat, params: nat)
    ensures
        ({
            let (takes_inputs, takes_params): (nat, nat) = match op {
                CombineOp::Add | CombineOp::Sub | CombineOp::Mul | CombineOp::Min | CombineOp::Max => {
                    (2, 0)
                },
                CombineOp::Clamp => (1, 2),
                CombineOp::Remap | CombineOp::YGradient => (1, 4),
            };
            &&& inputs != takes_inputs ==> arity_refusal(op, inputs, params) == Some(
                ErrorView::InvalidSpec(
                    "combine op "@ + op_name(op) + " expects "@ + decimal(takes_inputs)
                        + " inputs, got "@ + decimal(inputs),
                ),
            )
            &&& inputs == takes_inputs && params != takes_params ==> arity_refusal(
                op,
                inputs,
                params,
            ) == Some(
                ErrorView::InvalidSpec(
                    "combine op "@ + op_name(op) + " expects "@ + decimal(takes_params)
                        + " parameters, got "@ + decimal(params),
                ),
            )
        }),
{
}

} // verus!
