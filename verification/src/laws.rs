//! What holds of the codec as a whole, proved from the definitions in
//! [`crate::de`] and [`crate::ser`].

use crate::budget::{cut, lemma_value_accounts, used};
use crate::de::{
    after_message, body_state, decode_message, scalar_width, unsupported, ReadState, Step,
};
use crate::error::Error;
use crate::value::{Shape, ValueView};
use crate::wire::le_value;
use vstd::prelude::*;

verus! {

/// A shape that the format does not have fails with its own error whatever
/// the bytes and the budget are, and nothing is read.
pub proof fn lemma_unsupported_shape(state: ReadState, shape: Shape)
    requires
        unsupported(shape) is Some,
    ensures
        state.value(shape) == (Step {
            result: Err::<ValueView, Error>(unsupported(shape)->0),
            state: state,
        }),
{
}

/// A message that asks for a shape which the format does not have fails
/// with the error of that shape, whatever follows its length prefix.
pub proof fn lemma_unsupported_message(bytes: Seq<u8>, shape: Shape)
    requires
        unsupported(shape) is Some,
        bytes.len() >= 4,
    ensures
        decode_message(bytes, shape) == Err::<ValueView, Error>(unsupported(shape)->0),
{
}

/// A scalar that is wider than the budget fails with `Overflow` before any
/// byte is read: the state is as it was.
pub proof fn lemma_scalar_overflow(state: ReadState, shape: Shape)
    requires
        scalar_width(shape) > state.budget,
    ensures
        state.value(shape) == (Step {
            result: Err::<ValueView, Error>(Error::Overflow),
            state: state,
        }),
{
}

/// A length prefix that declares more bytes than the budget still permits
/// fails with `Overflow`. The four bytes of the prefix are read, and none of
/// the bytes after it.
pub proof fn lemma_length_overflow(state: ReadState)
    requires
        state.budget >= 4,
        state.source.len() >= 4,
        le_value(state.source.subrange(0, 4)) > state.budget - 4,
    ensures
        state.bytes() == (Step {
            result: Err::<Seq<u8>, Error>(Error::Overflow),
            state: ReadState {
                source: state.source.subrange(4, state.source.len() as int),
                budget: (state.budget - 4) as nat,
            },
        }),
        state.text().result == Err::<Seq<char>, Error>(Error::Overflow),
        state.text().state == state.bytes().state,
        state.value(Shape::Bytes).result == Err::<ValueView, Error>(Error::Overflow),
        state.value(Shape::Text).result == Err::<ValueView, Error>(Error::Overflow),
{
}

/// A message whose value is read without using up the declared length
/// fails with `Underflow`.
pub proof fn lemma_underflow(bytes: Seq<u8>, shape: Shape)
    requires
        bytes.len() >= 4,
        body_state(bytes).value(shape).result is Ok,
        body_state(bytes).value(shape).state.budget > 0,
    ensures
        decode_message(bytes, shape) == Err::<ValueView, Error>(Error::Underflow),
{
}

/// A message that decodes holds all the bytes that its length prefix
/// declares: where the source has fewer, the message fails.
pub proof fn lemma_message_needs_its_length(bytes: Seq<u8>, shape: Shape)
    requires
        decode_message(bytes, shape) is Ok,
    ensures
        bytes.len() >= 4 + le_value(bytes.subrange(0, 4)),
{
    let state = body_state(bytes);
    lemma_value_accounts(state, shape, 0);
}

/// After a message that decodes, what is left of the source is what follows
/// the message: the next message, where there is one.
pub proof fn lemma_after_message(bytes: Seq<u8>, shape: Shape)
    requires
        decode_message(bytes, shape) is Ok,
    ensures
        4 + le_value(bytes.subrange(0, 4)) <= bytes.len(),
        after_message(bytes, shape) == bytes.subrange(
            4 + le_value(bytes.subrange(0, 4)) as int,
            bytes.len() as int,
        ),
{
    let state = body_state(bytes);
    let length = le_value(bytes.subrange(0, 4)) as int;
    lemma_value_accounts(state, shape, 0);
    assert(state.source.subrange(length, state.source.len() as int) =~= bytes.subrange(
        4 + length,
        bytes.len() as int,
    ));
}

/// A message that decodes fails with `EndOfBuffer` where it is cut short:
/// where the source ends before the last byte that the length prefix
/// declares.
pub proof fn lemma_truncated_message(bytes: Seq<u8>, shape: Shape, keep: int)
    requires
        decode_message(bytes, shape) is Ok,
        0 <= keep < 4 + le_value(bytes.subrange(0, 4)),
    ensures
        keep <= bytes.len(),
        decode_message(bytes.subrange(0, keep), shape) == Err::<ValueView, Error>(
            Error::EndOfBuffer,
        ),
{
    lemma_message_needs_its_length(bytes, shape);
    let short = bytes.subrange(0, keep);
    if keep >= 4 {
        let state = body_state(bytes);
        lemma_value_accounts(state, shape, keep - 4);
        assert(short.subrange(0, 4) =~= bytes.subrange(0, 4));
        assert(short.subrange(4, keep) =~= state.source.subrange(0, keep - 4));
        assert(body_state(short) == cut(state, keep - 4));
    }
}

/// The values of a sequence of scalars take as many bytes as their number
/// times the width of one.
pub proof fn lemma_scalar_elements_used(state: ReadState, shape: Shape, count: nat)
    requires
        scalar_width(shape) > 0,
        state.elements(shape, count).result is Ok,
    ensures
        used(state, state.elements(shape, count)) == count * scalar_width(shape),
        state.budget - state.elements(shape, count).state.budget == count * scalar_width(shape),
    decreases count,
{
    let width = scalar_width(shape);
    if count > 0 {
        let first = state.value(shape);
        lemma_value_accounts(state, shape, 0);
        crate::budget::lemma_unsigned_accounts(state, width, 0);
        crate::budget::lemma_signed_accounts(state, width, 0);
        lemma_scalar_elements_used(first.state, shape, (count - 1) as nat);
        assert((count - 1) * width + width == count * width) by (nonlinear_arith);
    } else {
        assert(0 * width == 0) by (nonlinear_arith);
    }
}

/// A message that holds a sequence of scalars fails unless its length is
/// that of the count and of as many scalars as the count says.
pub proof fn lemma_sequence_count_must_match(bytes: Seq<u8>, element: Shape)
    requires
        scalar_width(element) > 0,
        bytes.len() >= 8,
        le_value(bytes.subrange(0, 4)) != 4 + le_value(bytes.subrange(4, 8)) * scalar_width(
            element,
        ),
    ensures
        decode_message(bytes, Shape::Sequence(Box::new(element))) is Err,
{
    let state = body_state(bytes);
    let prefix = state.unsigned(4);
    assert(state.source.subrange(0, 4) =~= bytes.subrange(4, 8));
    if let Ok(count) = prefix.result {
        if prefix.state.elements(element, count).result is Ok {
            lemma_scalar_elements_used(prefix.state, element, count);
        }
    }
}

} // verus!
