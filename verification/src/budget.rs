//! How budget and source go together: a read that succeeds takes as much
//! from the one as from the other, and a source that ends too early is
//! found out as `EndOfBuffer`.

use crate::de::{scalar_width, ReadState, Step};
use crate::error::Error;
use crate::value::Shape;
use vstd::prelude::*;

verus! {

/// The number of bytes that a read has taken from the source.
pub open spec fn used<T>(state: ReadState, step: Step<T>) -> int {
    state.source.len() - step.state.source.len()
}

/// What holds of every read: it leaves the source without some bytes at its
/// front, it does not raise the budget, and where it succeeds it has lowered
/// the budget by the number of bytes that it took.
pub open spec fn accounts<T>(state: ReadState, step: Step<T>) -> bool {
    let n = used(state, step);
    &&& 0 <= n <= state.source.len()
    &&& step.state.source == state.source.subrange(n, state.source.len() as int)
    &&& step.state.budget <= state.budget
    &&& step.result is Ok ==> state.budget - step.state.budget == n
}

/// The state with a source that ends after `keep` bytes.
pub open spec fn cut(state: ReadState, keep: int) -> ReadState {
    ReadState { source: state.source.subrange(0, keep), budget: state.budget }
}

/// How a read that succeeds on the whole source goes on a source that ends
/// after `keep` bytes: as before where it needs no more than `keep` bytes,
/// and else it fails with `EndOfBuffer`.
pub open spec fn cut_agrees<T>(state: ReadState, step: Step<T>, keep: int, short: Step<T>) -> bool {
    if used(state, step) <= keep {
        short == (Step { result: step.result, state: cut(step.state, keep - used(state, step)) })
    } else {
        short.result == Err::<T, Error>(Error::EndOfBuffer)
    }
}

/// Budget and source of `take`.
pub proof fn lemma_take_accounts(state: ReadState, size: nat, keep: int)
    requires
        0 <= keep <= state.source.len(),
    ensures
        accounts(state, state.take(size)),
        state.take(size).result is Ok ==> cut_agrees(
            state,
            state.take(size),
            keep,
            cut(state, keep).take(size),
        ),
{
    let step = state.take(size);
    let short = cut(state, keep).take(size);
    let len = state.source.len() as int;
    if size > state.budget {
        assert(step.state.source =~= state.source.subrange(0, len));
    } else if size > len {
        assert(step.state.source =~= state.source.subrange(0, len));
    } else {
        if size <= keep {
            assert(state.source.subrange(0, keep).subrange(0, size as int)
                =~= state.source.subrange(0, size as int));
            assert(state.source.subrange(0, keep).subrange(size as int, keep)
                =~= state.source.subrange(size as int, len).subrange(0, keep - size));
        }
    }
}

/// Budget and source of an unsigned number.
pub proof fn lemma_unsigned_accounts(state: ReadState, width: nat, keep: int)
    requires
        0 <= keep <= state.source.len(),
    ensures
        accounts(state, state.unsigned(width)),
        state.unsigned(width).result is Ok ==> cut_agrees(
            state,
            state.unsigned(width),
            keep,
            cut(state, keep).unsigned(width),
        ),
        state.unsigned(width).result is Ok ==> used(state, state.unsigned(width)) == width,
{
    lemma_take_accounts(state, width, keep);
}

/// Budget and source of a two's complement number.
pub proof fn lemma_signed_accounts(state: ReadState, width: nat, keep: int)
    requires
        0 <= keep <= state.source.len(),
    ensures
        accounts(state, state.signed(width)),
        state.signed(width).result is Ok ==> cut_agrees(
            state,
            state.signed(width),
            keep,
            cut(state, keep).signed(width),
        ),
        state.signed(width).result is Ok ==> used(state, state.signed(width)) == width,
{
    lemma_take_accounts(state, width, keep);
}

/// Budget and source of a byte buffer.
pub proof fn lemma_bytes_accounts(state: ReadState, keep: int)
    requires
        0 <= keep <= state.source.len(),
    ensures
        accounts(state, state.bytes()),
        state.bytes().result is Ok ==> cut_agrees(
            state,
            state.bytes(),
            keep,
            cut(state, keep).bytes(),
        ),
        state.bytes().result is Ok ==> used(state, state.bytes()) >= 4,
{
    let prefix = state.unsigned(4);
    lemma_unsigned_accounts(state, 4, keep);
    if let Ok(length) = prefix.result {
        let len = state.source.len() as int;
        let next = if keep >= 4 {
            keep - 4
        } else {
            0
        };
        lemma_take_accounts(prefix.state, length, next);
        let step = prefix.state.take(length);
        let n = used(prefix.state, step);
        assert(state.source.subrange(4, len).subrange(n, len - 4) =~= state.source.subrange(
            4 + n,
            len,
        ));
        if step.result is Ok && keep >= 4 && 4 + n <= keep {
            assert(cut(step.state, next - n) == cut(step.state, keep - (4 + n)));
        }
    }
}

/// Budget and source of a text.
pub proof fn lemma_text_accounts(state: ReadState, keep: int)
    requires
        0 <= keep <= state.source.len(),
    ensures
        accounts(state, state.text()),
        state.text().result is Ok ==> cut_agrees(state, state.text(), keep, cut(state, keep).text()),
        state.text().result is Ok ==> used(state, state.text()) >= 4,
{
    lemma_bytes_accounts(state, keep);
}

/// Budget and source of a map entry.
pub proof fn lemma_entry_accounts(state: ReadState, keep: int)
    requires
        0 <= keep <= state.source.len(),
    ensures
        accounts(state, state.entry()),
        state.entry().result is Ok ==> cut_agrees(
            state,
            state.entry(),
            keep,
            cut(state, keep).entry(),
        ),
        state.entry().result is Ok ==> used(state, state.entry()) >= 4,
{
    lemma_text_accounts(state, keep);
}

/// Budget and source of the entries of a map.
pub proof fn lemma_entries_accounts(state: ReadState, keep: int)
    requires
        0 <= keep <= state.source.len(),
    ensures
        accounts(state, state.entries()),
        state.entries().result is Ok ==> cut_agrees(
            state,
            state.entries(),
            keep,
            cut(state, keep).entries(),
        ),
    decreases state.budget,
{
    let len = state.source.len() as int;
    if state.budget == 0 {
        assert(state.source.subrange(0, len) =~= state.source);
    } else {
        let first = state.entry();
        lemma_entry_accounts(state, keep);
        let n1 = used(state, first);
        if first.result is Ok {
            let next = if n1 <= keep {
                keep - n1
            } else {
                0
            };
            lemma_entries_accounts(first.state, next);
            let rest = first.state.entries();
            let n2 = used(first.state, rest);
            assert(state.source.subrange(n1, len).subrange(n2, len - n1)
                =~= state.source.subrange(n1 + n2, len));
            if rest.result is Ok && n1 <= keep && n2 <= keep - n1 {
                assert(cut(rest.state, next - n2) == cut(rest.state, keep - (n1 + n2)));
            }
        } else {
            assert(state.source.subrange(n1, len) == first.state.source);
        }
    }
}

/// Budget and source of a number of values of one shape.
pub proof fn lemma_elements_accounts(state: ReadState, shape: Shape, count: nat, keep: int)
    requires
        0 <= keep <= state.source.len(),
    ensures
        accounts(state, state.elements(shape, count)),
        state.elements(shape, count).result is Ok ==> cut_agrees(
            state,
            state.elements(shape, count),
            keep,
            cut(state, keep).elements(shape, count),
        ),
    decreases shape, 0nat, 0nat, count + 1,
{
    let len = state.source.len() as int;
    if count == 0 {
        assert(state.source.subrange(0, len) =~= state.source);
    } else {
        let first = state.value(shape);
        lemma_value_accounts(state, shape, keep);
        let n1 = used(state, first);
        if first.result is Ok {
            let next = if n1 <= keep {
                keep - n1
            } else {
                0
            };
            lemma_elements_accounts(first.state, shape, (count - 1) as nat, next);
            let rest = first.state.elements(shape, (count - 1) as nat);
            let n2 = used(first.state, rest);
            assert(state.source.subrange(n1, len).subrange(n2, len - n1)
                =~= state.source.subrange(n1 + n2, len));
            if rest.result is Ok && n1 <= keep && n2 <= keep - n1 {
                assert(cut(rest.state, next - n2) == cut(rest.state, keep - (n1 + n2)));
            }
        }
    }
}

/// Budget and source of a sequence: a count and its values.
pub proof fn lemma_sequence_accounts(state: ReadState, shape: Shape, keep: int)
    requires
        0 <= keep <= state.source.len(),
    ensures
        accounts(state, state.sequence(shape)),
        state.sequence(shape).result is Ok ==> cut_agrees(
            state,
            state.sequence(shape),
            keep,
            cut(state, keep).sequence(shape),
        ),
    decreases shape, 0nat, 1nat,
{
    let len = state.source.len() as int;
    let prefix = state.unsigned(4);
    lemma_unsigned_accounts(state, 4, keep);
    if let Ok(count) = prefix.result {
        let next = if keep >= 4 {
            keep - 4
        } else {
            0
        };
        lemma_elements_accounts(prefix.state, shape, count, next);
        let rest = prefix.state.elements(shape, count);
        let n2 = used(prefix.state, rest);
        assert(state.source.subrange(4, len).subrange(n2, len - 4) =~= state.source.subrange(
            4 + n2,
            len,
        ));
        if rest.result is Ok && keep >= 4 && n2 <= keep - 4 {
            assert(cut(rest.state, next - n2) == cut(rest.state, keep - (4 + n2)));
        }
    }
}

/// Budget and source of the fields of a tuple from the one at `from` on.
pub proof fn lemma_fields_accounts(state: ReadState, shapes: Seq<Shape>, from: nat, keep: int)
    requires
        0 <= keep <= state.source.len(),
    ensures
        accounts(state, state.fields(shapes, from)),
        state.fields(shapes, from).result is Ok ==> cut_agrees(
            state,
            state.fields(shapes, from),
            keep,
            cut(state, keep).fields(shapes, from),
        ),
    decreases shapes, shapes.len() - from,
{
    let len = state.source.len() as int;
    if from >= shapes.len() {
        assert(state.source.subrange(0, len) =~= state.source);
    } else {
        let first = state.value(shapes[from as int]);
        lemma_value_accounts(state, shapes[from as int], keep);
        let n1 = used(state, first);
        if first.result is Ok {
            let next = if n1 <= keep {
                keep - n1
            } else {
                0
            };
            lemma_fields_accounts(first.state, shapes, from + 1, next);
            let rest = first.state.fields(shapes, from + 1);
            let n2 = used(first.state, rest);
            assert(state.source.subrange(n1, len).subrange(n2, len - n1)
                =~= state.source.subrange(n1 + n2, len));
            if rest.result is Ok && n1 <= keep && n2 <= keep - n1 {
                assert(cut(rest.state, next - n2) == cut(rest.state, keep - (n1 + n2)));
            }
        }
    }
}

/// Budget and source of a value: every read leaves a state that
/// [`accounts`] for what it took, and a read that succeeds goes on a
/// shorter source as [`cut_agrees`] says.
pub proof fn lemma_value_accounts(state: ReadState, shape: Shape, keep: int)
    requires
        0 <= keep <= state.source.len(),
    ensures
        accounts(state, state.value(shape)),
        state.value(shape).result is Ok ==> cut_agrees(
            state,
            state.value(shape),
            keep,
            cut(state, keep).value(shape),
        ),
    decreases shape, 0nat, 0nat, 0nat,
{
    let len = state.source.len() as int;
    assert(state.source.subrange(0, len) =~= state.source);
    lemma_unsigned_accounts(state, scalar_width(shape), keep);
    lemma_signed_accounts(state, scalar_width(shape), keep);
    match shape {
        Shape::Text => lemma_text_accounts(state, keep),
        Shape::Bytes => lemma_bytes_accounts(state, keep),
        Shape::Sequence(element) => lemma_sequence_accounts(state, *element, keep),
        Shape::Tuple(shapes) => lemma_fields_accounts(state, shapes@, 0, keep),
        Shape::StringMap => lemma_entries_accounts(state, keep),
        _ => {},
    }
}

} // verus!
