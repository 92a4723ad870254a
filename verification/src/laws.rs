//! General properties of the interpreter, stated over the mathematical
//! machine and proved once and for all. The executable interpreter inherits
//! them through its contract, which ties it to the same machine.

use vstd::prelude::*;
use crate::machine::{
    MachineState, StepResult, PickleError, le32, lossy_utf8, pair_up, run_steps, split_at_mark,
    spec_step, spec_run, stores_key, lemma_step_advances, OP_BINPUT, OP_BINGET, OP_BINUNICODE,
    OP_LONG_BINPUT, OP_PROTO, OP_SETITEMS, OP_STOP, OP_TUPLE2, OP_TUPLE3,
};
use crate::value::SpecValue;

verus! {

/// A run that reaches the terminator opcode returns the single remaining
/// stack value; a stack holding none or more than one value at that point is
/// a fatal error.
pub proof fn lemma_stop_result(input: Seq<u8>, st: MachineState)
    requires
        0 <= st.pos < input.len(),
        input[st.pos] == OP_STOP,
    ensures
        st.stack.len() == 1 ==> spec_run(input, st) == Ok::<SpecValue, PickleError>(st.stack[0]),
        st.stack.len() == 0 ==> spec_run(input, st) == Err::<SpecValue, PickleError>(
            PickleError::NoResult,
        ),
        st.stack.len() >= 2 ==> spec_run(input, st) == Err::<SpecValue, PickleError>(
            PickleError::ExtraItems,
        ),
{
}

/// Memo round trip: storing under key `k` records the value on top of the
/// stack, and reading `k` later — from any state whose memo still holds that
/// binding — pushes a value equal to it.
pub proof fn lemma_memo_round_trip(
    input1: Seq<u8>,
    put: MachineState,
    k: u8,
    input2: Seq<u8>,
    get: MachineState,
)
    requires
        0 <= put.pos,
        put.pos + 2 <= input1.len(),
        input1[put.pos] == OP_BINPUT,
        input1[put.pos + 1] == k,
        put.stack.len() > 0,
        0 <= get.pos,
        get.pos + 2 <= input2.len(),
        input2[get.pos] == OP_BINGET,
        input2[get.pos + 1] == k,
        get.memo.contains_key(k as int),
        get.memo[k as int] == spec_step(input1, put)->Next_0.memo[k as int],
    ensures
        spec_step(input1, put) is Next,
        spec_step(input1, put)->Next_0.memo[k as int] == put.stack.last(),
        spec_step(input1, put)->Next_0.stack == put.stack,
        spec_step(input2, get) is Next,
        spec_step(input2, get)->Next_0.stack == get.stack.push(put.stack.last()),
{
}

/// The memo table survives everything but a store: any step made by an
/// opcode other than the two store opcodes leaves the whole memo table
/// unchanged, so a binding read later is exactly the one stored.
pub proof fn lemma_memo_preserved(input: Seq<u8>, st: MachineState)
    requires
        spec_step(input, st) is Next,
        0 <= st.pos < input.len(),
        input[st.pos] != OP_BINPUT,
        input[st.pos] != OP_LONG_BINPUT,
    ensures
        spec_step(input, st)->Next_0.memo == st.memo,
{
}

/// A continuing step whose opcode does not store under key `k` leaves the
/// binding at `k` exactly as it was, including a store under another key.
pub proof fn lemma_step_preserves_binding(input: Seq<u8>, st: MachineState, k: int)
    requires
        spec_step(input, st) is Next,
        !stores_key(input, st, k),
    ensures
        spec_step(input, st)->Next_0.memo.contains_key(k) == st.memo.contains_key(k),
        st.memo.contains_key(k) ==> spec_step(input, st)->Next_0.memo[k] == st.memo[k],
{
}

/// A memo binding survives any number of continuing steps, none of which
/// stores under its key; the cursor only moves forward meanwhile.
pub proof fn lemma_binding_survives_run(input: Seq<u8>, st: MachineState, k: int, n: nat)
    requires
        st.memo.contains_key(k),
        run_steps(input, st, n) is Some,
        forall|m: nat| m < n ==> !stores_key(
            input,
            (#[trigger] run_steps(input, st, m))->Some_0,
            k,
        ),
    ensures
        run_steps(input, st, n)->Some_0.memo.contains_key(k),
        run_steps(input, st, n)->Some_0.memo[k] == st.memo[k],
        run_steps(input, st, n)->Some_0.pos >= st.pos,
    decreases n,
{
    if n > 0 {
        let st1 = spec_step(input, st)->Next_0;
        assert(run_steps(input, st, 0) == Some(st));
        assert(!stores_key(input, st, k));
        lemma_step_preserves_binding(input, st, k);
        lemma_step_advances(input, st);
        assert forall|m: nat| m < (n - 1) as nat implies !stores_key(
            input,
            (#[trigger] run_steps(input, st1, m))->Some_0,
            k,
        ) by {
            assert(run_steps(input, st, (m + 1) as nat) == run_steps(input, st1, m));
            assert(!stores_key(input, run_steps(input, st, (m + 1) as nat)->Some_0, k));
        }
        lemma_binding_survives_run(input, st1, k, (n - 1) as nat);
    }
}

/// Memo round trip over a whole run: a store records the value on top of the
/// stack, and after any number of continuing steps that never store under
/// the same key again, the read of that key pushes a value equal to the one
/// stored.
pub proof fn lemma_memo_round_trip_over_run(input: Seq<u8>, put: MachineState, k: u8, n: nat)
    requires
        0 <= put.pos,
        put.pos + 2 <= input.len(),
        input[put.pos] == OP_BINPUT,
        input[put.pos + 1] == k,
        put.stack.len() > 0,
        run_steps(input, spec_step(input, put)->Next_0, n) is Some,
        forall|m: nat| m < n ==> !stores_key(
            input,
            (#[trigger] run_steps(input, spec_step(input, put)->Next_0, m))->Some_0,
            k as int,
        ),
        ({
            let get = run_steps(input, spec_step(input, put)->Next_0, n)->Some_0;
            &&& get.pos + 2 <= input.len()
            &&& input[get.pos] == OP_BINGET
            &&& input[get.pos + 1] == k
        }),
    ensures
        spec_step(input, put) is Next,
        ({
            let get = run_steps(input, spec_step(input, put)->Next_0, n)->Some_0;
            &&& spec_step(input, get) is Next
            &&& spec_step(input, get)->Next_0.stack == get.stack.push(put.stack.last())
        }),
{
    let st1 = spec_step(input, put)->Next_0;
    assert(st1.memo.contains_key(k as int) && st1.memo[k as int] == put.stack.last());
    lemma_binding_survives_run(input, st1, k as int, n);
}

/// Appending entries preserves pairing and order: with a delimiter and the
/// values `k1, v1, k2, v2` above a dictionary, the step appends exactly
/// `[(k1, v1), (k2, v2)]`, in that order, after the existing entries.
pub proof fn lemma_setitems_appends_in_order(
    input: Seq<u8>,
    st: MachineState,
    base: Seq<SpecValue>,
    entries: Seq<(SpecValue, SpecValue)>,
    k1: SpecValue,
    v1: SpecValue,
    k2: SpecValue,
    v2: SpecValue,
)
    requires
        0 <= st.pos < input.len(),
        input[st.pos] == OP_SETITEMS,
        st.stack == base.push(SpecValue::Dict(entries)).push(SpecValue::Mark).push(k1).push(
            v1,
        ).push(k2).push(v2),
        !(k1 is Mark),
        !(v1 is Mark),
        !(k2 is Mark),
        !(v2 is Mark),
    ensures
        spec_step(input, st) == StepResult::Next(MachineState {
            stack: base.push(SpecValue::Dict(entries + seq![(k1, v1), (k2, v2)])),
            memo: st.memo,
            pos: st.pos + 1,
        }),
{
    let s1 = base.push(SpecValue::Dict(entries));
    let s2 = s1.push(SpecValue::Mark);
    let s3 = s2.push(k1);
    let s4 = s3.push(v1);
    let s5 = s4.push(k2);
    let s6 = s5.push(v2);
    assert(s6.drop_last() =~= s5);
    assert(s5.drop_last() =~= s4);
    assert(s4.drop_last() =~= s3);
    assert(s3.drop_last() =~= s2);
    assert(s2.drop_last() =~= s1);
    assert(s2.last() == SpecValue::Mark);
    assert(s2.len() > 0);
    assert(split_at_mark(s2) == Some((s2.drop_last(), Seq::<SpecValue>::empty())));
    assert(split_at_mark(s2) == Some((s1, Seq::<SpecValue>::empty())));
    assert(split_at_mark(s3) == Some((s1, Seq::<SpecValue>::empty().push(k1))));
    assert(split_at_mark(s4) == Some((s1, Seq::<SpecValue>::empty().push(k1).push(v1))));
    assert(split_at_mark(s5) == Some((
        s1,
        Seq::<SpecValue>::empty().push(k1).push(v1).push(k2),
    )));
    assert(split_at_mark(s6) == Some((
        s1,
        Seq::<SpecValue>::empty().push(k1).push(v1).push(k2).push(v2),
    )));
    let items = seq![k1, v1, k2, v2];
    assert(Seq::<SpecValue>::empty().push(k1).push(v1).push(k2).push(v2) =~= items);
    assert(items.subrange(2, 4) =~= seq![k2, v2]);
    assert(seq![k2, v2].subrange(2, 2) =~= Seq::<SpecValue>::empty());
    assert(pair_up(seq![k2, v2].subrange(2, 2)) =~= Seq::<(SpecValue, SpecValue)>::empty());
    assert(pair_up(seq![k2, v2]) =~= seq![(k2, v2)]);
    assert(pair_up(items) =~= seq![(k1, v1), (k2, v2)]);
    assert(s1.last() == SpecValue::Dict(entries));
    assert(s1.drop_last() =~= base);
    assert(spec_step(input, st)->Next_0.stack =~= base.push(SpecValue::Dict(
        entries + seq![(k1, v1), (k2, v2)],
    )));
}

/// A two-element tuple keeps the push order: with `a` pushed before `b`, the
/// step replaces them by the tuple `(a, b)`.
pub proof fn lemma_tuple2_preserves_order(
    input: Seq<u8>,
    st: MachineState,
    base: Seq<SpecValue>,
    a: SpecValue,
    b: SpecValue,
)
    requires
        0 <= st.pos < input.len(),
        input[st.pos] == OP_TUPLE2,
        st.stack == base.push(a).push(b),
    ensures
        spec_step(input, st) == StepResult::Next(MachineState {
            stack: base.push(SpecValue::Tuple(seq![a, b])),
            memo: st.memo,
            pos: st.pos + 1,
        }),
{
    assert(st.stack.subrange(0, st.stack.len() - 2) =~= base);
    assert(st.stack[st.stack.len() - 2] == a);
    assert(st.stack[st.stack.len() - 1] == b);
}

/// A three-element tuple keeps the push order: with `a`, `b`, `c` pushed in
/// that order, the step replaces them by the tuple `(a, b, c)`.
pub proof fn lemma_tuple3_preserves_order(
    input: Seq<u8>,
    st: MachineState,
    base: Seq<SpecValue>,
    a: SpecValue,
    b: SpecValue,
    c: SpecValue,
)
    requires
        0 <= st.pos < input.len(),
        input[st.pos] == OP_TUPLE3,
        st.stack == base.push(a).push(b).push(c),
    ensures
        spec_step(input, st) == StepResult::Next(MachineState {
            stack: base.push(SpecValue::Tuple(seq![a, b, c])),
            memo: st.memo,
            pos: st.pos + 1,
        }),
{
    assert(st.stack.subrange(0, st.stack.len() - 3) =~= base);
    assert(st.stack[st.stack.len() - 3] == a);
    assert(st.stack[st.stack.len() - 2] == b);
    assert(st.stack[st.stack.len() - 1] == c);
}

/// Text decoding never fails: whatever the declared bytes hold — valid text
/// or not — the step succeeds and pushes the permissive decoding of exactly
/// those bytes.
pub proof fn lemma_binunicode_never_fails(input: Seq<u8>, st: MachineState)
    requires
        0 <= st.pos,
        st.pos + 5 <= input.len(),
        input[st.pos] == OP_BINUNICODE,
        st.pos + 5 + le32(
            input[st.pos + 1],
            input[st.pos + 2],
            input[st.pos + 3],
            input[st.pos + 4],
        ) <= input.len(),
    ensures
        spec_step(input, st) == StepResult::Next(MachineState {
            stack: st.stack.push(SpecValue::Str(lossy_utf8(input.subrange(
                st.pos + 5,
                st.pos + 5 + le32(
                    input[st.pos + 1],
                    input[st.pos + 2],
                    input[st.pos + 3],
                    input[st.pos + 4],
                ),
            )))),
            memo: st.memo,
            pos: st.pos + 5 + le32(
                input[st.pos + 1],
                input[st.pos + 2],
                input[st.pos + 3],
                input[st.pos + 4],
            ),
        }),
{
}

/// The protocol gate: a version byte of five or above is a fatal error, and
/// any version up to four is accepted and changes nothing but the cursor.
pub proof fn lemma_protocol_gate(input: Seq<u8>, st: MachineState)
    requires
        0 <= st.pos,
        st.pos + 2 <= input.len(),
        input[st.pos] == OP_PROTO,
    ensures
        input[st.pos + 1] >= 5 ==> spec_step(input, st) == StepResult::Fail(
            PickleError::UnsupportedProtocol(input[st.pos + 1]),
        ),
        input[st.pos + 1] <= 4 ==> spec_step(input, st) == StepResult::Next(MachineState {
            stack: st.stack,
            memo: st.memo,
            pos: st.pos + 2,
        }),
{
}

} // verus!
