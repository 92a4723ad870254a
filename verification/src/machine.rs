//! Mathematical semantics of the graph interpreter: a small-step machine over
//! the input byte stream, an operand stack and a memo table. The executable
//! interpreter in `pickle` is proved to return exactly what this machine
//! computes.

use vstd::prelude::*;
use vstd::utf8::{valid_utf8, decode_utf8};
use crate::value::SpecValue;

verus! {

pub const OP_PROTO: u8 = 0x80;
pub const OP_BINPUT: u8 = 0x71;
pub const OP_LONG_BINPUT: u8 = 0x72;
pub const OP_BINGET: u8 = 0x68;
pub const OP_BININT: u8 = 0x4a;
pub const OP_BININT1: u8 = 0x4b;
pub const OP_BININT2: u8 = 0x4d;
pub const OP_EMPTY_DICT: u8 = 0x7d;
pub const OP_MARK: u8 = 0x28;
pub const OP_EMPTY_TUPLE: u8 = 0x29;
pub const OP_SETITEMS: u8 = 0x75;
pub const OP_TUPLE: u8 = 0x74;
pub const OP_TUPLE1: u8 = 0x85;
pub const OP_TUPLE2: u8 = 0x86;
pub const OP_TUPLE3: u8 = 0x87;
pub const OP_NEWTRUE: u8 = 0x88;
pub const OP_NEWFALSE: u8 = 0x89;
pub const OP_BINUNICODE: u8 = 0x58;
pub const OP_GLOBAL: u8 = 0x63;
pub const OP_REDUCE: u8 = 0x52;
pub const OP_BINPERSID: u8 = 0x51;
pub const OP_STOP: u8 = 0x2e;

/// Everything that makes the interpreter give up on a stream. The first one
/// encountered aborts the run; none is recoverable.
#[derive(Clone, Copy, Debug, PartialEq, Eq, Structural)]
pub enum PickleError {
    /// The stream ended before a declared length, a line terminator, or the
    /// terminator opcode.
    Truncated,
    /// The protocol version byte was above the supported range.
    UnsupportedProtocol(u8),
    /// An opcode outside the supported subset.
    UnknownOpcode(u8),
    /// A value was needed from an empty stack, or no delimiter was below the
    /// popped values.
    StackUnderflow,
    /// A memo key was read before anything was stored under it.
    MissingMemo(u32),
    /// The value below the popped items was not a dictionary.
    SetItemsOnNonDict,
    /// A named-reference line was not valid text.
    InvalidGlobalText,
    /// Interpretation finished with an empty stack.
    NoResult,
    /// Interpretation finished with more than one value on the stack.
    ExtraItems,
}

/// The interpreter state between two opcodes.
pub struct MachineState {
    /// LIFO operand stack; the last element is the top.
    pub stack: Seq<SpecValue>,
    /// Memo table: write-once-or-overwrite, read-many.
    pub memo: Map<int, SpecValue>,
    /// Cursor into the input byte stream.
    pub pos: int,
}

/// Result of consuming one opcode.
pub enum StepResult {
    /// The machine advanced and continues.
    Next(MachineState),
    /// The terminator opcode was consumed.
    Finish(MachineState),
    /// A fatal error.
    Fail(PickleError),
}

/// The little-endian value of two bytes.
pub open spec fn le16(b0: u8, b1: u8) -> int {
    b0 + 0x100 * b1
}

/// The little-endian value of four bytes, unsigned.
pub open spec fn le32(b0: u8, b1: u8, b2: u8, b3: u8) -> int {
    b0 + 0x100 * (b1 + 0x100 * (b2 + 0x100 * b3))
}

/// The little-endian value of four bytes, as a signed 32-bit quantity.
pub open spec fn le32_signed(b0: u8, b1: u8, b2: u8, b3: u8) -> int {
    if le32(b0, b1, b2, b3) >= 0x8000_0000 {
        le32(b0, b1, b2, b3) - 0x1_0000_0000
    } else {
        le32(b0, b1, b2, b3)
    }
}

/// Splits a stack at the topmost delimiter: `Some((below, items))` where
/// `below` is everything under the delimiter and `items` the values above it,
/// bottom first. `None` when no delimiter is on the stack.
pub open spec fn split_at_mark(s: Seq<SpecValue>) -> Option<(Seq<SpecValue>, Seq<SpecValue>)>
    decreases s.len(),
{
    if s.len() == 0 {
        None
    } else if s.last() is Mark {
        Some((s.drop_last(), Seq::empty()))
    } else {
        match split_at_mark(s.drop_last()) {
            Some(r) => Some((r.0, r.1.push(s.last()))),
            None => None,
        }
    }
}

/// Pairs consecutive values `(s[0], s[1]), (s[2], s[3]), ...`; a trailing
/// unpaired value is dropped.
pub open spec fn pair_up(s: Seq<SpecValue>) -> Seq<(SpecValue, SpecValue)>
    decreases s.len(),
{
    if s.len() < 2 {
        Seq::empty()
    } else {
        seq![(s[0], s[1])] + pair_up(s.subrange(2, s.len() as int))
    }
}

/// The smallest index at or after `from` holding a line-feed byte.
pub open spec fn find_newline(input: Seq<u8>, from: int) -> Option<int>
    decreases input.len() - from,
{
    if !(0 <= from < input.len()) {
        None
    } else if input[from] == 0x0a {
        Some(from)
    } else {
        find_newline(input, from + 1)
    }
}

/// What decoding arbitrary bytes permissively yields: named, never failing;
/// on valid UTF-8 it is the ordinary decoding (see `decode_permissive` in
/// `pickle`).
pub uninterp spec fn lossy_utf8(b: Seq<u8>) -> Seq<char>;

/// One step of the machine: consume the opcode at `st.pos` and whatever
/// operands it declares.
pub open spec fn spec_step(input: Seq<u8>, st: MachineState) -> StepResult {
    if !(0 <= st.pos < input.len()) {
        StepResult::Fail(PickleError::Truncated)
    } else {
        let op = input[st.pos];
        let p = st.pos + 1;
        if op == OP_PROTO {
            if p + 1 > input.len() {
                StepResult::Fail(PickleError::Truncated)
            } else if input[p] > 4 {
                StepResult::Fail(PickleError::UnsupportedProtocol(input[p]))
            } else {
                StepResult::Next(MachineState { pos: p + 1, ..st })
            }
        } else if op == OP_BINPUT {
            if p + 1 > input.len() {
                StepResult::Fail(PickleError::Truncated)
            } else if st.stack.len() == 0 {
                StepResult::Fail(PickleError::StackUnderflow)
            } else {
                StepResult::Next(MachineState {
                    memo: st.memo.insert(input[p] as int, st.stack.last()),
                    pos: p + 1,
                    ..st
                })
            }
        } else if op == OP_LONG_BINPUT {
            if p + 4 > input.len() {
                StepResult::Fail(PickleError::Truncated)
            } else if st.stack.len() == 0 {
                StepResult::Fail(PickleError::StackUnderflow)
            } else {
                StepResult::Next(MachineState {
                    memo: st.memo.insert(
                        le32(input[p], input[p + 1], input[p + 2], input[p + 3]),
                        st.stack.last(),
                    ),
                    pos: p + 4,
                    ..st
                })
            }
        } else if op == OP_BINGET {
            if p + 1 > input.len() {
                StepResult::Fail(PickleError::Truncated)
            } else if !st.memo.contains_key(input[p] as int) {
                StepResult::Fail(PickleError::MissingMemo(input[p] as u32))
            } else {
                StepResult::Next(MachineState {
                    stack: st.stack.push(st.memo[input[p] as int]),
                    pos: p + 1,
                    ..st
                })
            }
        } else if op == OP_BININT {
            if p + 4 > input.len() {
                StepResult::Fail(PickleError::Truncated)
            } else {
                StepResult::Next(MachineState {
                    stack: st.stack.push(SpecValue::Int(
                        le32_signed(input[p], input[p + 1], input[p + 2], input[p + 3]) as i64,
                    )),
                    pos: p + 4,
                    ..st
                })
            }
        } else if op == OP_BININT1 {
            if p + 1 > input.len() {
                StepResult::Fail(PickleError::Truncated)
            } else {
                StepResult::Next(MachineState {
                    stack: st.stack.push(SpecValue::Int(input[p] as i64)),
                    pos: p + 1,
                    ..st
                })
            }
        } else if op == OP_BININT2 {
            if p + 2 > input.len() {
                StepResult::Fail(PickleError::Truncated)
            } else {
                StepResult::Next(MachineState {
                    stack: st.stack.push(SpecValue::Int(le16(input[p], input[p + 1]) as i64)),
                    pos: p + 2,
                    ..st
                })
            }
        } else if op == OP_EMPTY_DICT {
            StepResult::Next(MachineState {
                stack: st.stack.push(SpecValue::Dict(Seq::empty())),
                pos: p,
                ..st
            })
        } else if op == OP_MARK {
            StepResult::Next(MachineState { stack: st.stack.push(SpecValue::Mark), pos: p, ..st })
        } else if op == OP_EMPTY_TUPLE {
            StepResult::Next(MachineState {
                stack: st.stack.push(SpecValue::Tuple(Seq::empty())),
                pos: p,
                ..st
            })
        } else if op == OP_NEWTRUE {
            StepResult::Next(MachineState {
                stack: st.stack.push(SpecValue::Bool(true)),
                pos: p,
                ..st
            })
        } else if op == OP_NEWFALSE {
            StepResult::Next(MachineState {
                stack: st.stack.push(SpecValue::Bool(false)),
                pos: p,
                ..st
            })
        } else if op == OP_SETITEMS {
            match split_at_mark(st.stack) {
                None => StepResult::Fail(PickleError::StackUnderflow),
                Some(r) => {
                    if r.0.len() == 0 {
                        StepResult::Fail(PickleError::StackUnderflow)
                    } else if !(r.0.last() is Dict) {
                        StepResult::Fail(PickleError::SetItemsOnNonDict)
                    } else {
                        StepResult::Next(MachineState {
                            stack: r.0.drop_last().push(SpecValue::Dict(
                                r.0.last()->Dict_0 + pair_up(r.1),
                            )),
                            pos: p,
                            ..st
                        })
                    }
                }
            }
        } else if op == OP_TUPLE {
            match split_at_mark(st.stack) {
                None => StepResult::Fail(PickleError::StackUnderflow),
                Some(r) => StepResult::Next(MachineState {
                    stack: r.0.push(SpecValue::Tuple(r.1)),
                    pos: p,
                    ..st
                }),
            }
        } else if op == OP_TUPLE1 {
            if st.stack.len() < 1 {
                StepResult::Fail(PickleError::StackUnderflow)
            } else {
                StepResult::Next(MachineState {
                    stack: st.stack.drop_last().push(SpecValue::Tuple(seq![st.stack.last()])),
                    pos: p,
                    ..st
                })
            }
        } else if op == OP_TUPLE2 {
            if st.stack.len() < 2 {
                StepResult::Fail(PickleError::StackUnderflow)
            } else {
                StepResult::Next(MachineState {
                    stack: st.stack.subrange(0, st.stack.len() - 2).push(SpecValue::Tuple(
                        seq![st.stack[st.stack.len() - 2], st.stack[st.stack.len() - 1]],
                    )),
                    pos: p,
                    ..st
                })
            }
        } else if op == OP_TUPLE3 {
            if st.stack.len() < 3 {
                StepResult::Fail(PickleError::StackUnderflow)
            } else {
                StepResult::Next(MachineState {
                    stack: st.stack.subrange(0, st.stack.len() - 3).push(SpecValue::Tuple(
                        seq![
                            st.stack[st.stack.len() - 3],
                            st.stack[st.stack.len() - 2],
                            st.stack[st.stack.len() - 1],
                        ],
                    )),
                    pos: p,
                    ..st
                })
            }
        } else if op == OP_REDUCE {
            if st.stack.len() < 2 {
                StepResult::Fail(PickleError::StackUnderflow)
            } else {
                StepResult::Next(MachineState {
                    stack: st.stack.subrange(0, st.stack.len() - 2).push(SpecValue::Reduce(
                        Box::new(st.stack[st.stack.len() - 2]),
                        Box::new(st.stack[st.stack.len() - 1]),
                    )),
                    pos: p,
                    ..st
                })
            }
        } else if op == OP_BINPERSID {
            if st.stack.len() < 1 {
                StepResult::Fail(PickleError::StackUnderflow)
            } else {
                StepResult::Next(MachineState {
                    stack: st.stack.drop_last().push(SpecValue::PersId(
                        Box::new(st.stack.last()),
                    )),
                    pos: p,
                    ..st
                })
            }
        } else if op == OP_BINUNICODE {
            if p + 4 > input.len() {
                StepResult::Fail(PickleError::Truncated)
            } else {
                let n = le32(input[p], input[p + 1], input[p + 2], input[p + 3]);
                if p + 4 + n > input.len() {
                    StepResult::Fail(PickleError::Truncated)
                } else {
                    StepResult::Next(MachineState {
                        stack: st.stack.push(SpecValue::Str(
                            lossy_utf8(input.subrange(p + 4, p + 4 + n)),
                        )),
                        pos: p + 4 + n,
                        ..st
                    })
                }
            }
        } else if op == OP_GLOBAL {
            match find_newline(input, p) {
                None => StepResult::Fail(PickleError::Truncated),
                Some(nl1) => match find_newline(input, nl1 + 1) {
                    None => StepResult::Fail(PickleError::Truncated),
                    Some(nl2) => {
                        let module = input.subrange(p, nl1);
                        let name = input.subrange(nl1 + 1, nl2);
                        if !valid_utf8(module) || !valid_utf8(name) {
                            StepResult::Fail(PickleError::InvalidGlobalText)
                        } else {
                            StepResult::Next(MachineState {
                                stack: st.stack.push(SpecValue::Global(
                                    decode_utf8(module),
                                    decode_utf8(name),
                                )),
                                pos: nl2 + 1,
                                ..st
                            })
                        }
                    }
                },
            }
        } else if op == OP_STOP {
            StepResult::Finish(MachineState { pos: p, ..st })
        } else {
            StepResult::Fail(PickleError::UnknownOpcode(op))
        }
    }
}

/// Runs the machine to its end: the decoded root value, or the first error.
/// Exactly one value must remain on the stack after the terminator.
pub open spec fn spec_run(input: Seq<u8>, st: MachineState) -> Result<SpecValue, PickleError>
    decreases input.len() - st.pos,
{
    proof {
        if spec_step(input, st) is Next {
            lemma_step_advances(input, st);
        }
    }
    match spec_step(input, st) {
        StepResult::Fail(e) => Err(e),
        StepResult::Finish(st2) => {
            if st2.stack.len() == 1 {
                Ok(st2.stack[0])
            } else if st2.stack.len() == 0 {
                Err(PickleError::NoResult)
            } else {
                Err(PickleError::ExtraItems)
            }
        }
        StepResult::Next(st2) => spec_run(input, st2),
    }
}

/// The whole interpretation of a byte stream, from the empty machine.
pub open spec fn spec_load(input: Seq<u8>) -> Result<SpecValue, PickleError> {
    spec_run(
        input,
        MachineState { stack: Seq::empty(), memo: Map::empty(), pos: 0 },
    )
}

/// The machine after `n` continuing steps from `st`; nothing when any of
/// them fails or reaches the terminator first.
pub open spec fn run_steps(input: Seq<u8>, st: MachineState, n: nat) -> Option<MachineState>
    decreases n,
{
    if n == 0 {
        Some(st)
    } else {
        match spec_step(input, st) {
            StepResult::Next(st2) => run_steps(input, st2, (n - 1) as nat),
            _ => None,
        }
    }
}

/// Whether the opcode at `st.pos` stores the stack top under memo key `k`.
pub open spec fn stores_key(input: Seq<u8>, st: MachineState, k: int) -> bool {
    &&& 0 <= st.pos < input.len()
    &&& {
        ||| (input[st.pos] == OP_BINPUT && st.pos + 1 < input.len() && input[st.pos + 1] == k)
        ||| (input[st.pos] == OP_LONG_BINPUT && st.pos + 4 < input.len() && le32(
            input[st.pos + 1],
            input[st.pos + 2],
            input[st.pos + 3],
            input[st.pos + 4],
        ) == k)
    }
}

/// Every step that continues moves the cursor forward and keeps it within the
/// input.
pub proof fn lemma_step_advances(input: Seq<u8>, st: MachineState)
    requires
        spec_step(input, st) is Next,
    ensures
        st.pos < spec_step(input, st)->Next_0.pos <= input.len(),
{
    if 0 <= st.pos < input.len() {
        let op = input[st.pos];
        if op == OP_GLOBAL {
            let p = st.pos + 1;
            lemma_find_newline(input, p);
            match find_newline(input, p) {
                Some(nl1) => {
                    lemma_find_newline(input, nl1 + 1);
                }
                None => {}
            }
        }
    }
}

/// Where the topmost delimiter sits at index `m`, the split yields what is
/// below it and what is above it.
pub proof fn lemma_split_at_mark_found(s: Seq<SpecValue>, m: int)
    requires
        0 <= m < s.len(),
        s[m] is Mark,
        forall|j: int| m < j < s.len() ==> !(s[j] is Mark),
    ensures
        split_at_mark(s) == Some((s.subrange(0, m), s.subrange(m + 1, s.len() as int))),
    decreases s.len(),
{
    if m == s.len() - 1 {
        assert(s.drop_last() =~= s.subrange(0, m));
        assert(Seq::<SpecValue>::empty() =~= s.subrange(m + 1, s.len() as int));
    } else {
        lemma_split_at_mark_found(s.drop_last(), m);
        assert(s.drop_last().subrange(0, m) =~= s.subrange(0, m));
        assert(s.drop_last().subrange(m + 1, s.drop_last().len() as int).push(s.last()) =~= s
            .subrange(m + 1, s.len() as int));
    }
}

/// A stack without a delimiter does not split.
pub proof fn lemma_split_at_mark_none(s: Seq<SpecValue>)
    requires
        forall|j: int| 0 <= j < s.len() ==> !(s[j] is Mark),
    ensures
        split_at_mark(s) is None,
    decreases s.len(),
{
    if s.len() > 0 {
        lemma_split_at_mark_none(s.drop_last());
    }
}

/// Pairing, element by element: pair `j` is made of elements `2j` and
/// `2j + 1`, and a trailing unpaired element is dropped.
pub proof fn lemma_pair_up(s: Seq<SpecValue>)
    ensures
        pair_up(s).len() == s.len() / 2,
        forall|j: int| 0 <= j < s.len() / 2 ==> pair_up(s)[j] == (s[2 * j], s[2 * j + 1]),
    decreases s.len(),
{
    if s.len() >= 2 {
        lemma_pair_up(s.subrange(2, s.len() as int));
    }
}

/// A found newline lies at or after the start of the search, inside the input.
pub proof fn lemma_find_newline(input: Seq<u8>, from: int)
    requires
        find_newline(input, from) is Some,
    ensures
        from <= find_newline(input, from)->Some_0 < input.len(),
        input[find_newline(input, from)->Some_0] == 0x0a,
    decreases input.len() - from,
{
    if 0 <= from < input.len() && input[from] != 0x0a {
        lemma_find_newline(input, from + 1);
    }
}

} // verus!
