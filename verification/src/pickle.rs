//! The executable graph interpreter: a stack machine that consumes a byte
//! stream of opcodes and produces one root value. It is proved to return
//! exactly what the mathematical machine in `machine` computes.

use vstd::prelude::*;
use vstd::utf8::{valid_utf8, decode_utf8};
use crate::machine::{
    PickleError, MachineState, StepResult, le16, le32, le32_signed, split_at_mark, pair_up,
    find_newline, lossy_utf8, spec_step, spec_run, spec_load,
    lemma_split_at_mark_found, lemma_split_at_mark_none, lemma_pair_up,
    OP_PROTO, OP_BINPUT, OP_LONG_BINPUT, OP_BINGET, OP_BININT, OP_BININT1, OP_BININT2,
    OP_EMPTY_DICT, OP_MARK, OP_EMPTY_TUPLE, OP_SETITEMS, OP_TUPLE, OP_TUPLE1, OP_TUPLE2,
    OP_TUPLE3, OP_NEWTRUE, OP_NEWFALSE, OP_BINUNICODE, OP_GLOBAL, OP_REDUCE, OP_BINPERSID,
    OP_STOP,
};
use crate::value::{
    PyValue, SpecValue, lemma_model_elems, lemma_model_pairs, lemma_model_elems_push,
    lemma_model_elems_subrange,
};

verus! {

/// The executable outcome agrees with the mathematical one: same success or
/// same error, and on success the returned tree models the computed value.
pub open spec fn result_matches(
    r: Result<PyValue, PickleError>,
    s: Result<SpecValue, PickleError>,
) -> bool {
    match r {
        Ok(v) => s is Ok && v@ == s->Ok_0,
        Err(e) => s is Err && e == s->Err_0,
    }
}

/// The memo table: an integer-keyed association list, later entries
/// overriding earlier ones.
struct Memo {
    entries: Vec<(u32, PyValue)>,
}

/// The mapping that an association list denotes: entries applied left to
/// right, later writes replacing earlier ones.
pub open spec fn assoc_map(s: Seq<(u32, PyValue)>) -> Map<int, SpecValue>
    decreases s.len(),
{
    if s.len() == 0 {
        Map::empty()
    } else {
        assoc_map(s.drop_last()).insert(s.last().0 as int, s.last().1@)
    }
}

/// Lookup in an association list, scanning from the latest entry.
pub open spec fn assoc_get(s: Seq<(u32, PyValue)>, k: int) -> Option<SpecValue>
    decreases s.len(),
{
    if s.len() == 0 {
        None
    } else if s.last().0 == k {
        Some(s.last().1@)
    } else {
        assoc_get(s.drop_last(), k)
    }
}

/// The scan agrees with the denoted mapping.
pub proof fn lemma_assoc_get(s: Seq<(u32, PyValue)>, k: int)
    ensures
        match assoc_get(s, k) {
            Some(v) => assoc_map(s).contains_key(k) && assoc_map(s)[k] == v,
            None => !assoc_map(s).contains_key(k),
        },
    decreases s.len(),
{
    if s.len() > 0 {
        lemma_assoc_get(s.drop_last(), k);
    }
}

impl View for Memo {
    type V = Map<int, SpecValue>;

    closed spec fn view(&self) -> Map<int, SpecValue> {
        assoc_map(self.entries@)
    }
}

impl Memo {
    fn new() -> (r: Memo)
        ensures
            r@ == Map::<int, SpecValue>::empty(),
    {
        Memo { entries: Vec::new() }
    }

    /// Store `v` under `k`, replacing any earlier entry.
    fn put(&mut self, k: u32, v: PyValue)
        ensures
            final(self)@ == old(self)@.insert(k as int, v@),
    {
        self.entries.push((k, v));
        proof {
            assert(self.entries@.drop_last() =~= old(self).entries@);
        }
    }

    /// Fetch a copy of the latest value stored under `k`.
    #[verifier::loop_isolation(false)]
    fn get(&self, k: u32) -> (r: Option<PyValue>)
        ensures
            match r {
                Some(v) => self@.contains_key(k as int) && v@ == self@[k as int],
                None => !self@.contains_key(k as int),
            },
    {
        proof {
            lemma_assoc_get(self.entries@, k as int);
            assert(self.entries@.subrange(0, self.entries@.len() as int) =~= self.entries@);
        }
        let mut i: usize = self.entries.len();
        while i > 0
            invariant
                i <= self.entries.len(),
                assoc_get(self.entries@.subrange(0, i as int), k as int) == assoc_get(
                    self.entries@,
                    k as int,
                ),
            decreases i,
        {
            let entry = &self.entries[i - 1];
            proof {
                assert(self.entries@.subrange(0, i as int).drop_last() =~= self.entries@.subrange(
                    0,
                    i as int - 1,
                ));
                assert(self.entries@.subrange(0, i as int).last() == self.entries@[i as int - 1]);
            }
            if entry.0 == k {
                return Some(entry.1.clone());
            }
            i = i - 1;
        }
        proof {
            assert(self.entries@.subrange(0, 0) =~= Seq::<(u32, PyValue)>::empty());
        }
        None
    }
}

/// Relies on `String::from_utf8_lossy`: decoding never fails, depends on the
/// bytes alone, and on valid UTF-8 is the ordinary decoding.
#[verifier::external_body]
fn decode_permissive(b: &Vec<u8>) -> (r: String)
    ensures
        r@ == lossy_utf8(b@),
        valid_utf8(b@) ==> r@ == decode_utf8(b@),
{
    String::from_utf8_lossy(&b[..]).into_owned()
}

/// Relies on `String::from_utf8`: it succeeds exactly on valid UTF-8 and then
/// decodes those bytes.
#[verifier::external_body]
fn utf8_to_string(b: Vec<u8>) -> (r: Option<String>)
    ensures
        match r {
            Some(s) => valid_utf8(b@) && s@ == decode_utf8(b@),
            None => !valid_utf8(b@),
        },
{
    match String::from_utf8(b) {
        Ok(s) => Some(s),
        Err(_) => None,
    }
}

/// The index of the topmost delimiter on the stack, if any.
#[verifier::loop_isolation(false)]
fn find_mark(stack: &Vec<PyValue>) -> (r: Option<usize>)
    ensures
        match r {
            Some(m) => m < stack@.len() && stack@[m as int]@ is Mark && forall|t: int|
                m < t < stack@.len() ==> !(stack@[t]@ is Mark),
            None => forall|t: int| 0 <= t < stack@.len() ==> !(stack@[t]@ is Mark),
        },
{
    let mut i: usize = stack.len();
    while i > 0
        invariant
            i <= stack@.len(),
            forall|t: int| i <= t < stack@.len() ==> !(stack@[t]@ is Mark),
        decreases i,
    {
        let here = match &stack[i - 1] {
            PyValue::Mark => true,
            _ => false,
        };
        if here {
            return Some(i - 1);
        }
        i = i - 1;
    }
    None
}

/// The index of the first line-feed byte at or after `from`, if any.
#[verifier::loop_isolation(false)]
fn find_nl(input: &Vec<u8>, from: usize) -> (r: Option<usize>)
    ensures
        match r {
            Some(j) => find_newline(input@, from as int) == Some(j as int) && from <= j
                < input@.len(),
            None => find_newline(input@, from as int) is None,
        },
{
    let mut j: usize = from;
    while j < input.len()
        invariant
            from <= j,
            find_newline(input@, from as int) == find_newline(input@, j as int),
        decreases input@.len() - j,
    {
        if input[j] == 0x0a {
            return Some(j);
        }
        j = j + 1;
    }
    None
}

/// A copy of the bytes in `[a, b)`.
#[verifier::loop_isolation(false)]
fn copy_range(input: &Vec<u8>, a: usize, b: usize) -> (r: Vec<u8>)
    requires
        a <= b <= input@.len(),
    ensures
        r@ == input@.subrange(a as int, b as int),
{
    let mut out: Vec<u8> = Vec::new();
    let mut i: usize = a;
    while i < b
        invariant
            a <= i <= b <= input@.len(),
            out@ == input@.subrange(a as int, i as int),
        decreases b - i,
    {
        out.push(input[i]);
        i = i + 1;
        proof {
            assert(out@ =~= input@.subrange(a as int, i as int));
        }
    }
    out
}

/// The little-endian value of the two bytes at `p`.
fn read_le16(input: &Vec<u8>, p: usize) -> (r: u16)
    requires
        p + 2 <= input@.len(),
        input@.len() <= usize::MAX,
    ensures
        r as int == le16(input@[p as int], input@[p as int + 1]),
{
    input[p] as u16 + 0x100 * (input[p + 1] as u16)
}

/// The little-endian value of the four bytes at `p`.
fn read_le32(input: &Vec<u8>, p: usize) -> (r: u32)
    requires
        p + 4 <= input@.len(),
        input@.len() <= usize::MAX,
    ensures
        r as int == le32(
            input@[p as int],
            input@[p as int + 1],
            input@[p as int + 2],
            input@[p as int + 3],
        ),
{
    input[p] as u32 + 0x100 * (input[p + 1] as u32 + 0x100 * (input[p + 2] as u32 + 0x100 * (
    input[p + 3] as u32)))
}

} // verus!

verus! {

/// The graph interpreter. It holds no state of its own: stack and memo are
/// scoped to one `load` call.
pub struct Unpickler {}

impl Default for Unpickler {
    fn default() -> (r: Unpickler)
        ensures
            r == (Unpickler {}),
    {
        Unpickler {}
    }
}

impl Unpickler {
    /// Interprets one byte stream of opcodes and returns the single decoded
    /// root value, or the first fatal error, exactly as the mathematical
    /// machine does.
    #[verifier::loop_isolation(false)]
    #[verifier::rlimit(100)]
    pub fn load(&mut self, input: &Vec<u8>) -> (r: Result<PyValue, PickleError>)
        ensures
            result_matches(r, spec_load(input@)),
    {
        let mut stack: Vec<PyValue> = Vec::new();
        let mut memo = Memo::new();
        let mut pos: usize = 0;
        proof {
            assert(PyValue::model_elems(stack@) =~= Seq::<SpecValue>::empty());
        }
        loop
            invariant
                pos <= input@.len(),
                spec_run(
                    input@,
                    MachineState {
                        stack: PyValue::model_elems(stack@),
                        memo: memo@,
                        pos: pos as int,
                    },
                ) == spec_load(input@),
            decreases input@.len() - pos,
        {
            let ghost pre = MachineState {
                stack: PyValue::model_elems(stack@),
                memo: memo@,
                pos: pos as int,
            };
            proof {
                lemma_model_elems(stack@);
            }
            if pos >= input.len() {
                return Err(PickleError::Truncated);
            }
            let op = input[pos];
            if op == OP_PROTO {
                if input.len() - (pos + 1) < 1 {
                    return Err(PickleError::Truncated);
                }
                let v = input[pos + 1];
                if v > 4 {
                    return Err(PickleError::UnsupportedProtocol(v));
                }
                pos = pos + 2;
            } else if op == OP_BINPUT {
                if input.len() - (pos + 1) < 1 {
                    return Err(PickleError::Truncated);
                }
                let k = input[pos + 1];
                if stack.len() == 0 {
                    return Err(PickleError::StackUnderflow);
                }
                let copy = stack[stack.len() - 1].clone();
                memo.put(k as u32, copy);
                pos = pos + 2;
            } else if op == OP_LONG_BINPUT {
                if input.len() - (pos + 1) < 4 {
                    return Err(PickleError::Truncated);
                }
                let k = read_le32(input, pos + 1);
                if stack.len() == 0 {
                    return Err(PickleError::StackUnderflow);
                }
                let copy = stack[stack.len() - 1].clone();
                memo.put(k, copy);
                pos = pos + 5;
            } else if op == OP_BINGET {
                if input.len() - (pos + 1) < 1 {
                    return Err(PickleError::Truncated);
                }
                let k = input[pos + 1];
                match memo.get(k as u32) {
                    None => {
                        return Err(PickleError::MissingMemo(k as u32));
                    }
                    Some(v) => {
                        let ghost s0 = stack@;
                        stack.push(v);
                        pos = pos + 2;
                        proof {
                            lemma_model_elems_push(s0, v);
                        }
                    }
                }
            } else if op == OP_BININT {
                if input.len() - (pos + 1) < 4 {
                    return Err(PickleError::Truncated);
                }
                let u = read_le32(input, pos + 1);
                let v: i64 = if u >= 0x8000_0000 {
                    u as i64 - 0x1_0000_0000i64
                } else {
                    u as i64
                };
                let ghost s0 = stack@;
                stack.push(PyValue::Int(v));
                pos = pos + 5;
                proof {
                    lemma_model_elems_push(s0, PyValue::Int(v));
                }
            } else if op == OP_BININT1 {
                if input.len() - (pos + 1) < 1 {
                    return Err(PickleError::Truncated);
                }
                let b = input[pos + 1];
                let ghost s0 = stack@;
                stack.push(PyValue::Int(b as i64));
                pos = pos + 2;
                proof {
                    lemma_model_elems_push(s0, PyValue::Int(b as i64));
                }
            } else if op == OP_BININT2 {
                if input.len() - (pos + 1) < 2 {
                    return Err(PickleError::Truncated);
                }
                let w = read_le16(input, pos + 1);
                let ghost s0 = stack@;
                stack.push(PyValue::Int(w as i64));
                pos = pos + 3;
                proof {
                    lemma_model_elems_push(s0, PyValue::Int(w as i64));
                }
            } else if op == OP_EMPTY_DICT {
                let ghost s0 = stack@;
                let d: Vec<(PyValue, PyValue)> = Vec::new();
                let ghost dg = PyValue::Dict(d);
                stack.push(PyValue::Dict(d));
                pos = pos + 1;
                proof {
                    lemma_model_elems_push(s0, dg);
                    assert(PyValue::model_pairs(Seq::<(PyValue, PyValue)>::empty()) =~= Seq::<
                        (SpecValue, SpecValue),
                    >::empty());
                }
            } else if op == OP_MARK {
                let ghost s0 = stack@;
                stack.push(PyValue::Mark);
                pos = pos + 1;
                proof {
                    lemma_model_elems_push(s0, PyValue::Mark);
                }
            } else if op == OP_EMPTY_TUPLE {
                let ghost s0 = stack@;
                let t: Vec<PyValue> = Vec::new();
                let ghost tg = PyValue::Tuple(t);
                stack.push(PyValue::Tuple(t));
                pos = pos + 1;
                proof {
                    lemma_model_elems_push(s0, tg);
                    assert(PyValue::model_elems(Seq::<PyValue>::empty()) =~= Seq::<
                        SpecValue,
                    >::empty());
                }
            } else if op == OP_NEWTRUE {
                let ghost s0 = stack@;
                stack.push(PyValue::Bool(true));
                pos = pos + 1;
                proof {
                    lemma_model_elems_push(s0, PyValue::Bool(true));
                }
            } else if op == OP_NEWFALSE {
                let ghost s0 = stack@;
                stack.push(PyValue::Bool(false));
                pos = pos + 1;
                proof {
                    lemma_model_elems_push(s0, PyValue::Bool(false));
                }
            } else if op == OP_SETITEMS {
                let ghost s0 = stack@;
                match find_mark(&stack) {
                    None => {
                        proof {
                            lemma_split_at_mark_none(pre.stack);
                        }
                        return Err(PickleError::StackUnderflow);
                    }
                    Some(m) => {
                        proof {
                            lemma_split_at_mark_found(pre.stack, m as int);
                            lemma_model_elems_subrange(s0, m as int + 1, s0.len() as int);
                            lemma_model_elems_subrange(s0, 0, m as int);
                        }
                        let n = stack.len();
                        proof {
                            assert(m < n);
                        }
                        let items = stack.split_off(m + 1);
                        let _ = stack.pop();
                        proof {
                            assert(stack@ =~= s0.subrange(0, m as int));
                        }
                        if stack.len() == 0 {
                            return Err(PickleError::StackUnderflow);
                        }
                        let ghost items_m = PyValue::model_elems(items@);
                        let target = stack.pop().unwrap();
                        proof {
                            assert(stack@ =~= s0.subrange(0, m as int - 1));
                            lemma_model_elems_subrange(s0, 0, m as int - 1);
                            assert(target@ == pre.stack.subrange(0, m as int).last());
                            assert(pre.stack.subrange(0, m as int).drop_last() =~= pre.stack
                                .subrange(0, m as int - 1));
                        }
                        match target {
                            PyValue::Dict(entries) => {
                                let mut entries = entries;
                                let ghost e0 = entries@;
                                let ghost d0 = PyValue::model_pairs(e0);
                                proof {
                                    lemma_pair_up(items_m);
                                    lemma_model_elems(items@);
                                    lemma_model_pairs(e0);
                                }
                                let mut i: usize = 0;
                                while i + 1 < items.len()
                                    invariant
                                        i % 2 == 0,
                                        i <= items@.len(),
                                        entries@.len() == e0.len() + i / 2,
                                        forall|j: int| 0 <= j < e0.len() ==> #[trigger] entries@[j]
                                            == e0[j],
                                        forall|j: int| e0.len() <= j < entries@.len() ==> (
                                        #[trigger] entries@[j]).0@ == items_m[2 * (j - e0.len())]
                                            && entries@[j].1@ == items_m[2 * (j - e0.len()) + 1],
                                    decreases items@.len() - i,
                                {
                                    let a = items[i].clone();
                                    let b = items[i + 1].clone();
                                    entries.push((a, b));
                                    i = i + 2;
                                }
                                proof {
                                    lemma_model_pairs(entries@);
                                    assert(PyValue::model_pairs(entries@) =~= d0 + pair_up(
                                        items_m,
                                    ));
                                }
                                let ghost s1 = stack@;
                                stack.push(PyValue::Dict(entries));
                                pos = pos + 1;
                                proof {
                                    lemma_model_elems_push(s1, PyValue::Dict(entries));
                                    assert(s1 =~= s0.subrange(0, m as int - 1));
                                }
                            }
                            _ => {
                                return Err(PickleError::SetItemsOnNonDict);
                            }
                        }
                    }
                }
            } else if op == OP_TUPLE {
                let ghost s0 = stack@;
                match find_mark(&stack) {
                    None => {
                        proof {
                            lemma_split_at_mark_none(pre.stack);
                        }
                        return Err(PickleError::StackUnderflow);
                    }
                    Some(m) => {
                        proof {
                            lemma_split_at_mark_found(pre.stack, m as int);
                            lemma_model_elems_subrange(s0, m as int + 1, s0.len() as int);
                            lemma_model_elems_subrange(s0, 0, m as int);
                        }
                        let n = stack.len();
                        proof {
                            assert(m < n);
                        }
                        let items = stack.split_off(m + 1);
                        let _ = stack.pop();
                        let ghost s1 = stack@;
                        stack.push(PyValue::Tuple(items));
                        pos = pos + 1;
                        proof {
                            assert(s1 =~= s0.subrange(0, m as int));
                            lemma_model_elems_push(s1, PyValue::Tuple(items));
                        }
                    }
                }
            } else if op == OP_TUPLE1 {
                if stack.len() < 1 {
                    return Err(PickleError::StackUnderflow);
                }
                let ghost s0 = stack@;
                let i1 = stack.pop().unwrap();
                let ghost s1 = stack@;
                let mut tup: Vec<PyValue> = Vec::new();
                tup.push(i1);
                stack.push(PyValue::Tuple(tup));
                pos = pos + 1;
                proof {
                    lemma_model_elems(tup@);
                    assert(PyValue::model_elems(tup@) =~= seq![pre.stack.last()]);
                    lemma_model_elems_push(s1, PyValue::Tuple(tup));
                    assert(s1 =~= s0.subrange(0, s0.len() - 1));
                    lemma_model_elems_subrange(s0, 0, s0.len() - 1);
                    assert(pre.stack.drop_last() =~= pre.stack.subrange(0, s0.len() - 1));
                }
            } else if op == OP_TUPLE2 {
                if stack.len() < 2 {
                    return Err(PickleError::StackUnderflow);
                }
                let ghost s0 = stack@;
                let i1 = stack.pop().unwrap();
                let i2 = stack.pop().unwrap();
                let ghost s1 = stack@;
                let mut tup: Vec<PyValue> = Vec::new();
                tup.push(i2);
                tup.push(i1);
                stack.push(PyValue::Tuple(tup));
                pos = pos + 1;
                proof {
                    lemma_model_elems(tup@);
                    assert(PyValue::model_elems(tup@) =~= seq![
                        pre.stack[pre.stack.len() - 2],
                        pre.stack[pre.stack.len() - 1],
                    ]);
                    lemma_model_elems_push(s1, PyValue::Tuple(tup));
                    assert(s1 =~= s0.subrange(0, s0.len() - 2));
                    lemma_model_elems_subrange(s0, 0, s0.len() - 2);
                }
            } else if op == OP_TUPLE3 {
                if stack.len() < 3 {
                    return Err(PickleError::StackUnderflow);
                }
                let ghost s0 = stack@;
                let i1 = stack.pop().unwrap();
                let i2 = stack.pop().unwrap();
                let i3 = stack.pop().unwrap();
                let ghost s1 = stack@;
                let mut tup: Vec<PyValue> = Vec::new();
                tup.push(i3);
                tup.push(i2);
                tup.push(i1);
                stack.push(PyValue::Tuple(tup));
                pos = pos + 1;
                proof {
                    lemma_model_elems(tup@);
                    assert(PyValue::model_elems(tup@) =~= seq![
                        pre.stack[pre.stack.len() - 3],
                        pre.stack[pre.stack.len() - 2],
                        pre.stack[pre.stack.len() - 1],
                    ]);
                    lemma_model_elems_push(s1, PyValue::Tuple(tup));
                    assert(s1 =~= s0.subrange(0, s0.len() - 3));
                    lemma_model_elems_subrange(s0, 0, s0.len() - 3);
                }
            } else if op == OP_REDUCE {
                if stack.len() < 2 {
                    return Err(PickleError::StackUnderflow);
                }
                let ghost s0 = stack@;
                let args = stack.pop().unwrap();
                let callable = stack.pop().unwrap();
                let ghost s1 = stack@;
                stack.push(PyValue::Reduce(Box::new(callable), Box::new(args)));
                pos = pos + 1;
                proof {
                    lemma_model_elems_push(s1, PyValue::Reduce(Box::new(callable), Box::new(args)));
                    assert(s1 =~= s0.subrange(0, s0.len() - 2));
                    lemma_model_elems_subrange(s0, 0, s0.len() - 2);
                }
            } else if op == OP_BINPERSID {
                if stack.len() < 1 {
                    return Err(PickleError::StackUnderflow);
                }
                let ghost s0 = stack@;
                let inner = stack.pop().unwrap();
                let ghost s1 = stack@;
                stack.push(PyValue::PersId(Box::new(inner)));
                pos = pos + 1;
                proof {
                    lemma_model_elems_push(s1, PyValue::PersId(Box::new(inner)));
                    assert(s1 =~= s0.subrange(0, s0.len() - 1));
                    lemma_model_elems_subrange(s0, 0, s0.len() - 1);
                    assert(pre.stack.drop_last() =~= pre.stack.subrange(0, s0.len() - 1));
                }
            } else if op == OP_BINUNICODE {
                if input.len() - (pos + 1) < 4 {
                    return Err(PickleError::Truncated);
                }
                let n32 = read_le32(input, pos + 1);
                let n = n32 as usize;
                if input.len() - (pos + 5) < n {
                    return Err(PickleError::Truncated);
                }
                let bytes = copy_range(input, pos + 5, pos + 5 + n);
                let s = decode_permissive(&bytes);
                let ghost s0 = stack@;
                stack.push(PyValue::Str(s));
                pos = pos + 5 + n;
                proof {
                    lemma_model_elems_push(s0, PyValue::Str(s));
                }
            } else if op == OP_GLOBAL {
                let nl1 = match find_nl(input, pos + 1) {
                    None => {
                        return Err(PickleError::Truncated);
                    }
                    Some(j) => j,
                };
                let nl2 = match find_nl(input, nl1 + 1) {
                    None => {
                        return Err(PickleError::Truncated);
                    }
                    Some(j) => j,
                };
                let mbytes = copy_range(input, pos + 1, nl1);
                let nbytes = copy_range(input, nl1 + 1, nl2);
                let module = match utf8_to_string(mbytes) {
                    None => {
                        return Err(PickleError::InvalidGlobalText);
                    }
                    Some(s) => s,
                };
                let name = match utf8_to_string(nbytes) {
                    None => {
                        return Err(PickleError::InvalidGlobalText);
                    }
                    Some(s) => s,
                };
                let ghost s0 = stack@;
                stack.push(PyValue::Global(module, name));
                pos = nl2 + 1;
                proof {
                    lemma_model_elems_push(s0, PyValue::Global(module, name));
                }
            } else if op == OP_STOP {
                pos = pos + 1;
                if stack.len() == 1 {
                    let v = stack.pop().unwrap();
                    return Ok(v);
                } else if stack.len() == 0 {
                    return Err(PickleError::NoResult);
                } else {
                    return Err(PickleError::ExtraItems);
                }
            } else {
                return Err(PickleError::UnknownOpcode(op));
            }
            proof {
                let now = MachineState {
                    stack: PyValue::model_elems(stack@),
                    memo: memo@,
                    pos: pos as int,
                };
                assert(spec_step(input@, pre) == StepResult::Next(now));
                assert(spec_run(input@, pre) == spec_run(input@, now));
            }
        }
    }
}

} // verus!
