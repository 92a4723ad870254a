//! The value model: the closed tagged union of protocol values, its
//! mathematical counterpart, and a deep-copy operation.

use vstd::prelude::*;

verus! {

/// Mathematical model of a protocol value: the same closed union as
/// [`PyValue`], stated over `Seq` so that contracts can speak of contents
/// directly.
pub enum SpecValue {
    /// Stack delimiter sentinel; never part of a final decoded graph.
    Mark,
    Bool(bool),
    Int(i64),
    Str(Seq<char>),
    Bytes(Seq<u8>),
    /// A named external reference `(module, qualified name)`, never resolved.
    Global(Seq<char>, Seq<char>),
    Tuple(Seq<SpecValue>),
    /// Ordered pairs; duplicate keys may coexist and order is preserved.
    Dict(Seq<(SpecValue, SpecValue)>),
    /// Records `object = callable(*args)` without invoking anything.
    Reduce(Box<SpecValue>, Box<SpecValue>),
    /// Wraps a value that resolves to externally stored data.
    PersId(Box<SpecValue>),
}

/// A decoded protocol value: one root of the reconstructed object graph.
#[derive(Debug, PartialEq)]
pub enum PyValue {
    Mark,
    Bool(bool),
    Int(i64),
    Str(String),
    Bytes(Vec<u8>),
    Global(String, String),
    Tuple(Vec<PyValue>),
    Dict(Vec<(PyValue, PyValue)>),
    Reduce(Box<PyValue>, Box<PyValue>),
    PersId(Box<PyValue>),
}

impl PyValue {
    /// The mathematical value that this node represents.
    pub open spec fn model(self) -> SpecValue
        decreases self,
    {
        proof {
            match self {
                PyValue::Tuple(vs) => {
                    assert(decreases_to!(self => self->Tuple_0));
                    assert(decreases_to!(self->Tuple_0 => self->Tuple_0@));
                }
                PyValue::Dict(ps) => {
                    assert(decreases_to!(self => self->Dict_0));
                    assert(decreases_to!(self->Dict_0 => self->Dict_0@));
                }
                _ => {}
            }
        }
        match self {
            PyValue::Mark => SpecValue::Mark,
            PyValue::Bool(b) => SpecValue::Bool(b),
            PyValue::Int(i) => SpecValue::Int(i),
            PyValue::Str(s) => SpecValue::Str(s@),
            PyValue::Bytes(b) => SpecValue::Bytes(b@),
            PyValue::Global(m, n) => SpecValue::Global(m@, n@),
            PyValue::Tuple(vs) => SpecValue::Tuple(PyValue::model_elems(vs@)),
            PyValue::Dict(ps) => SpecValue::Dict(PyValue::model_pairs(ps@)),
            PyValue::Reduce(c, a) => SpecValue::Reduce(
                Box::new((*c).model()),
                Box::new((*a).model()),
            ),
            PyValue::PersId(p) => SpecValue::PersId(Box::new((*p).model())),
        }
    }

    /// Models of a sequence of nodes, element by element.
    pub open spec fn model_elems(s: Seq<PyValue>) -> Seq<SpecValue>
        decreases s,
    {
        proof {
            if s.len() > 0 {
                assert(decreases_to!(s => s.subrange(1, s.len() as int)));
            }
        }
        if s.len() == 0 {
            Seq::empty()
        } else {
            seq![s[0].model()] + PyValue::model_elems(s.subrange(1, s.len() as int))
        }
    }

    /// Models of a sequence of key/value pairs, pair by pair.
    pub open spec fn model_pairs(s: Seq<(PyValue, PyValue)>) -> Seq<(SpecValue, SpecValue)>
        decreases s,
    {
        proof {
            if s.len() > 0 {
                assert(decreases_to!(s => s.subrange(1, s.len() as int)));
                assert(decreases_to!(s => s[0]));
                assert(decreases_to!(s[0] => s[0].0));
                assert(decreases_to!(s[0] => s[0].1));
            }
        }
        if s.len() == 0 {
            Seq::empty()
        } else {
            seq![(s[0].0.model(), s[0].1.model())] + PyValue::model_pairs(
                s.subrange(1, s.len() as int),
            )
        }
    }
}

impl View for PyValue {
    type V = SpecValue;

    open spec fn view(&self) -> SpecValue {
        self.model()
    }
}

impl Clone for PyValue {
    /// A deep copy: the copy represents exactly the same mathematical value.
    #[verifier::loop_isolation(false)]
    fn clone(&self) -> (res: Self)
        ensures
            res@ == self@,
        decreases *self,
    {
        match self {
            PyValue::Mark => PyValue::Mark,
            PyValue::Bool(b) => PyValue::Bool(*b),
            PyValue::Int(i) => PyValue::Int(*i),
            PyValue::Str(s) => PyValue::Str(s.clone()),
            PyValue::Bytes(b) => {
                let mut out: Vec<u8> = Vec::new();
                let mut i: usize = 0;
                while i < b.len()
                    invariant
                        i <= b.len(),
                        out@ == b@.subrange(0, i as int),
                    decreases b.len() - i,
                {
                    out.push(b[i]);
                    i = i + 1;
                    proof {
                        assert(out@ =~= b@.subrange(0, i as int));
                    }
                }
                proof {
                    assert(out@ =~= b@);
                }
                PyValue::Bytes(out)
            }
            PyValue::Global(m, n) => PyValue::Global(m.clone(), n.clone()),
            PyValue::Tuple(vs) => {
                let mut out: Vec<PyValue> = Vec::new();
                let mut i: usize = 0;
                while i < vs.len()
                    invariant
                        i <= vs.len(),
                        out@.len() == i as int,
                        forall|j: int| 0 <= j < i as int ==> out@[j].model() == vs@[j].model(),
                    decreases vs.len() - i,
                {
                    proof {
                        assert(decreases_to!(*self => self->Tuple_0));
                        assert(decreases_to!(self->Tuple_0 => self->Tuple_0@));
                        assert(decreases_to!(self->Tuple_0@ => self->Tuple_0@[i as int]));
                    }
                    out.push(vs[i].clone());
                    i = i + 1;
                }
                proof {
                    lemma_model_elems(out@);
                    lemma_model_elems(vs@);
                    assert(PyValue::model_elems(out@) =~= PyValue::model_elems(vs@));
                }
                PyValue::Tuple(out)
            }
            PyValue::Dict(ps) => {
                let mut out: Vec<(PyValue, PyValue)> = Vec::new();
                let mut i: usize = 0;
                while i < ps.len()
                    invariant
                        i <= ps.len(),
                        out@.len() == i as int,
                        forall|j: int| 0 <= j < i as int ==> out@[j].0.model() == ps@[j].0.model()
                            && out@[j].1.model() == ps@[j].1.model(),
                    decreases ps.len() - i,
                {
                    proof {
                        assert(decreases_to!(*self => self->Dict_0));
                        assert(decreases_to!(self->Dict_0 => self->Dict_0@));
                        assert(decreases_to!(self->Dict_0@ => self->Dict_0@[i as int]));
                        assert(decreases_to!(self->Dict_0@[i as int] => self->Dict_0@[i as int].0));
                        assert(decreases_to!(self->Dict_0@[i as int] => self->Dict_0@[i as int].1));
                    }
                    let pair = &ps[i];
                    out.push((pair.0.clone(), pair.1.clone()));
                    i = i + 1;
                }
                proof {
                    lemma_model_pairs(out@);
                    lemma_model_pairs(ps@);
                    assert(PyValue::model_pairs(out@) =~= PyValue::model_pairs(ps@));
                }
                PyValue::Dict(out)
            }
            PyValue::Reduce(c, a) => PyValue::Reduce(
                Box::new((&**c).clone()),
                Box::new((&**a).clone()),
            ),
            PyValue::PersId(p) => PyValue::PersId(Box::new((&**p).clone())),
        }
    }
}

/// Element models distribute over indexing: `model_elems(s)` has one model
/// per node, in order.
pub proof fn lemma_model_elems(s: Seq<PyValue>)
    ensures
        PyValue::model_elems(s).len() == s.len(),
        forall|i: int| 0 <= i < s.len() ==> PyValue::model_elems(s)[i] == s[i].model(),
    decreases s.len(),
{
    if s.len() > 0 {
        lemma_model_elems(s.subrange(1, s.len() as int));
    }
}

/// Pair models distribute over indexing: `model_pairs(s)` has one model pair
/// per entry, in order.
pub proof fn lemma_model_pairs(s: Seq<(PyValue, PyValue)>)
    ensures
        PyValue::model_pairs(s).len() == s.len(),
        forall|i: int| 0 <= i < s.len() ==> PyValue::model_pairs(s)[i] == (
            s[i].0.model(),
            s[i].1.model(),
        ),
    decreases s.len(),
{
    if s.len() > 0 {
        lemma_model_pairs(s.subrange(1, s.len() as int));
    }
}

/// Models distribute over `push`.
pub proof fn lemma_model_elems_push(s: Seq<PyValue>, v: PyValue)
    ensures
        PyValue::model_elems(s.push(v)) == PyValue::model_elems(s).push(v.model()),
{
    lemma_model_elems(s.push(v));
    lemma_model_elems(s);
    assert(PyValue::model_elems(s.push(v)) =~= PyValue::model_elems(s).push(v.model()));
}

/// Models distribute over `subrange`.
pub proof fn lemma_model_elems_subrange(s: Seq<PyValue>, a: int, b: int)
    requires
        0 <= a <= b <= s.len(),
    ensures
        PyValue::model_elems(s.subrange(a, b)) == PyValue::model_elems(s).subrange(a, b),
{
    lemma_model_elems(s.subrange(a, b));
    lemma_model_elems(s);
    assert(PyValue::model_elems(s.subrange(a, b)) =~= PyValue::model_elems(s).subrange(a, b));
}

/// Pair models distribute over `subrange`.
pub proof fn lemma_model_pairs_subrange(s: Seq<(PyValue, PyValue)>, a: int, b: int)
    requires
        0 <= a <= b <= s.len(),
    ensures
        PyValue::model_pairs(s.subrange(a, b)) == PyValue::model_pairs(s).subrange(a, b),
{
    lemma_model_pairs(s.subrange(a, b));
    lemma_model_pairs(s);
    assert(PyValue::model_pairs(s.subrange(a, b)) =~= PyValue::model_pairs(s).subrange(a, b));
}

} // verus!
