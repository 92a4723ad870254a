//! Generic pre-order traversal over the value tree with early termination:
//! the visitor sees each node before its children, and its answer decides
//! whether that node's children are visited at all.

use vstd::prelude::*;
use crate::value::{PyValue, SpecValue};

verus! {

/// A visitor over the value tree. `visit_spec` is the visitor's mathematical
/// step — the new state and the descend decision as a function of the old
/// state and the node — and `visit` must follow it exactly.
pub trait PyValueVisitor: Sized {
    /// The mathematical step of one visit.
    spec fn visit_spec(self, v: PyValue) -> (Self, bool);

    /// Visits one node: updates the state and decides about the children.
    fn visit(&mut self, item: &PyValue) -> (descend: bool)
        ensures
            (*final(self), descend) == old(self).visit_spec(*item),
    ;
}

/// The visitor state after a full traversal of `v` from `st`: the node
/// first, then — only if the visitor asked to descend — its children in
/// construction order: tuple elements left to right, dictionary pairs key
/// then value, a recorded call its callable then its arguments, a persistent
/// reference its single inner value.
pub open spec fn spec_visit<V: PyValueVisitor>(st: V, v: PyValue) -> V
    decreases v,
{
    proof {
        match v {
            PyValue::Tuple(vs) => {
                assert(decreases_to!(v => v->Tuple_0));
                assert(decreases_to!(v->Tuple_0 => v->Tuple_0@));
            }
            PyValue::Dict(ps) => {
                assert(decreases_to!(v => v->Dict_0));
                assert(decreases_to!(v->Dict_0 => v->Dict_0@));
            }
            _ => {}
        }
    }
    {
        let stp = st.visit_spec(v);
        if !stp.1 {
            stp.0
        } else {
            match v {
                PyValue::Tuple(vs) => spec_visit_elems(stp.0, vs@),
                PyValue::Dict(ps) => spec_visit_pairs(stp.0, ps@),
                PyValue::Reduce(c, a) => spec_visit(spec_visit(stp.0, *c), *a),
                PyValue::PersId(p) => spec_visit(stp.0, *p),
                _ => stp.0,
            }
        }
    }
}

/// Traversal folded over a sequence of subtrees, in order.
pub open spec fn spec_visit_elems<V: PyValueVisitor>(st: V, vs: Seq<PyValue>) -> V
    decreases vs,
{
    proof {
        if vs.len() > 0 {
            assert(decreases_to!(vs => vs[0]));
            assert(decreases_to!(vs => vs.subrange(1, vs.len() as int)));
        }
    }
    if vs.len() == 0 {
        st
    } else {
        spec_visit_elems(spec_visit(st, vs[0]), vs.subrange(1, vs.len() as int))
    }
}

/// Traversal folded over key/value pairs: each key before its value, pairs
/// in order.
pub open spec fn spec_visit_pairs<V: PyValueVisitor>(st: V, ps: Seq<(PyValue, PyValue)>) -> V
    decreases ps,
{
    proof {
        if ps.len() > 0 {
            assert(decreases_to!(ps => ps[0]));
            assert(decreases_to!(ps[0] => ps[0].0));
            assert(decreases_to!(ps[0] => ps[0].1));
            assert(decreases_to!(ps => ps.subrange(1, ps.len() as int)));
        }
    }
    if ps.len() == 0 {
        st
    } else {
        spec_visit_pairs(spec_visit(spec_visit(st, ps[0].0), ps[0].1), ps.subrange(1, ps.len() as int))
    }
}

impl PyValue {
    /// Pre-order traversal with early termination: the visitor is called on
    /// each node before its children, and a `false` answer skips that
    /// subtree's children (the node itself was already visited).
    #[verifier::loop_isolation(false)]
    pub fn visit<V: PyValueVisitor>(&self, visitor: &mut V)
        ensures
            *final(visitor) == spec_visit(*old(visitor), *self),
        decreases *self,
    {
        let descend = visitor.visit(self);
        if !descend {
            return ;
        }
        match self {
            PyValue::Tuple(vs) => {
                let ghost st1 = *visitor;
                proof {
                    assert(vs@.subrange(0, vs@.len() as int) =~= vs@);
                }
                let mut i: usize = 0;
                while i < vs.len()
                    invariant
                        i <= vs@.len(),
                        spec_visit_elems(st1, vs@) == spec_visit_elems(
                            *visitor,
                            vs@.subrange(i as int, vs@.len() as int),
                        ),
                    decreases vs@.len() - i,
                {
                    proof {
                        assert(decreases_to!(*self => self->Tuple_0));
                        assert(decreases_to!(self->Tuple_0 => self->Tuple_0@));
                        assert(decreases_to!(self->Tuple_0@ => self->Tuple_0@[i as int]));
                        assert(vs@.subrange(i as int, vs@.len() as int)[0] == vs@[i as int]);
                        assert(vs@.subrange(i as int, vs@.len() as int).subrange(
                            1,
                            vs@.subrange(i as int, vs@.len() as int).len() as int,
                        ) =~= vs@.subrange(i as int + 1, vs@.len() as int));
                    }
                    vs[i].visit(visitor);
                    i = i + 1;
                }
                proof {
                    assert(vs@.subrange(vs@.len() as int, vs@.len() as int) =~= Seq::<
                        PyValue,
                    >::empty());
                }
            }
            PyValue::Dict(ps) => {
                let ghost st1 = *visitor;
                proof {
                    assert(ps@.subrange(0, ps@.len() as int) =~= ps@);
                }
                let mut i: usize = 0;
                while i < ps.len()
                    invariant
                        i <= ps@.len(),
                        spec_visit_pairs(st1, ps@) == spec_visit_pairs(
                            *visitor,
                            ps@.subrange(i as int, ps@.len() as int),
                        ),
                    decreases ps@.len() - i,
                {
                    proof {
                        assert(decreases_to!(*self => self->Dict_0));
                        assert(decreases_to!(self->Dict_0 => self->Dict_0@));
                        assert(decreases_to!(self->Dict_0@ => self->Dict_0@[i as int]));
                        assert(decreases_to!(self->Dict_0@[i as int] => self->Dict_0@[i as int].0));
                        assert(decreases_to!(self->Dict_0@[i as int] => self->Dict_0@[i as int].1));
                        assert(ps@.subrange(i as int, ps@.len() as int)[0] == ps@[i as int]);
                        assert(ps@.subrange(i as int, ps@.len() as int).subrange(
                            1,
                            ps@.subrange(i as int, ps@.len() as int).len() as int,
                        ) =~= ps@.subrange(i as int + 1, ps@.len() as int));
                    }
                    let pair = &ps[i];
                    pair.0.visit(visitor);
                    pair.1.visit(visitor);
                    i = i + 1;
                }
                proof {
                    assert(ps@.subrange(ps@.len() as int, ps@.len() as int) =~= Seq::<
                        (PyValue, PyValue),
                    >::empty());
                }
            }
            PyValue::Reduce(c, a) => {
                (&**c).visit(visitor);
                (&**a).visit(visitor);
            }
            PyValue::PersId(p) => {
                (&**p).visit(visitor);
            }
            _ => {}
        }
    }
}

/// A visitor that answers whether the tree holds a persistent reference: it
/// stops descending once one is seen.
pub struct PersIdProbe {
    /// Whether a persistent reference has been seen.
    pub seen: bool,
}

impl PyValueVisitor for PersIdProbe {
    open spec fn visit_spec(self, v: PyValue) -> (Self, bool) {
        if self.seen {
            (self, false)
        } else if v is PersId {
            (PersIdProbe { seen: true }, false)
        } else {
            (self, true)
        }
    }

    fn visit(&mut self, item: &PyValue) -> (descend: bool) {
        if self.seen {
            return false;
        }
        match item {
            PyValue::PersId(_) => {
                self.seen = true;
                false
            }
            _ => true,
        }
    }
}

} // verus!

verus! {

/// The probe answers exactly the searcher's question: after a traversal the
/// probe has seen a persistent reference if and only if it had seen one
/// before, or the pre-order search finds one in the tree.
pub proof fn lemma_probe_finds_persid(st: PersIdProbe, v: PyValue)
    ensures
        spec_visit(st, v).seen == (st.seen || crate::pth::spec_first_persid(v@) is Some),
    decreases v,
{
    if !st.seen {
        match v {
            PyValue::PersId(p) => {
                assert(v@ == SpecValue::PersId(Box::new((*p)@)));
            }
            PyValue::Tuple(vs) => {
                assert(decreases_to!(v => v->Tuple_0));
                assert(decreases_to!(v->Tuple_0 => v->Tuple_0@));
                assert(v@ == SpecValue::Tuple(PyValue::model_elems(vs@)));
                lemma_probe_elems(st, vs@);
            }
            PyValue::Dict(ps) => {
                assert(decreases_to!(v => v->Dict_0));
                assert(decreases_to!(v->Dict_0 => v->Dict_0@));
                assert(v@ == SpecValue::Dict(PyValue::model_pairs(ps@)));
                lemma_probe_pairs(st, ps@);
            }
            PyValue::Reduce(c, a) => {
                assert(v@ == SpecValue::Reduce(Box::new((*c)@), Box::new((*a)@)));
                lemma_probe_finds_persid(st, *c);
                lemma_probe_finds_persid(spec_visit(st, *c), *a);
            }
            _ => {
            }
        }
    }
}

/// The probe over a sequence of subtrees, against the search across their
/// models.
proof fn lemma_probe_elems(st: PersIdProbe, vs: Seq<PyValue>)
    ensures
        spec_visit_elems(st, vs).seen == (st.seen || crate::pth::spec_first_persid_in(
            PyValue::model_elems(vs),
        ) is Some),
    decreases vs,
{
    crate::value::lemma_model_elems(vs);
    if vs.len() > 0 {
        assert(decreases_to!(vs => vs[0]));
        assert(decreases_to!(vs => vs.subrange(1, vs.len() as int)));
        lemma_probe_finds_persid(st, vs[0]);
        lemma_probe_elems(spec_visit(st, vs[0]), vs.subrange(1, vs.len() as int));
        crate::value::lemma_model_elems_subrange(vs, 1, vs.len() as int);
        assert(PyValue::model_elems(vs)[0] == vs[0]@);
        assert(PyValue::model_elems(vs).subrange(1, PyValue::model_elems(vs).len() as int)
            == PyValue::model_elems(vs.subrange(1, vs.len() as int)));
    }
}

/// The probe over key/value pairs, against the search across their models.
proof fn lemma_probe_pairs(st: PersIdProbe, ps: Seq<(PyValue, PyValue)>)
    ensures
        spec_visit_pairs(st, ps).seen == (st.seen || crate::pth::spec_first_persid_in_pairs(
            PyValue::model_pairs(ps),
        ) is Some),
    decreases ps,
{
    crate::value::lemma_model_pairs(ps);
    if ps.len() > 0 {
        assert(decreases_to!(ps => ps[0]));
        assert(decreases_to!(ps[0] => ps[0].0));
        assert(decreases_to!(ps[0] => ps[0].1));
        assert(decreases_to!(ps => ps.subrange(1, ps.len() as int)));
        lemma_probe_finds_persid(st, ps[0].0);
        lemma_probe_finds_persid(spec_visit(st, ps[0].0), ps[0].1);
        lemma_probe_pairs(
            spec_visit(spec_visit(st, ps[0].0), ps[0].1),
            ps.subrange(1, ps.len() as int),
        );
        crate::value::lemma_model_pairs_subrange(ps, 1, ps.len() as int);
        assert(PyValue::model_pairs(ps)[0] == (ps[0].0@, ps[0].1@));
        assert(PyValue::model_pairs(ps).subrange(1, PyValue::model_pairs(ps).len() as int)
            == PyValue::model_pairs(ps.subrange(1, ps.len() as int)));
    }
}

} // verus!
