//! The tensor locator: walks a decoded object graph to find the tensor-state
//! mapping and extracts, for each entry, the element type, shape and storage
//! location of one tensor inside its archive.

use vstd::prelude::*;
use crate::machine::{PickleError, spec_load};
use crate::pickle::Unpickler;
use crate::value::{PyValue, SpecValue, lemma_model_elems, lemma_model_pairs};
use vstd::string::StrSliceExecFns;

verus! {

/// Everything that makes a conversion give up beyond the interpreter's own
/// errors.
#[derive(Clone, Copy, Debug, PartialEq, Eq, Structural)]
pub enum PthError {
    /// The embedded graph description failed to decode.
    Pickle(PickleError),
    /// A storage class name outside the fixed element-type table.
    UnknownStorage,
    /// A shape dimension that is negative or does not fit the machine.
    MalformedShape,
    /// A persistent reference whose inner tuple is too short, or rebuild
    /// arguments too short to index.
    MalformedEntry,
    /// An element count that is negative or does not fit the machine.
    BadElementCount,
    /// A graph-description entry path without a directory separator.
    BadEntryPath,
    /// An archive whose container structure cannot be read.
    BadArchive,
    /// A named entry that cannot be read back from its archive.
    MissingEntry,
    /// An entry holding fewer bytes than the descriptor requires.
    ShortEntry,
}

/// A fatal conversion error together with the position, in input order, of
/// the archive it arose in; the caller holds the archive list and can name
/// the path.
#[derive(Clone, Copy, Debug, PartialEq, Eq, Structural)]
pub struct PthFailure {
    /// Index of the failing archive in the input order.
    pub archive: usize,
    /// What went wrong there.
    pub error: PthError,
}

/// The fixed set of element types understood by the locator.
#[derive(Clone, Copy, Debug, PartialEq, Eq, Structural)]
pub enum PthDtype {
    FP32,
    FP16,
    BF16,
}

impl PthDtype {
    /// Bytes per element.
    pub open spec fn spec_size(self) -> int {
        match self {
            PthDtype::FP32 => 4,
            PthDtype::FP16 => 2,
            PthDtype::BF16 => 2,
        }
    }

    /// Bytes per element.
    pub fn size(self) -> (r: usize)
        ensures
            r == self.spec_size(),
    {
        match self {
            PthDtype::FP32 => 4,
            PthDtype::FP16 => 2,
            PthDtype::BF16 => 2,
        }
    }

    /// The fixed storage-class-name table; any other name is unknown.
    pub open spec fn spec_of_name(name: Seq<char>) -> Option<PthDtype> {
        if name == "Float32Storage"@ {
            Some(PthDtype::FP32)
        } else if name == "Float16Storage"@ {
            Some(PthDtype::FP16)
        } else if name == "BFloat16Storage"@ {
            Some(PthDtype::BF16)
        } else {
            None
        }
    }

    /// Looks a storage class name up in the fixed table; an unknown name is a
    /// fatal error.
    pub fn try_from(value: &str) -> (r: Result<PthDtype, PthError>)
        ensures
            match r {
                Ok(d) => Self::spec_of_name(value@) == Some(d),
                Err(e) => Self::spec_of_name(value@) is None && e == PthError::UnknownStorage,
            },
    {
        let v: String = value.to_owned();
        if v == "Float32Storage".to_owned() {
            Ok(PthDtype::FP32)
        } else if v == "Float16Storage".to_owned() {
            Ok(PthDtype::FP16)
        } else if v == "BFloat16Storage".to_owned() {
            Ok(PthDtype::BF16)
        } else {
            Err(PthError::UnknownStorage)
        }
    }
}

/// The first persistent reference in a pre-order walk of `v`, unwrapped.
pub open spec fn spec_first_persid(v: SpecValue) -> Option<SpecValue>
    decreases v,
{
    proof {
        match v {
            SpecValue::Tuple(vs) => {
                assert(decreases_to!(v => v->Tuple_0));
            }
            SpecValue::Dict(ps) => {
                assert(decreases_to!(v => v->Dict_0));
            }
            _ => {}
        }
    }
    match v {
        SpecValue::PersId(inner) => Some(*inner),
        SpecValue::Tuple(vs) => spec_first_persid_in(vs),
        SpecValue::Dict(ps) => spec_first_persid_in_pairs(ps),
        SpecValue::Reduce(c, a) => match spec_first_persid(*c) {
            Some(r) => Some(r),
            None => spec_first_persid(*a),
        },
        _ => None,
    }
}

/// The first persistent reference across a sequence of subtrees, in order.
pub open spec fn spec_first_persid_in(vs: Seq<SpecValue>) -> Option<SpecValue>
    decreases vs,
{
    proof {
        if vs.len() > 0 {
            assert(decreases_to!(vs => vs[0]));
            assert(decreases_to!(vs => vs.subrange(1, vs.len() as int)));
        }
    }
    if vs.len() == 0 {
        None
    } else {
        match spec_first_persid(vs[0]) {
            Some(r) => Some(r),
            None => spec_first_persid_in(vs.subrange(1, vs.len() as int)),
        }
    }
}

/// The first persistent reference across key/value pairs: each key before its
/// value, pairs in order.
pub open spec fn spec_first_persid_in_pairs(ps: Seq<(SpecValue, SpecValue)>) -> Option<SpecValue>
    decreases ps,
{
    proof {
        if ps.len() > 0 {
            assert(decreases_to!(ps => ps[0]));
            assert(decreases_to!(ps[0] => ps[0].0));
            assert(decreases_to!(ps[0] => ps[0].1));
            assert(decreases_to!(ps => ps.subrange(1, ps.len() as int)));
        }
    }
    if ps.len() == 0 {
        None
    } else {
        match spec_first_persid(ps[0].0) {
            Some(r) => Some(r),
            None => match spec_first_persid(ps[0].1) {
                Some(r) => Some(r),
                None => spec_first_persid_in_pairs(ps.subrange(1, ps.len() as int)),
            },
        }
    }
}

/// The first persistent reference in a pre-order walk of the tree, with its
/// wrapper removed; `None` when the tree holds none.
#[verifier::loop_isolation(false)]
pub fn first_persid(pyv: &PyValue) -> (r: Option<PyValue>)
    ensures
        match r {
            Some(v) => spec_first_persid(pyv@) == Some(v@),
            None => spec_first_persid(pyv@) is None,
        },
    decreases *pyv,
{
    match pyv {
        PyValue::PersId(inner) => Some((&**inner).clone()),
        PyValue::Tuple(vs) => {
            proof {
                lemma_model_elems(vs@);
                assert(PyValue::model_elems(vs@).subrange(0, vs@.len() as int) =~= PyValue::model_elems(vs@));
            }
            let mut i: usize = 0;
            while i < vs.len()
                invariant
                    i <= vs@.len(),
                    forall|j: int| 0 <= j < i as int ==> spec_first_persid(
                        #[trigger] vs@[j]@,
                    ) is None,
                    spec_first_persid_in(PyValue::model_elems(vs@)) == spec_first_persid_in(
                        PyValue::model_elems(vs@).subrange(i as int, vs@.len() as int),
                    ),
                decreases vs@.len() - i,
            {
                proof {
                    assert(decreases_to!(*pyv => pyv->Tuple_0));
                    assert(decreases_to!(pyv->Tuple_0 => pyv->Tuple_0@));
                    assert(decreases_to!(pyv->Tuple_0@ => pyv->Tuple_0@[i as int]));
                }
                let found = first_persid(&vs[i]);
                proof {
                    let s = PyValue::model_elems(vs@);
                    assert(s.subrange(i as int, vs@.len() as int)[0] == s[i as int]);
                    assert(s.subrange(i as int, vs@.len() as int).subrange(
                        1,
                        s.subrange(i as int, vs@.len() as int).len() as int,
                    ) =~= s.subrange(i as int + 1, vs@.len() as int));
                }
                if let Some(v) = found {
                    return Some(v);
                }
                i = i + 1;
            }
            proof {
                assert(PyValue::model_elems(vs@).subrange(
                    vs@.len() as int,
                    vs@.len() as int,
                ) =~= Seq::<SpecValue>::empty());
            }
            None
        }
        PyValue::Dict(ps) => {
            proof {
                lemma_model_pairs(ps@);
                assert(PyValue::model_pairs(ps@).subrange(0, ps@.len() as int) =~= PyValue::model_pairs(ps@));
            }
            let mut i: usize = 0;
            while i < ps.len()
                invariant
                    i <= ps@.len(),
                    spec_first_persid_in_pairs(PyValue::model_pairs(ps@))
                        == spec_first_persid_in_pairs(PyValue::model_pairs(ps@).subrange(
                        i as int,
                        ps@.len() as int,
                    )),
                decreases ps@.len() - i,
            {
                proof {
                    assert(decreases_to!(*pyv => pyv->Dict_0));
                    assert(decreases_to!(pyv->Dict_0 => pyv->Dict_0@));
                    assert(decreases_to!(pyv->Dict_0@ => pyv->Dict_0@[i as int]));
                    assert(decreases_to!(pyv->Dict_0@[i as int] => pyv->Dict_0@[i as int].0));
                    assert(decreases_to!(pyv->Dict_0@[i as int] => pyv->Dict_0@[i as int].1));
                }
                let pair = &ps[i];
                let fk = first_persid(&pair.0);
                proof {
                    let s = PyValue::model_pairs(ps@);
                    assert(s.subrange(i as int, ps@.len() as int)[0] == s[i as int]);
                    assert(s.subrange(i as int, ps@.len() as int).subrange(
                        1,
                        s.subrange(i as int, ps@.len() as int).len() as int,
                    ) =~= s.subrange(i as int + 1, ps@.len() as int));
                }
                if let Some(v) = fk {
                    return Some(v);
                }
                let fv = first_persid(&pair.1);
                if let Some(v) = fv {
                    return Some(v);
                }
                i = i + 1;
            }
            proof {
                assert(PyValue::model_pairs(ps@).subrange(
                    ps@.len() as int,
                    ps@.len() as int,
                ) =~= Seq::<(SpecValue, SpecValue)>::empty());
            }
            None
        }
        PyValue::Reduce(c, a) => {
            let fc = first_persid(&**c);
            if let Some(v) = fc {
                return Some(v);
            }
            first_persid(&**a)
        }
        _ => None,
    }
}

} // verus!

verus! {

/// Module name of the tensor-reconstruction callable.
pub open spec fn rebuild_module() -> Seq<char> {
    "torch._utils"@
}

/// Qualified name of the tensor-reconstruction callable.
pub open spec fn rebuild_name() -> Seq<char> {
    "_rebuild_tensor_v2"@
}

/// A recorded call of the tensor-reconstruction callable.
pub open spec fn is_rebuild_reduce(v: SpecValue) -> bool {
    &&& v is Reduce
    &&& *v->Reduce_0 is Global
    &&& (*v->Reduce_0)->Global_0 == rebuild_module()
    &&& (*v->Reduce_0)->Global_1 == rebuild_name()
}

/// A dictionary whose first pair looks like a tensor entry: a text key and a
/// rebuild call as value. Only the first pair is inspected — a deliberate,
/// narrow convention of the checkpoint layout.
pub open spec fn is_tensor_root(v: SpecValue) -> bool {
    &&& v is Dict
    &&& v->Dict_0.len() > 0
    &&& v->Dict_0[0].0 is Str
    &&& is_rebuild_reduce(v->Dict_0[0].1)
}

/// The first node in a pre-order walk that is a tensor-state root.
pub open spec fn spec_find_root(v: SpecValue) -> Option<SpecValue>
    decreases v,
{
    proof {
        match v {
            SpecValue::Tuple(vs) => {
                assert(decreases_to!(v => v->Tuple_0));
            }
            SpecValue::Dict(ps) => {
                assert(decreases_to!(v => v->Dict_0));
            }
            _ => {}
        }
    }
    if is_tensor_root(v) {
        Some(v)
    } else {
        match v {
            SpecValue::Tuple(vs) => spec_find_root_in(vs),
            SpecValue::Dict(ps) => spec_find_root_in_pairs(ps),
            SpecValue::Reduce(c, a) => match spec_find_root(*c) {
                Some(r) => Some(r),
                None => spec_find_root(*a),
            },
            SpecValue::PersId(p) => spec_find_root(*p),
            _ => None,
        }
    }
}

/// The first tensor-state root across a sequence of subtrees, in order.
pub open spec fn spec_find_root_in(vs: Seq<SpecValue>) -> Option<SpecValue>
    decreases vs,
{
    proof {
        if vs.len() > 0 {
            assert(decreases_to!(vs => vs[0]));
            assert(decreases_to!(vs => vs.subrange(1, vs.len() as int)));
        }
    }
    if vs.len() == 0 {
        None
    } else {
        match spec_find_root(vs[0]) {
            Some(r) => Some(r),
            None => spec_find_root_in(vs.subrange(1, vs.len() as int)),
        }
    }
}

/// The first tensor-state root across key/value pairs: each key before its
/// value, pairs in order.
pub open spec fn spec_find_root_in_pairs(ps: Seq<(SpecValue, SpecValue)>) -> Option<SpecValue>
    decreases ps,
{
    proof {
        if ps.len() > 0 {
            assert(decreases_to!(ps => ps[0]));
            assert(decreases_to!(ps[0] => ps[0].0));
            assert(decreases_to!(ps[0] => ps[0].1));
            assert(decreases_to!(ps => ps.subrange(1, ps.len() as int)));
        }
    }
    if ps.len() == 0 {
        None
    } else {
        match spec_find_root(ps[0].0) {
            Some(r) => Some(r),
            None => match spec_find_root(ps[0].1) {
                Some(r) => Some(r),
                None => spec_find_root_in_pairs(ps.subrange(1, ps.len() as int)),
            },
        }
    }
}

/// Whether this node is a tensor-state root.
fn is_root_exec(v: &PyValue) -> (r: bool)
    ensures
        r == is_tensor_root(v@),
{
    match v {
        PyValue::Dict(ps) => {
            proof {
                lemma_model_pairs(ps@);
            }
            if ps.len() == 0 {
                return false;
            }
            let pair = &ps[0];
            let key_is_text = match &pair.0 {
                PyValue::Str(_) => true,
                _ => false,
            };
            if !key_is_text {
                return false;
            }
            match &pair.1 {
                PyValue::Reduce(c, _a) => match &**c {
                    PyValue::Global(m, n) => {
                        let meq = *m == "torch._utils".to_owned();
                        let neq = *n == "_rebuild_tensor_v2".to_owned();
                        proof {
                            assert(v@ is Dict);
                            assert(v@->Dict_0 == PyValue::model_pairs(ps@));
                            assert(v@->Dict_0[0].1 == ps@[0].1@);
                            assert(ps@[0].1 is Reduce);
                            assert(ps@[0].1.model() == SpecValue::Reduce(
                                Box::new((*ps@[0].1->Reduce_0).model()),
                                Box::new((*ps@[0].1->Reduce_1).model()),
                            ));
                            assert(ps@[0].1@ is Reduce);
                            assert(*ps@[0].1@->Reduce_0 is Global);
                            assert((*ps@[0].1@->Reduce_0)->Global_0 == m@);
                        }
                        meq && neq
                    }
                    _ => false,
                },
                _ => false,
            }
        }
        _ => false,
    }
}

/// The first tensor-state root in a pre-order walk of the tree, if any.
#[verifier::loop_isolation(false)]
pub fn find_root(pyv: &PyValue) -> (r: Option<&PyValue>)
    ensures
        match r {
            Some(d) => spec_find_root(pyv@) == Some(d@),
            None => spec_find_root(pyv@) is None,
        },
    decreases *pyv,
{
    if is_root_exec(pyv) {
        return Some(pyv);
    }
    match pyv {
        PyValue::Tuple(vs) => {
            proof {
                lemma_model_elems(vs@);
                assert(PyValue::model_elems(vs@).subrange(0, vs@.len() as int)
                    =~= PyValue::model_elems(vs@));
            }
            let mut i: usize = 0;
            while i < vs.len()
                invariant
                    i <= vs@.len(),
                    spec_find_root_in(PyValue::model_elems(vs@)) == spec_find_root_in(
                        PyValue::model_elems(vs@).subrange(i as int, vs@.len() as int),
                    ),
                decreases vs@.len() - i,
            {
                proof {
                    assert(decreases_to!(*pyv => pyv->Tuple_0));
                    assert(decreases_to!(pyv->Tuple_0 => pyv->Tuple_0@));
                    assert(decreases_to!(pyv->Tuple_0@ => pyv->Tuple_0@[i as int]));
                }
                let found = find_root(&vs[i]);
                proof {
                    let s = PyValue::model_elems(vs@);
                    assert(s.subrange(i as int, vs@.len() as int)[0] == s[i as int]);
                    assert(s.subrange(i as int, vs@.len() as int).subrange(
                        1,
                        s.subrange(i as int, vs@.len() as int).len() as int,
                    ) =~= s.subrange(i as int + 1, vs@.len() as int));
                }
                if let Some(d) = found {
                    return Some(d);
                }
                i = i + 1;
            }
            proof {
                assert(PyValue::model_elems(vs@).subrange(vs@.len() as int, vs@.len() as int)
                    =~= Seq::<SpecValue>::empty());
            }
            None
        }
        PyValue::Dict(ps) => {
            proof {
                lemma_model_pairs(ps@);
                assert(PyValue::model_pairs(ps@).subrange(0, ps@.len() as int)
                    =~= PyValue::model_pairs(ps@));
            }
            let mut i: usize = 0;
            while i < ps.len()
                invariant
                    i <= ps@.len(),
                    spec_find_root_in_pairs(PyValue::model_pairs(ps@))
                        == spec_find_root_in_pairs(PyValue::model_pairs(ps@).subrange(
                        i as int,
                        ps@.len() as int,
                    )),
                decreases ps@.len() - i,
            {
                proof {
                    assert(decreases_to!(*pyv => pyv->Dict_0));
                    assert(decreases_to!(pyv->Dict_0 => pyv->Dict_0@));
                    assert(decreases_to!(pyv->Dict_0@ => pyv->Dict_0@[i as int]));
                    assert(decreases_to!(pyv->Dict_0@[i as int] => pyv->Dict_0@[i as int].0));
                    assert(decreases_to!(pyv->Dict_0@[i as int] => pyv->Dict_0@[i as int].1));
                }
                let pair = &ps[i];
                let fk = find_root(&pair.0);
                proof {
                    let s = PyValue::model_pairs(ps@);
                    assert(s.subrange(i as int, ps@.len() as int)[0] == s[i as int]);
                    assert(s.subrange(i as int, ps@.len() as int).subrange(
                        1,
                        s.subrange(i as int, ps@.len() as int).len() as int,
                    ) =~= s.subrange(i as int + 1, ps@.len() as int));
                }
                if let Some(d) = fk {
                    return Some(d);
                }
                let fv = find_root(&pair.1);
                if let Some(d) = fv {
                    return Some(d);
                }
                i = i + 1;
            }
            proof {
                assert(PyValue::model_pairs(ps@).subrange(ps@.len() as int, ps@.len() as int)
                    =~= Seq::<(SpecValue, SpecValue)>::empty());
            }
            None
        }
        PyValue::Reduce(c, a) => {
            let fc = find_root(&**c);
            if let Some(d) = fc {
                return Some(d);
            }
            find_root(&**a)
        }
        PyValue::PersId(p) => find_root(&**p),
        _ => None,
    }
}

} // verus!

verus! {

/// Mathematical descriptor of one tensor: what it is and where its bytes
/// live.
pub struct SpecTensorLoc {
    pub dtype: PthDtype,
    pub zipfile: Seq<char>,
    pub zip_inner_file: Seq<char>,
    pub nelements: usize,
    pub shape: Seq<usize>,
}

/// Immutable descriptor of one tensor: element type, owning archive path,
/// inner entry path, element count and shape. It holds no tensor bytes;
/// they are fetched on demand from the archive.
pub struct PthTensorLoc {
    dtype: PthDtype,
    zipfile: String,
    zip_inner_file: String,
    nelements: usize,
    shape: Vec<usize>,
}

impl View for PthTensorLoc {
    type V = SpecTensorLoc;

    closed spec fn view(&self) -> SpecTensorLoc {
        SpecTensorLoc {
            dtype: self.dtype,
            zipfile: self.zipfile@,
            zip_inner_file: self.zip_inner_file@,
            nelements: self.nelements,
            shape: self.shape@,
        }
    }
}

impl PthTensorLoc {
    /// The byte length always fits the machine.
    #[verifier::type_invariant]
    spec fn inv(self) -> bool {
        self.nelements * self.dtype.spec_size() <= usize::MAX
    }

    /// The element type.
    pub fn dtype(&self) -> (r: PthDtype)
        ensures
            r == self@.dtype,
    {
        self.dtype
    }

    /// The path of the owning archive.
    pub fn zipfile(&self) -> (r: &String)
        ensures
            r@ == self@.zipfile,
    {
        &self.zipfile
    }

    /// The path of the storage entry inside the owning archive.
    pub fn zip_inner_file(&self) -> (r: &String)
        ensures
            r@ == self@.zip_inner_file,
    {
        &self.zip_inner_file
    }

    /// The element count.
    pub fn nelements(&self) -> (r: usize)
        ensures
            r == self@.nelements,
    {
        self.nelements
    }

    /// The dimensions, outermost first.
    pub fn shape(&self) -> (r: &Vec<usize>)
        ensures
            r@ == self@.shape,
    {
        &self.shape
    }

    /// A copy representing the same descriptor.
    #[verifier::loop_isolation(false)]
    pub fn duplicate(&self) -> (r: PthTensorLoc)
        ensures
            r@ == self@,
    {
        proof {
            use_type_invariant(self);
        }
        let mut shape: Vec<usize> = Vec::new();
        let mut i: usize = 0;
        while i < self.shape.len()
            invariant
                i <= self.shape@.len(),
                shape@ == self.shape@.subrange(0, i as int),
            decreases self.shape@.len() - i,
        {
            shape.push(self.shape[i]);
            i = i + 1;
            proof {
                assert(shape@ =~= self.shape@.subrange(0, i as int));
            }
        }
        proof {
            assert(shape@ =~= self.shape@);
        }
        PthTensorLoc {
            dtype: self.dtype,
            zipfile: self.zipfile.clone(),
            zip_inner_file: self.zip_inner_file.clone(),
            nelements: self.nelements,
            shape,
        }
    }

    /// Total byte length: element count times bytes per element.
    pub fn data_len(&self) -> (r: usize)
        ensures
            r == self@.nelements * self@.dtype.spec_size(),
    {
        proof {
            use_type_invariant(self);
        }
        self.nelements * self.dtype.size()
    }
}

/// The index of the last path separator, if any.
pub open spec fn rfind_slash(s: Seq<char>) -> Option<int>
    decreases s.len(),
{
    if s.len() == 0 {
        None
    } else if s.last() == '/' {
        Some(s.len() - 1)
    } else {
        rfind_slash(s.drop_last())
    }
}

/// The inner-archive path of a storage file: the graph-description entry's
/// directory, then `data/`, then the storage file name.
pub open spec fn spec_inner_path(pkl: Seq<char>, zfn: Seq<char>) -> Seq<char>
    recommends
        rfind_slash(pkl) is Some,
{
    pkl.subrange(0, rfind_slash(pkl)->Some_0) + "/data/"@ + zfn
}

/// The index of the last path separator, if any.
#[verifier::loop_isolation(false)]
fn rfind_slash_exec(s: &str) -> (r: Option<usize>)
    ensures
        match r {
            Some(i) => rfind_slash(s@) == Some(i as int) && i < s@.len(),
            None => rfind_slash(s@) is None,
        },
{
    let n = s.unicode_len();
    let mut i: usize = n;
    proof {
        assert(s@.subrange(0, n as int) =~= s@);
    }
    while i > 0
        invariant
            i <= n,
            n as int == s@.len(),
            rfind_slash(s@) == rfind_slash(s@.subrange(0, i as int)),
        decreases i,
    {
        let c = s.get_char(i - 1);
        proof {
            assert(s@.subrange(0, i as int).last() == s@[i as int - 1]);
            assert(s@.subrange(0, i as int).drop_last() =~= s@.subrange(0, i as int - 1));
        }
        if c == '/' {
            return Some(i - 1);
        }
        i = i - 1;
    }
    None
}

/// Builds the inner-archive path from the entry's directory prefix and the
/// storage file name.
fn build_inner_path(pkl: &String, sl: usize, zfn: &String) -> (r: String)
    requires
        sl as int <= pkl@.len(),
    ensures
        r@ == pkl@.subrange(0, sl as int) + "/data/"@ + zfn@,
{
    let base = pkl.as_str().substring_char(0, sl);
    let mut out: String = base.to_owned();
    out.append("/data/");
    out.append(zfn.as_str());
    out
}

/// What reading a shape tuple yields: the dimensions; a mismatch — an
/// element that is no integer at all, so the entry simply does not look like
/// a tensor entry and is skipped; or a fatal error — an integer dimension
/// that is negative or does not fit the machine.
pub enum ShapeOutcome {
    Dims(Seq<usize>),
    Mismatch,
    Fatal(PthError),
}

/// Dimensions from a shape tuple, element by element, leftmost verdict
/// first.
pub open spec fn spec_dims(vs: Seq<SpecValue>) -> ShapeOutcome
    decreases vs.len(),
{
    if vs.len() == 0 {
        ShapeOutcome::Dims(Seq::empty())
    } else {
        match spec_dims(vs.drop_last()) {
            ShapeOutcome::Mismatch => ShapeOutcome::Mismatch,
            ShapeOutcome::Fatal(e) => ShapeOutcome::Fatal(e),
            ShapeOutcome::Dims(ds) => {
                if !(vs.last() is Int) {
                    ShapeOutcome::Mismatch
                } else if 0 <= vs.last()->Int_0 <= usize::MAX {
                    ShapeOutcome::Dims(ds.push(vs.last()->Int_0 as usize))
                } else {
                    ShapeOutcome::Fatal(PthError::MalformedShape)
                }
            }
        }
    }
}

/// The declared shape: the third rebuild argument when it is a tuple of
/// integers, and empty when that argument is not a tuple.
pub open spec fn spec_shape_of(v: SpecValue) -> ShapeOutcome {
    if v is Tuple {
        spec_dims(v->Tuple_0)
    } else {
        ShapeOutcome::Dims(Seq::empty())
    }
}

/// What one dictionary pair contributes: nothing, one named descriptor, or a
/// fatal error.
pub enum EntryOutcome {
    Skip,
    Take(Seq<char>, SpecTensorLoc),
    Fatal(PthError),
}

/// The locator's judgement of one dictionary pair, mirroring the checkpoint
/// convention: a text key naming the tensor, a rebuild call as value, the
/// shape in the third argument, and the storage reference found as the first
/// persistent reference anywhere below the arguments.
pub open spec fn spec_entry(
    k: SpecValue,
    v: SpecValue,
    pkl: Seq<char>,
    zipfile: Seq<char>,
) -> EntryOutcome {
    if !(k is Str) || !(v is Reduce) {
        EntryOutcome::Skip
    } else if !is_rebuild_reduce(v) {
        EntryOutcome::Skip
    } else if !(*v->Reduce_1 is Tuple) {
        EntryOutcome::Skip
    } else {
        let ivs = (*v->Reduce_1)->Tuple_0;
        if ivs.len() < 3 {
            EntryOutcome::Fatal(PthError::MalformedEntry)
        } else {
            match spec_shape_of(ivs[2]) {
                ShapeOutcome::Mismatch => EntryOutcome::Skip,
                ShapeOutcome::Fatal(e) => EntryOutcome::Fatal(e),
                ShapeOutcome::Dims(shape) => match spec_first_persid(*v->Reduce_1) {
                    None => EntryOutcome::Skip,
                    Some(pid) => {
                        if !(pid is Tuple) {
                            EntryOutcome::Skip
                        } else {
                            match rfind_slash(pkl) {
                                None => EntryOutcome::Fatal(PthError::BadEntryPath),
                                Some(sl) => {
                                    let tvs = pid->Tuple_0;
                                    if tvs.len() < 5 {
                                        EntryOutcome::Fatal(PthError::MalformedEntry)
                                    } else if !(tvs[1] is Global) || !(tvs[2] is Str) || !(
                                    tvs[4] is Int) {
                                        EntryOutcome::Skip
                                    } else {
                                        match PthDtype::spec_of_name(tvs[1]->Global_1) {
                                            None => EntryOutcome::Fatal(PthError::UnknownStorage),
                                            Some(dt) => {
                                                let size = tvs[4]->Int_0;
                                                if size < 0 || size * dt.spec_size()
                                                    > usize::MAX {
                                                    EntryOutcome::Fatal(PthError::BadElementCount)
                                                } else {
                                                    EntryOutcome::Take(
                                                        k->Str_0,
                                                        SpecTensorLoc {
                                                            dtype: dt,
                                                            zipfile: zipfile,
                                                            zip_inner_file: spec_inner_path(
                                                                pkl,
                                                                tvs[2]->Str_0,
                                                            ),
                                                            nelements: size as usize,
                                                            shape: shape,
                                                        },
                                                    )
                                                }
                                            }
                                        }
                                    }
                                }
                            }
                        }
                    }
                },
            }
        }
    }
}

} // verus!

verus! {

/// Pairwise agreement between executable descriptors and their models.
pub open spec fn locs_match(
    v: Seq<(String, PthTensorLoc)>,
    s: Seq<(Seq<char>, SpecTensorLoc)>,
) -> bool {
    &&& v.len() == s.len()
    &&& forall|i: int| 0 <= i < v.len() ==> (#[trigger] v[i]).0@ == s[i].0 && v[i].1@ == s[i].1
}

/// Judges one dictionary pair exactly as `spec_entry` does: `Ok(None)` to
/// skip it, `Ok(Some(..))` for one named descriptor, `Err(..)` for a fatal
/// error.
#[verifier::loop_isolation(false)]
fn locate_entry(k: &PyValue, v: &PyValue, pkl: &String, zipfile: &String) -> (r: Result<
    Option<(String, PthTensorLoc)>,
    PthError,
>)
    ensures
        match r {
            Ok(found) => match found {
                None => spec_entry(k@, v@, pkl@, zipfile@) is Skip,
                Some(p) => spec_entry(k@, v@, pkl@, zipfile@) == EntryOutcome::Take(p.0@, p.1@),
            },
            Err(e) => spec_entry(k@, v@, pkl@, zipfile@) == EntryOutcome::Fatal(e),
        },
{
    let name: &String = match k {
        PyValue::Str(s) => s,
        _ => {
            return Ok(None);
        }
    };
    let (c, args): (&PyValue, &PyValue) = match v {
        PyValue::Reduce(c, a) => {
            proof {
                assert(v@ == SpecValue::Reduce(
                    Box::new((&**c)@),
                    Box::new((&**a)@),
                ));
            }
            (&**c, &**a)
        }
        _ => {
            return Ok(None);
        }
    };
    match c {
        PyValue::Global(m, n) => {
            proof {
                assert(c@ == SpecValue::Global(m@, n@));
            }
            if !(*m == "torch._utils".to_owned()) || !(*n == "_rebuild_tensor_v2".to_owned()) {
                return Ok(None);
            }
        }
        _ => {
            return Ok(None);
        }
    }
    let ivs: &Vec<PyValue> = match args {
        PyValue::Tuple(ivs) => {
            proof {
                assert(args@ == SpecValue::Tuple(PyValue::model_elems(ivs@)));
            }
            ivs
        }
        _ => {
            return Ok(None);
        }
    };
    proof {
        lemma_model_elems(ivs@);
    }
    if ivs.len() < 3 {
        return Err(PthError::MalformedEntry);
    }
    let ghost sivs = PyValue::model_elems(ivs@);
    let mut shape: Vec<usize> = Vec::new();
    match &ivs[2] {
        PyValue::Tuple(svs) => {
            proof {
                assert(ivs@[2].model() == SpecValue::Tuple(PyValue::model_elems(svs@)));
                lemma_model_elems(svs@);
                assert(PyValue::model_elems(svs@).subrange(0, 0)
                    =~= Seq::<SpecValue>::empty());
            }
            let ghost ssvs = PyValue::model_elems(svs@);
            let mut j: usize = 0;
            while j < svs.len()
                invariant
                    j <= svs@.len(),
                    spec_dims(ssvs.subrange(0, j as int)) == ShapeOutcome::Dims(shape@),
                decreases svs@.len() - j,
            {
                proof {
                    assert(ssvs.subrange(0, j as int + 1).drop_last() =~= ssvs.subrange(
                        0,
                        j as int,
                    ));
                    assert(ssvs.subrange(0, j as int + 1).last() == ssvs[j as int]);
                }
                match &svs[j] {
                    PyValue::Int(d) => {
                        proof {
                            assert(svs@[j as int].model() == SpecValue::Int(*d));
                        }
                        if *d < 0 {
                            proof {
                                lemma_dims_fatal(ssvs, j as int);
                            }
                            return Err(PthError::MalformedShape);
                        }
                        let dd = *d as u64;
                        if dd > usize::MAX as u64 {
                            proof {
                                lemma_dims_fatal(ssvs, j as int);
                            }
                            return Err(PthError::MalformedShape);
                        }
                        shape.push(dd as usize);
                    }
                    _ => {
                        proof {
                            lemma_dims_mismatch(ssvs, j as int);
                        }
                        return Ok(None);
                    }
                }
                j = j + 1;
            }
            proof {
                assert(ssvs.subrange(0, svs@.len() as int) =~= ssvs);
            }
        }
        _ => {}
    }
    let pid = match first_persid(args) {
        Some(p) => p,
        None => {
            return Ok(None);
        }
    };
    let tvs: Vec<PyValue> = match pid {
        PyValue::Tuple(tvs) => {
            proof {
                assert(PyValue::Tuple(tvs)@ == SpecValue::Tuple(PyValue::model_elems(tvs@)));
            }
            tvs
        }
        _ => {
            return Ok(None);
        }
    };
    proof {
        lemma_model_elems(tvs@);
    }
    let sl = match rfind_slash_exec(pkl.as_str()) {
        Some(i) => i,
        None => {
            return Err(PthError::BadEntryPath);
        }
    };
    if tvs.len() < 5 {
        return Err(PthError::MalformedEntry);
    }
    let storage: &String = match &tvs[1] {
        PyValue::Global(_t, storage) => storage,
        _ => {
            return Ok(None);
        }
    };
    let zfn: &String = match &tvs[2] {
        PyValue::Str(z) => z,
        _ => {
            return Ok(None);
        }
    };
    let size: i64 = match &tvs[4] {
        PyValue::Int(s) => *s,
        _ => {
            return Ok(None);
        }
    };
    let dt = match PthDtype::try_from(storage.as_str()) {
        Ok(d) => d,
        Err(e) => {
            return Err(e);
        }
    };
    if size < 0 {
        return Err(PthError::BadElementCount);
    }
    let ds = dt.size();
    let max_count: usize = usize::MAX / ds;
    proof {
        let m = usize::MAX as int;
        let d = dt.spec_size();
        let s = size as int;
        vstd::arithmetic::div_mod::lemma_fundamental_div_mod(m, d);
        match dt {
            PthDtype::FP32 => {
                assert(s * d == 4 * s);
            }
            PthDtype::FP16 => {
                assert(s * d == 2 * s);
            }
            PthDtype::BF16 => {
                assert(s * d == 2 * s);
            }
        }
        assert((s > m / d) == (s * d > m));
    }
    if size as u64 > max_count as u64 {
        return Err(PthError::BadElementCount);
    }
    let count: usize = size as usize;
    let inner = build_inner_path(pkl, sl, zfn);
    let loc = PthTensorLoc {
        dtype: dt,
        zipfile: zipfile.clone(),
        zip_inner_file: inner,
        nelements: count,
        shape,
    };
    Ok(Some((name.clone(), loc)))
}

/// A non-integer element anywhere after clean dimensions makes the whole
/// shape a mismatch, so the entry is skipped.
proof fn lemma_dims_mismatch(vs: Seq<SpecValue>, j: int)
    requires
        0 <= j < vs.len(),
        spec_dims(vs.subrange(0, j)) is Dims,
        !(vs[j] is Int),
    ensures
        spec_dims(vs) == ShapeOutcome::Mismatch,
    decreases vs.len(),
{
    if j == vs.len() - 1 {
        assert(vs.drop_last() =~= vs.subrange(0, j));
        assert(vs.last() == vs[j]);
    } else {
        assert(vs.drop_last()[j] == vs[j]);
        assert(vs.drop_last().subrange(0, j) =~= vs.subrange(0, j));
        lemma_dims_mismatch(vs.drop_last(), j);
    }
}

/// An integer dimension out of the machine's range after clean dimensions
/// makes the whole shape fatal.
proof fn lemma_dims_fatal(vs: Seq<SpecValue>, j: int)
    requires
        0 <= j < vs.len(),
        spec_dims(vs.subrange(0, j)) is Dims,
        vs[j] is Int,
        !(0 <= vs[j]->Int_0 <= usize::MAX),
    ensures
        spec_dims(vs) == ShapeOutcome::Fatal(PthError::MalformedShape),
    decreases vs.len(),
{
    if j == vs.len() - 1 {
        assert(vs.drop_last() =~= vs.subrange(0, j));
        assert(vs.last() == vs[j]);
    } else {
        assert(vs.drop_last()[j] == vs[j]);
        assert(vs.drop_last().subrange(0, j) =~= vs.subrange(0, j));
        lemma_dims_fatal(vs.drop_last(), j);
    }
}

/// Everything the locator finds in entries processed so far: `Err` as soon as
/// one entry is fatal, otherwise the named descriptors in entry order.
pub open spec fn spec_locate_entries(
    ps: Seq<(SpecValue, SpecValue)>,
    pkl: Seq<char>,
    zipfile: Seq<char>,
) -> Result<Seq<(Seq<char>, SpecTensorLoc)>, PthError>
    decreases ps.len(),
{
    if ps.len() == 0 {
        Ok(Seq::empty())
    } else {
        match spec_locate_entries(ps.drop_last(), pkl, zipfile) {
            Err(e) => Err(e),
            Ok(rs) => match spec_entry(ps.last().0, ps.last().1, pkl, zipfile) {
                EntryOutcome::Skip => Ok(rs),
                EntryOutcome::Take(n, l) => Ok(rs.push((n, l))),
                EntryOutcome::Fatal(e) => Err(e),
            },
        }
    }
}

/// What the locator extracts from a decoded graph: nothing when no
/// tensor-state root is found (not an error), else one descriptor per
/// matching entry of that root, in order.
pub open spec fn spec_locate(
    root: SpecValue,
    pkl: Seq<char>,
    zipfile: Seq<char>,
) -> Result<Seq<(Seq<char>, SpecTensorLoc)>, PthError> {
    match spec_find_root(root) {
        None => Ok(Seq::empty()),
        Some(d) => if d is Dict {
            spec_locate_entries(d->Dict_0, pkl, zipfile)
        } else {
            Ok(Seq::empty())
        },
    }
}

/// Walks a decoded graph and returns one named descriptor per tensor entry of
/// the first tensor-state root, exactly as `spec_locate` says; a graph
/// without such a root yields no descriptors and no error.
#[verifier::loop_isolation(false)]
pub fn locate_tensors(root: &PyValue, pklname: &String, zipfile: &String) -> (r: Result<
    Vec<(String, PthTensorLoc)>,
    PthError,
>)
    ensures
        match r {
            Ok(v) => spec_locate(root@, pklname@, zipfile@) is Ok && locs_match(
                v@,
                spec_locate(root@, pklname@, zipfile@)->Ok_0,
            ),
            Err(e) => spec_locate(root@, pklname@, zipfile@) == Err::<
                Seq<(Seq<char>, SpecTensorLoc)>,
                PthError,
            >(e),
        },
{
    let d: &PyValue = match find_root(root) {
        None => {
            return Ok(Vec::new());
        }
        Some(d) => d,
    };
    let ps: &Vec<(PyValue, PyValue)> = match d {
        PyValue::Dict(ps) => ps,
        _ => {
            return Ok(Vec::new());
        }
    };
    proof {
        lemma_model_pairs(ps@);
        assert(PyValue::model_pairs(ps@).subrange(0, 0) =~= Seq::<
            (SpecValue, SpecValue),
        >::empty());
    }
    let ghost sps = PyValue::model_pairs(ps@);
    let mut out: Vec<(String, PthTensorLoc)> = Vec::new();
    let mut i: usize = 0;
    while i < ps.len()
        invariant
            i <= ps@.len(),
            spec_locate_entries(sps.subrange(0, i as int), pklname@, zipfile@) is Ok,
            locs_match(
                out@,
                spec_locate_entries(sps.subrange(0, i as int), pklname@, zipfile@)->Ok_0,
            ),
        decreases ps@.len() - i,
    {
        proof {
            assert(sps.subrange(0, i as int + 1).drop_last() =~= sps.subrange(0, i as int));
            assert(sps.subrange(0, i as int + 1).last() == sps[i as int]);
        }
        let pair = &ps[i];
        match locate_entry(&pair.0, &pair.1, pklname, zipfile) {
            Err(e) => {
                proof {
                    assert(sps.subrange(0, ps@.len() as int) =~= sps);
                    lemma_locate_entries_extends(sps, i as int, pklname@, zipfile@);
                }
                return Err(e);
            }
            Ok(None) => {}
            Ok(Some(p)) => {
                out.push(p);
            }
        }
        i = i + 1;
    }
    proof {
        assert(sps.subrange(0, ps@.len() as int) =~= sps);
    }
    Ok(out)
}

/// A fatal entry anywhere after a clean prefix makes the whole extraction
/// fatal with that first error.
proof fn lemma_locate_entries_extends(
    ps: Seq<(SpecValue, SpecValue)>,
    i: int,
    pkl: Seq<char>,
    zipfile: Seq<char>,
)
    requires
        0 <= i < ps.len(),
        spec_locate_entries(ps.subrange(0, i), pkl, zipfile) is Ok,
        spec_entry(ps[i].0, ps[i].1, pkl, zipfile) is Fatal,
    ensures
        spec_locate_entries(ps, pkl, zipfile) == Err::<Seq<(Seq<char>, SpecTensorLoc)>, PthError>(
            spec_entry(ps[i].0, ps[i].1, pkl, zipfile)->Fatal_0,
        ),
    decreases ps.len(),
{
    if i == ps.len() - 1 {
        assert(ps.subrange(0, i) =~= ps.drop_last());
        assert(ps.last() == ps[i]);
    } else {
        assert(ps.drop_last()[i] == ps[i]);
        assert(ps.drop_last().subrange(0, i) =~= ps.subrange(0, i));
        lemma_locate_entries_extends(ps.drop_last(), i, pkl, zipfile);
    }
}

} // verus!

verus! {

/// The fixed file-name suffix that marks the graph-description entry.
pub open spec fn has_pkl_suffix(n: Seq<char>) -> bool {
    &&& n.len() >= "data.pkl"@.len()
    &&& n.subrange(n.len() - "data.pkl"@.len(), n.len() as int) == "data.pkl"@
}

/// The entry holding the graph description: of all names carrying the
/// suffix, the last one in enumeration order — a documented quirk, not a
/// uniqueness rule.
pub open spec fn spec_select_pkl(names: Seq<Seq<char>>) -> Option<Seq<char>>
    decreases names.len(),
{
    if names.len() == 0 {
        None
    } else if has_pkl_suffix(names.last()) {
        Some(names.last())
    } else {
        spec_select_pkl(names.drop_last())
    }
}

/// The views of a list of names.
pub open spec fn views_of(names: Seq<String>) -> Seq<Seq<char>> {
    Seq::new(names.len(), |i: int| names[i]@)
}

/// Whether one name carries the graph-description suffix.
fn has_pkl_suffix_exec(name: &String) -> (r: bool)
    ensures
        r == has_pkl_suffix(name@),
{
    let sfx: &str = "data.pkl";
    let sl = sfx.unicode_len();
    let l = name.as_str().unicode_len();
    if l < sl {
        return false;
    }
    let tail = name.as_str().substring_char(l - sl, l);
    tail.to_owned() == sfx.to_owned()
}

/// Picks the graph-description entry from the names of an archive, as
/// `spec_select_pkl` says.
#[verifier::loop_isolation(false)]
fn select_pkl(names: &Vec<String>) -> (r: Option<String>)
    ensures
        match r {
            Some(s) => spec_select_pkl(views_of(names@)) == Some(s@),
            None => spec_select_pkl(views_of(names@)) is None,
        },
{
    let ghost vs = views_of(names@);
    proof {
        assert(vs.subrange(0, names@.len() as int) =~= vs);
    }
    let mut i: usize = names.len();
    while i > 0
        invariant
            i <= names@.len(),
            spec_select_pkl(vs) == spec_select_pkl(vs.subrange(0, i as int)),
        decreases i,
    {
        proof {
            assert(vs.subrange(0, i as int).last() == vs[i as int - 1]);
            assert(vs.subrange(0, i as int).drop_last() =~= vs.subrange(0, i as int - 1));
        }
        if has_pkl_suffix_exec(&names[i - 1]) {
            return Some(names[i - 1].clone());
        }
        i = i - 1;
    }
    None
}

/// The entry names of an archive, a function of its bytes alone; nothing
/// when the bytes are not a readable archive.
pub uninterp spec fn zip_entry_names(data: Seq<u8>) -> Option<Seq<Seq<char>>>;

/// The decompressed bytes of one named entry, a function of the archive
/// bytes and the name alone; nothing when the archive or the entry cannot be
/// read.
pub uninterp spec fn zip_entry_data(data: Seq<u8>, name: Seq<char>) -> Option<Seq<u8>>;

/// Relies on `zip::ZipArchive::new` and `ZipArchive::file_names` over an
/// in-memory cursor: the entry list, in enumeration order, is a function of
/// the archive bytes alone.
#[verifier::external_body]
fn archive_entry_names(data: &Vec<u8>) -> (r: Option<Vec<String>>)
    ensures
        match r {
            Some(names) => zip_entry_names(data@) == Some(views_of(names@)),
            None => zip_entry_names(data@) is None,
        },
{
    let cursor = std::io::Cursor::new(data.as_slice());
    match zip::ZipArchive::new(cursor) {
        Ok(za) => Some(za.file_names().map(|s| s.to_string()).collect()),
        Err(_) => None,
    }
}

/// Relies on `zip::ZipArchive::by_name` and `Read::read_to_end`: the
/// decompressed entry is a function of the archive bytes and the name alone.
#[verifier::external_body]
fn archive_entry_bytes(data: &Vec<u8>, name: &String) -> (r: Option<Vec<u8>>)
    ensures
        match r {
            Some(b) => zip_entry_data(data@, name@) == Some(b@),
            None => zip_entry_data(data@, name@) is None,
        },
{
    let cursor = std::io::Cursor::new(data.as_slice());
    let mut za = match zip::ZipArchive::new(cursor) {
        Ok(z) => z,
        Err(_) => return None,
    };
    let mut f = match za.by_name(name.as_str()) {
        Ok(f) => f,
        Err(_) => return None,
    };
    let mut out: Vec<u8> = Vec::new();
    match std::io::Read::read_to_end(&mut f, &mut out) {
        Ok(_) => Some(out),
        Err(_) => None,
    }
}

/// Reads back the bytes of one tensor from its archive's bytes: exactly the
/// descriptor's byte length, taken from the front of the named entry; a
/// missing entry or one holding fewer bytes is fatal.
pub fn tensor_bytes(loc: &PthTensorLoc, data: &Vec<u8>) -> (r: Result<Vec<u8>, PthError>)
    ensures
        match r {
            Ok(b) => {
                &&& zip_entry_data(data@, loc@.zip_inner_file) is Some
                &&& zip_entry_data(data@, loc@.zip_inner_file)->Some_0.len() >= loc@.nelements
                    * loc@.dtype.spec_size()
                &&& b@ == zip_entry_data(data@, loc@.zip_inner_file)->Some_0.subrange(
                    0,
                    loc@.nelements * loc@.dtype.spec_size(),
                )
            },
            Err(e) => match zip_entry_data(data@, loc@.zip_inner_file) {
                None => e == PthError::MissingEntry,
                Some(bs) => bs.len() < loc@.nelements * loc@.dtype.spec_size() && e
                    == PthError::ShortEntry,
            },
        },
{
    let n = loc.data_len();
    let mut b = match archive_entry_bytes(data, loc.zip_inner_file()) {
        Some(b) => b,
        None => {
            return Err(PthError::MissingEntry);
        }
    };
    if b.len() < n {
        return Err(PthError::ShortEntry);
    }
    b.truncate(n);
    Ok(b)
}

/// The mapping that a list of named descriptors denotes, later entries
/// silently replacing earlier ones of the same name.
pub open spec fn tensor_map(s: Seq<(String, PthTensorLoc)>) -> Map<Seq<char>, SpecTensorLoc>
    decreases s.len(),
{
    if s.len() == 0 {
        Map::empty()
    } else {
        tensor_map(s.drop_last()).insert(s.last().0@, s.last().1@)
    }
}

/// Lookup among named descriptors, scanning from the latest entry.
pub open spec fn tensor_get(s: Seq<(String, PthTensorLoc)>, k: Seq<char>) -> Option<SpecTensorLoc>
    decreases s.len(),
{
    if s.len() == 0 {
        None
    } else if s.last().0@ == k {
        Some(s.last().1@)
    } else {
        tensor_get(s.drop_last(), k)
    }
}

/// The scan agrees with the denoted mapping.
pub proof fn lemma_tensor_get(s: Seq<(String, PthTensorLoc)>, k: Seq<char>)
    ensures
        match tensor_get(s, k) {
            Some(v) => tensor_map(s).contains_key(k) && tensor_map(s)[k] == v,
            None => !tensor_map(s).contains_key(k),
        },
    decreases s.len(),
{
    if s.len() > 0 {
        lemma_tensor_get(s.drop_last(), k);
    }
}

/// The aggregate result: tensor name to descriptor, collected across all
/// input archives, later archives silently overwriting earlier entries of
/// the same name.
pub struct TensorMap {
    entries: Vec<(String, PthTensorLoc)>,
}

impl View for TensorMap {
    type V = Map<Seq<char>, SpecTensorLoc>;

    closed spec fn view(&self) -> Map<Seq<char>, SpecTensorLoc> {
        tensor_map(self.entries@)
    }
}

impl TensorMap {
    /// An empty mapping.
    pub fn new() -> (r: TensorMap)
        ensures
            r@ == Map::<Seq<char>, SpecTensorLoc>::empty(),
    {
        TensorMap { entries: Vec::new() }
    }

    /// Binds `name` to `loc`, replacing any earlier binding silently.
    pub fn insert(&mut self, name: String, loc: PthTensorLoc)
        ensures
            final(self)@ == old(self)@.insert(name@, loc@),
    {
        self.entries.push((name, loc));
        proof {
            assert(self.entries@.drop_last() =~= old(self).entries@);
        }
    }

    /// The descriptor bound to `name`, if any.
    #[verifier::loop_isolation(false)]
    pub fn get(&self, name: &String) -> (r: Option<&PthTensorLoc>)
        ensures
            match r {
                Some(l) => self@.contains_key(name@) && l@ == self@[name@],
                None => !self@.contains_key(name@),
            },
    {
        proof {
            lemma_tensor_get(self.entries@, name@);
            assert(self.entries@.subrange(0, self.entries@.len() as int) =~= self.entries@);
        }
        let mut i: usize = self.entries.len();
        while i > 0
            invariant
                i <= self.entries@.len(),
                tensor_get(self.entries@.subrange(0, i as int), name@) == tensor_get(
                    self.entries@,
                    name@,
                ),
            decreases i,
        {
            let entry = &self.entries[i - 1];
            proof {
                assert(self.entries@.subrange(0, i as int).drop_last() =~= self.entries@
                    .subrange(0, i as int - 1));
                assert(self.entries@.subrange(0, i as int).last() == self.entries@[i as int
                    - 1]);
            }
            if entry.0 == *name {
                return Some(&entry.1);
            }
            i = i - 1;
        }
        None
    }

    /// The named descriptors as recorded, in insertion order; the denoted
    /// mapping is exactly this object's.
    pub fn entries(&self) -> (r: &Vec<(String, PthTensorLoc)>)
        ensures
            tensor_map(r@) == self@,
    {
        &self.entries
    }
}

} // verus!

verus! {

/// What one archive contributes: its descriptors when it holds a qualifying
/// graph-description entry, nothing when it holds none, or the first fatal
/// error of reading, decoding or locating.
pub open spec fn spec_archive_tensors(path: Seq<char>, data: Seq<u8>) -> Result<
    Seq<(Seq<char>, SpecTensorLoc)>,
    PthError,
> {
    match zip_entry_names(data) {
        None => Err(PthError::BadArchive),
        Some(names) => match spec_select_pkl(names) {
            None => Ok(Seq::empty()),
            Some(pkl) => match zip_entry_data(data, pkl) {
                None => Err(PthError::MissingEntry),
                Some(bytes) => match spec_load(bytes) {
                    Err(e) => Err(PthError::Pickle(e)),
                    Ok(root) => spec_locate(root, pkl, path),
                },
            },
        },
    }
}

/// Folds named descriptors into a mapping, in order, later names replacing
/// earlier ones.
pub open spec fn spec_insert_all(
    m: Map<Seq<char>, SpecTensorLoc>,
    ts: Seq<(Seq<char>, SpecTensorLoc)>,
) -> Map<Seq<char>, SpecTensorLoc>
    decreases ts.len(),
{
    if ts.len() == 0 {
        m
    } else {
        spec_insert_all(m, ts.drop_last()).insert(ts.last().0, ts.last().1)
    }
}

/// The whole conversion input: archives processed strictly in order, each
/// one's descriptors merged over the earlier ones, the first fatal error
/// aborting everything.
pub open spec fn spec_reader_map(archives: Seq<(String, Vec<u8>)>) -> Result<
    Map<Seq<char>, SpecTensorLoc>,
    PthFailure,
>
    decreases archives.len(),
{
    if archives.len() == 0 {
        Ok(Map::empty())
    } else {
        match spec_reader_map(archives.drop_last()) {
            Err(f) => Err(f),
            Ok(m) => match spec_archive_tensors(archives.last().0@, archives.last().1@) {
                Err(e) => Err(PthFailure {
                    archive: (archives.len() - 1) as usize,
                    error: e,
                }),
                Ok(ts) => Ok(spec_insert_all(m, ts)),
            },
        }
    }
}

/// A fatal archive after a clean prefix makes the whole run fatal with that
/// first error.
proof fn lemma_reader_map_extends(archives: Seq<(String, Vec<u8>)>, i: int)
    requires
        0 <= i < archives.len(),
        spec_reader_map(archives.subrange(0, i)) is Ok,
        spec_archive_tensors(archives[i].0@, archives[i].1@) is Err,
    ensures
        spec_reader_map(archives) == Err::<Map<Seq<char>, SpecTensorLoc>, PthFailure>(
            PthFailure {
                archive: i as usize,
                error: spec_archive_tensors(archives[i].0@, archives[i].1@)->Err_0,
            },
        ),
    decreases archives.len(),
{
    if i == archives.len() - 1 {
        assert(archives.subrange(0, i) =~= archives.drop_last());
        assert(archives.last() == archives[i]);
    } else {
        assert(archives.drop_last()[i] == archives[i]);
        assert(archives.drop_last().subrange(0, i) =~= archives.subrange(0, i));
        lemma_reader_map_extends(archives.drop_last(), i);
    }
}

/// The most recent binding of a name is the one that stays: merging
/// descriptors whose last entry binds `k` leaves exactly that descriptor
/// under `k`, whatever was bound before.
pub proof fn lemma_insert_all_last_wins(
    m: Map<Seq<char>, SpecTensorLoc>,
    ts: Seq<(Seq<char>, SpecTensorLoc)>,
    k: Seq<char>,
    l: SpecTensorLoc,
)
    ensures
        spec_insert_all(m, ts.push((k, l))).contains_key(k),
        spec_insert_all(m, ts.push((k, l)))[k] == l,
{
    assert(ts.push((k, l)).drop_last() =~= ts);
}

/// The multi-archive aggregator: every input archive's descriptors, merged
/// into one mapping.
pub struct PthReader {
    /// The collected name-to-descriptor mapping.
    pub tensors: TensorMap,
}

impl PthReader {
    /// Processes the given archives — each a path together with the archive's
    /// bytes — strictly in order, and merges every discovered descriptor into
    /// one mapping, exactly as `spec_reader_map` says. An archive without a
    /// qualifying graph-description entry contributes nothing; the first
    /// fatal error aborts the whole conversion.
    #[verifier::loop_isolation(false)]
    pub fn new(archives: Vec<(String, Vec<u8>)>) -> (r: Result<PthReader, PthFailure>)
        ensures
            match r {
                Ok(rd) => spec_reader_map(archives@) == Ok::<_, PthFailure>(rd.tensors@),
                Err(f) => spec_reader_map(archives@) == Err::<
                    Map<Seq<char>, SpecTensorLoc>,
                    PthFailure,
                >(f),
            },
    {
        let ghost all = archives@;
        proof {
            assert(all.subrange(0, 0) =~= Seq::<(String, Vec<u8>)>::empty());
        }
        let mut tensors = TensorMap::new();
        let mut i: usize = 0;
        while i < archives.len()
            invariant
                i <= all.len(),
                spec_reader_map(all.subrange(0, i as int)) == Ok::<_, PthFailure>(tensors@),
            decreases all.len() - i,
        {
            proof {
                assert(all.subrange(0, i as int + 1).drop_last() =~= all.subrange(0, i as int));
                assert(all.subrange(0, i as int + 1).last() == all[i as int]);
                assert(all.subrange(0, all.len() as int) =~= all);
            }
            let arch = &archives[i];
            let names = match archive_entry_names(&arch.1) {
                Some(n) => n,
                None => {
                    proof {
                        lemma_reader_map_extends(all, i as int);
                    }
                    return Err(PthFailure { archive: i, error: PthError::BadArchive });
                }
            };
            match select_pkl(&names) {
                None => {},
                Some(pkl) => {
                    let bytes = match archive_entry_bytes(&arch.1, &pkl) {
                        Some(b) => b,
                        None => {
                            proof {
                                lemma_reader_map_extends(all, i as int);
                            }
                            return Err(PthFailure { archive: i, error: PthError::MissingEntry });
                        }
                    };
                    let mut up = Unpickler::default();
                    let root = match up.load(&bytes) {
                        Ok(v) => v,
                        Err(e) => {
                            proof {
                                lemma_reader_map_extends(all, i as int);
                            }
                            return Err(PthFailure { archive: i, error: PthError::Pickle(e) });
                        }
                    };
                    let mut locs = match locate_tensors(&root, &pkl, &arch.0) {
                        Ok(l) => l,
                        Err(e) => {
                            proof {
                                lemma_reader_map_extends(all, i as int);
                            }
                            return Err(PthFailure { archive: i, error: e });
                        }
                    };
                    let ghost found = spec_archive_tensors(all[i as int].0@, all[i as int].1@)
                        ->Ok_0;
                    let ghost m0 = tensors@;
                    let ghost k0 = locs@.len() as int;
                    proof {
                        assert(locs_match(locs@, found));
                        assert(found.subrange(0, 0) =~= Seq::<(Seq<char>, SpecTensorLoc)>::empty());
                    }
                    let mut j: usize = 0;
                    while j < locs.len()
                        invariant
                            j <= locs@.len(),
                            locs@.len() == found.len(),
                            locs_match(locs@, found),
                            tensors@ == spec_insert_all(m0, found.subrange(0, j as int)),
                        decreases locs@.len() - j,
                    {
                        proof {
                            assert(found.subrange(0, j as int + 1).drop_last() =~= found
                                .subrange(0, j as int));
                            assert(found.subrange(0, j as int + 1).last() == found[j as int]);
                        }
                        let name = locs[j].0.clone();
                        let loc = locs[j].1.duplicate();
                        tensors.insert(name, loc);
                        j = j + 1;
                    }
                    proof {
                        assert(found.subrange(0, found.len() as int) =~= found);
                    }
                }
            }
            i = i + 1;
        }
        proof {
            assert(all.subrange(0, all.len() as int) =~= all);
        }
        Ok(PthReader { tensors })
    }
}

} // verus!
