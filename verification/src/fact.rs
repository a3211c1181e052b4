//! Facts: lattice values describing what is known about a graph edge.
//!
//! A fact records the element type, the shape and, when available, the
//! concrete value carried by an edge. Any field may still be unknown while a
//! graph is under inference. Two facts are combined by unification: it fails
//! when concrete fields disagree, and otherwise yields the more specific fact.

use vstd::prelude::*;

verus! {

/// Element type of a tensor. The tag is all the compiler core needs; the
/// numeric kernels behind each tag are outside this library.
#[derive(Clone, Copy, PartialEq, Eq, Structural, Debug)]
pub enum DatumType {
    Float32,
    Int32,
}

/// One dimension of a shape: either a concrete length or the symbolic
/// streaming dimension.
#[derive(Clone, Copy, PartialEq, Eq, Structural, Debug)]
pub enum Dim {
    Fixed(usize),
    Stream,
}

/// A concrete tensor value, carried by fully determined facts. The data is
/// stored in row-major order; its length always equals the shape's volume.
pub struct Tensor {
    pub dt: DatumType,
    pub shape: Vec<usize>,
    pub data: Vec<i64>,
}

/// Mathematical model of a tensor.
#[verifier::ext_equal]
pub ghost struct TensorModel {
    pub dt: DatumType,
    pub shape: Seq<usize>,
    pub data: Seq<i64>,
}

impl View for Tensor {
    type V = TensorModel;

    open spec fn view(&self) -> TensorModel {
        TensorModel { dt: self.dt, shape: self.shape@, data: self.data@ }
    }
}

/// Volume of a shape: the number of scalar entries a tensor of that shape
/// holds.
pub open spec fn volume(shape: Seq<usize>) -> nat
    decreases shape.len(),
{
    if shape.len() == 0 {
        1
    } else {
        (shape[0] * volume(shape.skip(1))) as nat
    }
}

impl TensorModel {
    /// A tensor is well formed when its data has exactly one entry per point
    /// of its shape.
    pub open spec fn wf(self) -> bool {
        self.data.len() == volume(self.shape)
    }
}

/// What is known about one graph edge. `None` means "not yet inferred".
pub struct Fact {
    pub dt: Option<DatumType>,
    pub shape: Option<Vec<Dim>>,
    pub value: Option<Tensor>,
}

/// Mathematical model of a fact.
#[verifier::ext_equal]
pub ghost struct FactModel {
    pub dt: Option<DatumType>,
    pub shape: Option<Seq<Dim>>,
    pub value: Option<TensorModel>,
}

impl View for Fact {
    type V = FactModel;

    open spec fn view(&self) -> FactModel {
        FactModel {
            dt: self.dt,
            shape: match self.shape {
                Some(ref s) => Some(s@),
                None => None,
            },
            value: match self.value {
                Some(ref t) => Some(t@),
                None => None,
            },
        }
    }
}

/// The shape of a concrete tensor, read as a sequence of fixed dimensions.
pub open spec fn fixed_dims(shape: Seq<usize>) -> Seq<Dim> {
    shape.map_values(|d: usize| Dim::Fixed(d))
}

impl FactModel {
    /// A fact with no information at all.
    pub open spec fn unknown() -> FactModel {
        FactModel { dt: None, shape: None, value: None }
    }

    /// A fact is well formed when a known value pins down the type and shape
    /// fields, so the three fields can never contradict each other.
    pub open spec fn wf(self) -> bool {
        self.value matches Some(t) ==> {
            &&& t.wf()
            &&& self.dt == Some(t.dt)
            &&& self.shape == Some(fixed_dims(t.shape))
        }
    }

    /// Type and shape are both known; dimensions may still be symbolic.
    pub open spec fn typed(self) -> bool {
        self.dt is Some && self.shape is Some
    }

    /// Fully concrete: type and shape known, and no symbolic dimension.
    pub open spec fn concrete(self) -> bool {
        self.typed() && forall|i: int|
            0 <= i < self.shape->Some_0.len() ==> self.shape->Some_0[i] is Fixed
    }

    /// The shape mentions the streaming dimension.
    pub open spec fn has_stream(self) -> bool {
        self.shape matches Some(s) && exists|i: int| 0 <= i < s.len() && s[i] is Stream
    }

    /// How much of the fact is still unknown; unification only ever lowers
    /// this, which bounds the analyser's fixed-point iteration.
    pub open spec fn unknown_count(self) -> nat {
        (if self.dt is None { 1nat } else { 0nat })
            + (if self.shape is None { 1nat } else { 0nat })
            + (if self.value is None { 1nat } else { 0nat })
    }

    /// `self` is at least as specific as `other`: every field known in
    /// `other` is known in `self` with the same content.
    pub open spec fn refines(self, other: FactModel) -> bool {
        &&& (other.dt is Some ==> self.dt == other.dt)
        &&& (other.shape is Some ==> self.shape == other.shape)
        &&& (other.value is Some ==> self.value == other.value)
    }
}

/// The field on which unification failed.
#[derive(Clone, Copy, PartialEq, Eq, Structural, Debug)]
pub enum TypeConflict {
    DatumType,
    Shape,
    Value,
}

/// The first field on which two facts disagree, if any. Fields are checked
/// in a fixed order (type, then shape, then value) so that the reported
/// conflict is deterministic.
pub open spec fn conflict_of(a: FactModel, b: FactModel) -> Option<TypeConflict> {
    if a.dt is Some && b.dt is Some && a.dt != b.dt {
        Some(TypeConflict::DatumType)
    } else if a.shape is Some && b.shape is Some && a.shape != b.shape {
        Some(TypeConflict::Shape)
    } else if a.value is Some && b.value is Some && a.value != b.value {
        Some(TypeConflict::Value)
    } else {
        None
    }
}

/// The join of two compatible facts: each field takes whichever side knows
/// it (both sides agree wherever both know it).
pub open spec fn join_of(a: FactModel, b: FactModel) -> FactModel {
    FactModel {
        dt: if a.dt is Some { a.dt } else { b.dt },
        shape: if a.shape is Some { a.shape } else { b.shape },
        value: if a.value is Some { a.value } else { b.value },
    }
}

/// The join of two compatible well-formed facts is well formed, and refines
/// both sides.
pub proof fn lemma_join_refines(a: FactModel, b: FactModel)
    requires
        a.wf(),
        b.wf(),
        conflict_of(a, b) is None,
    ensures
        join_of(a, b).wf(),
        join_of(a, b).refines(a),
        join_of(a, b).refines(b),
{
}

/// Unification is commutative: on compatible facts the two orders agree,
/// and the reported conflict does not depend on the order either.
pub proof fn lemma_unify_commutes(a: FactModel, b: FactModel)
    ensures
        conflict_of(a, b) == conflict_of(b, a),
        conflict_of(a, b) is None ==> join_of(a, b) == join_of(b, a),
{
}

impl Tensor {
    /// Structural equality of tensors.
    pub fn same(&self, other: &Tensor) -> (r: bool)
        ensures
            r == (self@ =~= other@),
    {
        if !(self.dt == other.dt) {
            return false;
        }
        if !eq_usizes(&self.shape, &other.shape) {
            return false;
        }
        eq_i64s(&self.data, &other.data)
    }

    /// A deep copy of the tensor.
    pub fn duplicate(&self) -> (r: Tensor)
        ensures
            r@ == self@,
    {
        let r = Tensor {
            dt: self.dt,
            shape: clone_usizes(&self.shape),
            data: clone_i64s(&self.data),
        };
        assert(r@ =~= self@);
        r
    }
}

/// Element-wise equality of two integer vectors.
pub fn eq_usizes(a: &Vec<usize>, b: &Vec<usize>) -> (r: bool)
    ensures
        r == (a@ =~= b@),
{
    if a.len() != b.len() {
        return false;
    }
    let mut i: usize = 0;
    while i < a.len()
        invariant
            i <= a.len(),
            a.len() == b.len(),
            forall|j: int| 0 <= j < i ==> a@[j] == b@[j],
        decreases a.len() - i,
    {
        if a[i] != b[i] {
            return false;
        }
        i += 1;
    }
    true
}

/// Element-wise equality of two data vectors.
pub fn eq_i64s(a: &Vec<i64>, b: &Vec<i64>) -> (r: bool)
    ensures
        r == (a@ =~= b@),
{
    if a.len() != b.len() {
        return false;
    }
    let mut i: usize = 0;
    while i < a.len()
        invariant
            i <= a.len(),
            a.len() == b.len(),
            forall|j: int| 0 <= j < i ==> a@[j] == b@[j],
        decreases a.len() - i,
    {
        if a[i] != b[i] {
            return false;
        }
        i += 1;
    }
    true
}

/// Element-wise equality of two dimension vectors.
pub fn eq_dims(a: &Vec<Dim>, b: &Vec<Dim>) -> (r: bool)
    ensures
        r == (a@ =~= b@),
{
    if a.len() != b.len() {
        return false;
    }
    let mut i: usize = 0;
    while i < a.len()
        invariant
            i <= a.len(),
            a.len() == b.len(),
            forall|j: int| 0 <= j < i ==> a@[j] == b@[j],
        decreases a.len() - i,
    {
        if !(a[i] == b[i]) {
            return false;
        }
        i += 1;
    }
    true
}

/// A copy of an integer vector.
pub fn clone_usizes(v: &Vec<usize>) -> (r: Vec<usize>)
    ensures
        r@ == v@,
{
    let mut r: Vec<usize> = Vec::new();
    let mut i: usize = 0;
    while i < v.len()
        invariant
            i <= v.len(),
            r@ =~= v@.take(i as int),
        decreases v.len() - i,
    {
        r.push(v[i]);
        i += 1;
    }
    assert(r@ =~= v@);
    r
}

/// A copy of a data vector.
pub fn clone_i64s(v: &Vec<i64>) -> (r: Vec<i64>)
    ensures
        r@ == v@,
{
    let mut r: Vec<i64> = Vec::new();
    let mut i: usize = 0;
    while i < v.len()
        invariant
            i <= v.len(),
            r@ =~= v@.take(i as int),
        decreases v.len() - i,
    {
        r.push(v[i]);
        i += 1;
    }
    assert(r@ =~= v@);
    r
}

/// A copy of a dimension vector.
pub fn clone_dims(v: &Vec<Dim>) -> (r: Vec<Dim>)
    ensures
        r@ == v@,
{
    let mut r: Vec<Dim> = Vec::new();
    let mut i: usize = 0;
    while i < v.len()
        invariant
            i <= v.len(),
            r@ =~= v@.take(i as int),
        decreases v.len() - i,
    {
        r.push(v[i]);
        i += 1;
    }
    assert(r@ =~= v@);
    r
}

impl Fact {
    /// The fact with every field unknown.
    pub fn none() -> (r: Fact)
        ensures
            r@ == FactModel::unknown(),
    {
        Fact { dt: None, shape: None, value: None }
    }

    /// A deep copy of the fact.
    pub fn duplicate(&self) -> (r: Fact)
        ensures
            r@ == self@,
    {
        let r = Fact {
            dt: self.dt,
            shape: match self.shape {
                Some(ref s) => Some(clone_dims(s)),
                None => None,
            },
            value: match self.value {
                Some(ref t) => Some(t.duplicate()),
                None => None,
            },
        };
        assert(r@ =~= self@);
        r
    }

    /// Structural equality of facts.
    pub fn same(&self, other: &Fact) -> (r: bool)
        ensures
            r == (self@ =~= other@),
    {
        let dt_eq = match (&self.dt, &other.dt) {
            (Some(a), Some(b)) => *a == *b,
            (None, None) => true,
            _ => false,
        };
        if !dt_eq {
            return false;
        }
        let shape_eq = match (&self.shape, &other.shape) {
            (Some(a), Some(b)) => eq_dims(a, b),
            (None, None) => true,
            _ => false,
        };
        if !shape_eq {
            return false;
        }
        match (&self.value, &other.value) {
            (Some(a), Some(b)) => a.same(b),
            (None, None) => true,
            _ => false,
        }
    }

    /// Unify two facts. Succeeds with their join exactly when no concrete
    /// field disagrees; otherwise reports the first conflicting field. The
    /// arguments are only read, so a failed unification leaves both facts
    /// exactly as they were.
    pub fn unify(&self, other: &Fact) -> (r: Result<Fact, TypeConflict>)
        ensures
            match r {
                Ok(f) => conflict_of(self@, other@) is None && f@ == join_of(self@, other@),
                Err(c) => conflict_of(self@, other@) == Some(c),
            },
    {
        match (&self.dt, &other.dt) {
            (Some(a), Some(b)) => {
                if !(*a == *b) {
                    return Err(TypeConflict::DatumType);
                }
            },
            _ => {},
        }
        match (&self.shape, &other.shape) {
            (Some(a), Some(b)) => {
                if !eq_dims(a, b) {
                    return Err(TypeConflict::Shape);
                }
            },
            _ => {},
        }
        match (&self.value, &other.value) {
            (Some(a), Some(b)) => {
                if !a.same(b) {
                    return Err(TypeConflict::Value);
                }
            },
            _ => {},
        }
        let r = Fact {
            dt: if self.dt.is_some() { self.dt } else { other.dt },
            shape: match (&self.shape, &other.shape) {
                (Some(s), _) => Some(clone_dims(s)),
                (None, Some(s)) => Some(clone_dims(s)),
                (None, None) => None,
            },
            value: match (&self.value, &other.value) {
                (Some(t), _) => Some(t.duplicate()),
                (None, Some(t)) => Some(t.duplicate()),
                (None, None) => None,
            },
        };
        assert(r@ =~= join_of(self@, other@));
        Ok(r)
    }
}


/// Refinement can only lower the unknown count, and a strict refinement
/// lowers it strictly.
pub proof fn lemma_refines_unknown(c: FactModel, a: FactModel)
    requires
        c.refines(a),
    ensures
        c.unknown_count() <= a.unknown_count(),
        c != a ==> c.unknown_count() < a.unknown_count(),
{
    if c.dt == a.dt && c.shape == a.shape && c.value == a.value {
        assert(c =~= a);
    }
}

} // verus!
