//! Constraints and the two kinds of selectors: row selectors, which read the
//! input relations, and output selectors, which build one tuple from a state.

use vstd::prelude::*;
use crate::value::{Val, Value, model, models, cmp_val, compare, values_equal, copy_value, lemma_models};
use crate::relation::{Relation, input_rows};

verus! {

broadcast use crate::value::group_model_lemmas;

/// A malformed view or flow: a position out of range, a value of the wrong
/// variant, a selector count that does not match the inputs, or a number that
/// does not fit.
#[derive(Debug, Clone, Copy, PartialEq, Eq, Structural)]
pub struct ShapeError;

#[derive(Debug, Clone, Copy, PartialEq, Eq, Structural)]
pub enum ConstraintOp {
    EQ,
    NEQ,
    LT,
    GT,
    LTE,
    GTE,
}

/// Whether `op` holds between `a` and `b` in the order of values.
pub open spec fn holds(op: ConstraintOp, a: Val, b: Val) -> bool {
    match op {
        ConstraintOp::EQ => a == b,
        ConstraintOp::NEQ => a != b,
        ConstraintOp::LT => cmp_val(a, b) < 0,
        ConstraintOp::GT => cmp_val(a, b) > 0,
        ConstraintOp::LTE => cmp_val(a, b) <= 0,
        ConstraintOp::GTE => cmp_val(a, b) >= 0,
    }
}

/// A predicate between two positions of the state.
#[derive(Debug, Clone, Copy, PartialEq, Eq, Structural)]
pub struct Constraint {
    pub left: usize,
    pub op: ConstraintOp,
    pub right: usize,
}

impl Constraint {
    /// `None` when a position lies outside the state.
    pub open spec fn check(self, state: Seq<Val>) -> Option<bool> {
        if self.left < state.len() && self.right < state.len() {
            Some(holds(self.op, state[self.left as int], state[self.right as int]))
        } else {
            None
        }
    }

    /// Whether the constraint holds in `state`; both positions must be bound.
    pub fn is_satisfied_by(&self, state: &Vec<Value>) -> (r: bool)
        requires
            self.left < state.len(),
            self.right < state.len(),
        ensures
            self.check(models(state@)) == Some(r),
    {
        let a = &state[self.left];
        let b = &state[self.right];
        proof {
            crate::value::lemma_cmp_val(model(*a), model(*b));
        }
        match self.op {
            ConstraintOp::EQ => values_equal(a, b),
            ConstraintOp::NEQ => !values_equal(a, b),
            ConstraintOp::LT => compare(a, b) < 0,
            ConstraintOp::GT => compare(a, b) > 0,
            ConstraintOp::LTE => compare(a, b) <= 0,
            ConstraintOp::GTE => compare(a, b) >= 0,
        }
    }
}

/// Checks `cs[i..]` in order: the first constraint out of range gives `None`,
/// the first that fails gives `Some(false)`.
pub open spec fn check_all(cs: Seq<Constraint>, state: Seq<Val>, i: int) -> Option<bool>
    decreases cs.len() - i,
{
    if i < 0 || i >= cs.len() {
        Some(true)
    } else {
        match cs[i].check(state) {
            None => None,
            Some(false) => Some(false),
            Some(true) => check_all(cs, state, i + 1),
        }
    }
}

/// Checks every constraint of `cs` against `state`, stopping at the first that
/// fails or is out of range.
pub fn satisfies_all(cs: &Vec<Constraint>, state: &Vec<Value>) -> (r: Result<bool, ShapeError>)
    ensures
        match check_all(cs@, models(state@), 0) {
            Some(b) => r == Ok::<bool, ShapeError>(b),
            None => r is Err,
        },
{
    let mut i: usize = 0;
    while i < cs.len()
        invariant
            i <= cs.len(),
            check_all(cs@, models(state@), 0) == check_all(cs@, models(state@), i as int),
        decreases cs.len() - i,
    {
        let c = &cs[i];
        if c.left >= state.len() || c.right >= state.len() {
            return Err(ShapeError);
        }
        if !c.is_satisfied_by(state) {
            return Ok(false);
        }
        i = i + 1;
    }
    Ok(true)
}

/// A reference to a value: a position of the state, or of the constants.
#[derive(Debug, Clone, Copy, PartialEq, Eq, Structural)]
pub enum Reference {
    Bound(usize),
    Constant(usize),
}

pub open spec fn resolve(r: Reference, constants: Seq<Val>, state: Seq<Val>) -> Option<Val> {
    match r {
        Reference::Bound(i) => if i < state.len() {
            Some(state[i as int])
        } else {
            None
        },
        Reference::Constant(i) => if i < constants.len() {
            Some(constants[i as int])
        } else {
            None
        },
    }
}

/// Finds the value that `r` refers to.
pub fn resolve_ref(r: Reference, constants: &Vec<Value>, state: &Vec<Value>) -> (v: Result<Value, ShapeError>)
    ensures
        match resolve(r, models(constants@), models(state@)) {
            Some(x) => v is Ok && model(v->Ok_0) == x,
            None => v is Err,
        },
{
    match r {
        Reference::Bound(i) => if i < state.len() {
            Ok(copy_value(&state[i]))
        } else {
            Err(ShapeError)
        },
        Reference::Constant(i) => if i < constants.len() {
            Ok(copy_value(&constants[i]))
        } else {
            Err(ShapeError)
        },
    }
}

/// An output selector: builds one tuple, column by column, from the state and
/// the constants.
#[derive(Debug)]
pub struct ViewSelect {
    pub mapping: Vec<Reference>,
}

/// The tuple that `mapping` builds, or `None` where a reference is out of range.
pub open spec fn select_tuple(mapping: Seq<Reference>, constants: Seq<Val>, state: Seq<Val>) -> Option<Seq<Val>> {
    if forall|k: int| 0 <= k < mapping.len() ==> (#[trigger] resolve(mapping[k], constants, state)) is Some {
        Some(Seq::new(mapping.len(), |k: int| resolve(mapping[k], constants, state)->Some_0))
    } else {
        None
    }
}

impl ViewSelect {
    pub fn select(&self, constants: &Vec<Value>, state: &Vec<Value>) -> (r: Result<Vec<Value>, ShapeError>)
        ensures
            match select_tuple(self.mapping@, models(constants@), models(state@)) {
                Some(t) => r is Ok && models(r->Ok_0@) == t,
                None => r is Err,
            },
    {
        let ghost cs = models(constants@);
        let ghost st = models(state@);
        let mut out: Vec<Value> = Vec::new();
        let mut k: usize = 0;
        while k < self.mapping.len()
            invariant
                k <= self.mapping.len(),
                cs == models(constants@),
                st == models(state@),
                out@.len() == k,
                forall|j: int| 0 <= j < k ==> (#[trigger] resolve(self.mapping@[j], cs, st)) is Some,
                forall|j: int| 0 <= j < k ==> model(#[trigger] out@[j]) == resolve(self.mapping@[j], cs, st)->Some_0,
            decreases self.mapping.len() - k,
        {
            let v = resolve_ref(self.mapping[k], constants, state);
            match v {
                Err(e) => {
                    return Err(e);
                },
                Ok(v) => {
                    out.push(v);
                },
            }
            k = k + 1;
        }
        proof {
            lemma_models(out@);
            assert(models(out@) =~= Seq::new(
                self.mapping@.len(),
                |k: int| resolve(self.mapping@[k], cs, st)->Some_0,
            ));
        }
        Ok(out)
    }
}

/// A row selector: projects every row of one input onto the columns of `mapping`.
#[derive(Debug)]
pub struct IndexSelect {
    pub source: usize,
    pub mapping: Vec<usize>,
}

/// `row` projected onto `mapping`, or `None` where a column is out of range.
pub open spec fn project(row: Seq<Val>, mapping: Seq<usize>) -> Option<Seq<Val>> {
    if forall|k: int| 0 <= k < mapping.len() ==> #[trigger] mapping[k] < row.len() {
        Some(Seq::new(mapping.len(), |k: int| row[mapping[k] as int]))
    } else {
        None
    }
}

/// Every row projected, or `None` where one projection fails.
pub open spec fn project_all(rows: Seq<Seq<Val>>, mapping: Seq<usize>) -> Option<Seq<Seq<Val>>> {
    if forall|i: int| 0 <= i < rows.len() ==> (#[trigger] project(rows[i], mapping)) is Some {
        Some(Seq::new(rows.len(), |i: int| project(rows[i], mapping)->Some_0))
    } else {
        None
    }
}

impl IndexSelect {
    pub open spec fn spec_select(&self, inputs: Seq<Seq<Seq<Val>>>) -> Option<Seq<Seq<Val>>> {
        if self.source < inputs.len() {
            project_all(inputs[self.source as int], self.mapping@)
        } else {
            None
        }
    }

    fn project_row(&self, row: &Vec<Value>) -> (r: Result<Vec<Value>, ShapeError>)
        ensures
            match project(models(row@), self.mapping@) {
                Some(t) => r is Ok && models(r->Ok_0@) == t,
                None => r is Err,
            },
    {
        let ghost m = models(row@);
        let mut out: Vec<Value> = Vec::new();
        let mut k: usize = 0;
        while k < self.mapping.len()
            invariant
                k <= self.mapping.len(),
                m == models(row@),
                m.len() == row@.len(),
                out@.len() == k,
                forall|j: int| 0 <= j < k ==> #[trigger] self.mapping@[j] < m.len(),
                forall|j: int| 0 <= j < k ==> model(#[trigger] out@[j]) == m[self.mapping@[j] as int],
            decreases self.mapping.len() - k,
        {
            let c = self.mapping[k];
            if c >= row.len() {
                return Err(ShapeError);
            }
            out.push(copy_value(&row[c]));
            k = k + 1;
        }
        proof {
            lemma_models(out@);
            assert(models(out@) =~= Seq::new(self.mapping@.len(), |k: int| m[self.mapping@[k] as int]));
        }
        Ok(out)
    }

    /// The projected rows of the selected input, in the input's order.
    pub fn select(&self, inputs: &[&Relation]) -> (r: Result<Vec<Vec<Value>>, ShapeError>)
        ensures
            match self.spec_select(input_rows(inputs@)) {
                Some(rows) => r is Ok && crate::relation::rows_of(r->Ok_0@) == rows,
                None => r is Err,
            },
    {
        if self.source >= inputs.len() {
            return Err(ShapeError);
        }
        let rel: &Relation = inputs[self.source];
        let ghost rows = rel.rows();
        assert(input_rows(inputs@)[self.source as int] == rows);
        let mut out: Vec<Vec<Value>> = Vec::new();
        let mut i: usize = 0;
        while i < rel.len()
            invariant
                i <= rows.len(),
                rows == rel.rows(),
                self.source < inputs@.len(),
                input_rows(inputs@)[self.source as int] == rows,
                out@.len() == i,
                forall|j: int| 0 <= j < i ==> (#[trigger] project(rows[j], self.mapping@)) is Some,
                forall|j: int| 0 <= j < i ==> models(#[trigger] out@[j]@) == project(rows[j], self.mapping@)->Some_0,
            decreases rows.len() - i,
        {
            let p = self.project_row(rel.tuple(i));
            match p {
                Err(e) => {
                    assert(!((project(rows[i as int], self.mapping@)) is Some));
                    assert(project_all(rows, self.mapping@) is None);
                    assert(input_rows(inputs@).len() == inputs@.len());
                    assert(self.spec_select(input_rows(inputs@)) is None);
                    return Err(e);
                },
                Ok(t) => {
                    out.push(t);
                },
            }
            i = i + 1;
        }
        assert(crate::relation::rows_of(out@) =~= Seq::new(rows.len(), |i: int| project(rows[i], self.mapping@)->Some_0));
        assert(project_all(rows, self.mapping@) is Some);
        Ok(out)
    }
}

} // verus!
