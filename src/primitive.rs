//! Built-in functions that a join calls to generate rows, or an aggregate
//! calls to reduce a group to one value.

use vstd::prelude::*;
use crate::value::{Val, Value, model, models, lemma_models};
use crate::relation::rows_of;
use crate::select::ShapeError;

verus! {

broadcast use crate::value::group_model_lemmas;

#[derive(Debug, Clone, Copy, PartialEq, Eq, Structural)]
pub enum Primitive {
    /// Join source: one row holding the sum of the two argument positions.
    Add,
    /// Join source: one row `[n]` for each `lo <= n < hi`, the two argument
    /// positions holding `lo` and `hi`.
    Range,
    /// Reducer: the number of rows in the group.
    Count,
    /// Reducer: the sum of the group's column named by the one argument.
    Sum,
}

pub open spec fn fits_i64(n: int) -> bool {
    i64::MIN <= n <= i64::MAX
}

/// The number at position `i` of `state`, if there is one.
pub open spec fn number_at(state: Seq<Val>, i: int) -> Option<int> {
    if 0 <= i < state.len() {
        match state[i] {
            Val::Number(n) => Some(n),
            _ => None,
        }
    } else {
        None
    }
}

/// The sum of column `c` over `group`.
pub open spec fn column_sum(group: Seq<Seq<Val>>, c: int) -> int
    decreases group.len(),
{
    if group.len() == 0 {
        0
    } else {
        column_sum(group.drop_last(), c) + match number_at(group.last(), c) {
            Some(n) => n,
            None => 0,
        }
    }
}

/// The rows a primitive generates as a join source, or `None` where it cannot
/// be used so on these arguments.
pub open spec fn join_rows(p: Primitive, args: Seq<usize>, state: Seq<Val>) -> Option<Seq<Seq<Val>>> {
    if args.len() != 2 {
        None
    } else {
        match (number_at(state, args[0] as int), number_at(state, args[1] as int)) {
            (Some(x), Some(y)) => match p {
                Primitive::Add => if fits_i64(x + y) {
                    Some(seq![seq![Val::Number(x + y)]])
                } else {
                    None
                },
                Primitive::Range => Some(
                    Seq::new(if y > x { (y - x) as nat } else { 0 }, |i: int| seq![Val::Number(x + i)]),
                ),
                _ => None,
            },
            _ => None,
        }
    }
}

/// What a primitive reduces a group to, or `None` where it cannot be used so.
pub open spec fn reduce(p: Primitive, args: Seq<usize>, group: Seq<Seq<Val>>) -> Option<Val> {
    match p {
        Primitive::Count => if group.len() <= i64::MAX {
            Some(Val::Number(group.len() as int))
        } else {
            None
        },
        Primitive::Sum => if args.len() == 1 && (forall|i: int|
            0 <= i < group.len() ==> (#[trigger] number_at(group[i], args[0] as int)) is Some) && fits_i64(
            column_sum(group, args[0] as int),
        ) {
            Some(Val::Number(column_sum(group, args[0] as int)))
        } else {
            None
        },
        _ => None,
    }
}

fn number_of(state: &Vec<Value>, i: usize) -> (r: Option<i64>)
    ensures
        match number_at(models(state@), i as int) {
            Some(n) => r == Some(n as i64) && fits_i64(n),
            None => r is None,
        },
{
    proof {
        lemma_models(state@);
    }
    if i < state.len() {
        match &state[i] {
            Value::Number(n) => Some(*n),
            _ => None,
        }
    } else {
        None
    }
}

impl Primitive {
    /// The rows generated for the join state `state`.
    pub fn eval_from_join(&self, arguments: &Vec<usize>, state: &Vec<Value>) -> (r: Result<
        Vec<Vec<Value>>,
        ShapeError,
    >)
        ensures
            match join_rows(*self, arguments@, models(state@)) {
                Some(rows) => r is Ok && rows_of(r->Ok_0@) == rows,
                None => r is Err,
            },
    {
        if arguments.len() != 2 {
            return Err(ShapeError);
        }
        let (x, y) = match (number_of(state, arguments[0]), number_of(state, arguments[1])) {
            (Some(x), Some(y)) => (x, y),
            _ => {
                return Err(ShapeError);
            },
        };
        match self {
            Primitive::Add => {
                let s = x.checked_add(y);
                match s {
                    None => Err(ShapeError),
                    Some(s) => {
                        let out = vec![vec![Value::Number(s)]];
                        proof {
                            lemma_models(out@[0]@);
                            assert(models(out@[0]@) =~= seq![Val::Number(s as int)]);
                            assert(rows_of(out@) =~= seq![seq![Val::Number(x + y)]]);
                        }
                        Ok(out)
                    },
                }
            },
            Primitive::Range => {
                let mut out: Vec<Vec<Value>> = Vec::new();
                let mut n: i64 = x;
                while n < y
                    invariant
                        x <= n <= y || (n == x && y <= x),
                        out@.len() == n - x,
                        forall|i: int| 0 <= i < out@.len() ==> models(#[trigger] out@[i]@) == seq![Val::Number(x + i)],
                    decreases y - n,
                {
                    let row = vec![Value::Number(n)];
                    proof {
                        lemma_models(row@);
                        assert(models(row@) =~= seq![Val::Number(n as int)]);
                    }
                    out.push(row);
                    n = n + 1;
                }
                assert(rows_of(out@) =~= Seq::new(if y > x { (y - x) as nat } else { 0 }, |i: int| seq![Val::Number(x + i)]));
                Ok(out)
            },
            _ => Err(ShapeError),
        }
    }

    /// The value a group reduces to.
    pub fn eval_from_aggregate(&self, arguments: &Vec<usize>, group: &Vec<Vec<Value>>) -> (r: Result<Value, ShapeError>)
        ensures
            match reduce(*self, arguments@, rows_of(group@)) {
                Some(v) => r is Ok && model(r->Ok_0) == v,
                None => r is Err,
            },
    {
        let ghost g = rows_of(group@);
        match self {
            Primitive::Count => {
                if group.len() as u64 <= i64::MAX as u64 {
                    Ok(Value::Number(group.len() as i64))
                } else {
                    Err(ShapeError)
                }
            },
            Primitive::Sum => {
                if arguments.len() != 1 {
                    return Err(ShapeError);
                }
                let c = arguments[0];
                let mut acc: i128 = 0;
                let mut k: usize = 0;
                while k < group.len()
                    invariant
                        k <= group.len(),
                        g == rows_of(group@),
                        *self == Primitive::Sum,
                        arguments@.len() == 1,
                        c == arguments@[0],
                        acc == column_sum(g.take(k as int), c as int),
                        -(k as int) * 0x8000_0000_0000_0000 <= acc <= (k as int) * 0x8000_0000_0000_0000,
                        forall|i: int| 0 <= i < k ==> (#[trigger] number_at(g[i], c as int)) is Some,
                    decreases group.len() - k,
                {
                    assert(g.take(k + 1).drop_last() =~= g.take(k as int));
                    assert(g[k as int] == models(group@[k as int]@));
                    match number_of(&group[k], c) {
                        None => {
                            assert(!(number_at(g[k as int], c as int) is Some));
                            assert(g.len() == group@.len());
                            assert(!(forall|i: int| 0 <= i < g.len() ==> (#[trigger] number_at(g[i], arguments@[0] as int)) is Some));
                            return Err(ShapeError);
                        },
                        Some(n) => {
                            acc = acc + n as i128;
                        },
                    }
                    k = k + 1;
                }
                assert(g.take(group.len() as int) =~= g);
                if acc < i64::MIN as i128 || acc > i64::MAX as i128 {
                    Err(ShapeError)
                } else {
                    Ok(Value::Number(acc as i64))
                }
            },
            _ => Err(ShapeError),
        }
    }
}

} // verus!
