//! Conversions from plain Rust data to values, tuples and relations.

use vstd::prelude::*;
use crate::value::{Val, Value, model, models, lemma_models};
use crate::relation::Relation;

verus! {

/// Turns plain data into a value.
pub trait ToValue: Sized {
    spec fn value_model(self) -> Val;

    fn to_value(self) -> (r: Value)
        ensures
            model(r) == self.value_model(),
    ;
}

/// Turns plain data into a tuple.
pub trait ToTuple: Sized {
    spec fn tuple_model(self) -> Seq<Val>;

    fn to_tuple(self) -> (r: Vec<Value>)
        ensures
            models(r@) == self.tuple_model(),
    ;
}

/// Turns plain data into a relation.
pub trait ToRelation: Sized {
    spec fn relation_model(self) -> Set<Seq<Val>>;

    fn to_relation(self) -> (r: Relation)
        ensures
            r.wf(),
            r.contents() == self.relation_model(),
    ;
}

impl ToValue for Value {
    open spec fn value_model(self) -> Val {
        model(self)
    }

    fn to_value(self) -> (r: Value) {
        self
    }
}

impl ToValue for bool {
    open spec fn value_model(self) -> Val {
        Val::Bool(self)
    }

    fn to_value(self) -> (r: Value) {
        Value::Bool(self)
    }
}

impl<'a> ToValue for &'a str {
    open spec fn value_model(self) -> Val {
        Val::Text(self@)
    }

    fn to_value(self) -> (r: Value) {
        Value::String(self.to_string())
    }
}

impl ToValue for String {
    open spec fn value_model(self) -> Val {
        Val::Text(self@)
    }

    fn to_value(self) -> (r: Value) {
        Value::String(self)
    }
}

impl ToValue for i64 {
    open spec fn value_model(self) -> Val {
        Val::Number(self as int)
    }

    fn to_value(self) -> (r: Value) {
        Value::Number(self)
    }
}

impl ToValue for i32 {
    open spec fn value_model(self) -> Val {
        Val::Number(self as int)
    }

    fn to_value(self) -> (r: Value) {
        Value::Number(self as i64)
    }
}

impl ToValue for Vec<Value> {
    open spec fn value_model(self) -> Val {
        Val::Tuple(models(self@))
    }

    fn to_value(self) -> (r: Value) {
        Value::Tuple(self)
    }
}

impl<A: ToValue> ToTuple for (A,) {
    open spec fn tuple_model(self) -> Seq<Val> {
        seq![self.0.value_model()]
    }

    fn to_tuple(self) -> (r: Vec<Value>) {
        let (a,) = self;
        let r = vec![a.to_value()];
        proof {
            lemma_models(r@);
        }
        assert(models(r@) =~= self.tuple_model());
        r
    }
}

impl<A: ToValue, B: ToValue> ToTuple for (A, B) {
    open spec fn tuple_model(self) -> Seq<Val> {
        seq![self.0.value_model(), self.1.value_model()]
    }

    fn to_tuple(self) -> (r: Vec<Value>) {
        let (a, b) = self;
        let r = vec![a.to_value(), b.to_value()];
        proof {
            lemma_models(r@);
        }
        assert(models(r@) =~= self.tuple_model());
        r
    }
}

impl<A: ToValue, B: ToValue, C: ToValue> ToTuple for (A, B, C) {
    open spec fn tuple_model(self) -> Seq<Val> {
        seq![self.0.value_model(), self.1.value_model(), self.2.value_model()]
    }

    fn to_tuple(self) -> (r: Vec<Value>) {
        let (a, b, c) = self;
        let r = vec![a.to_value(), b.to_value(), c.to_value()];
        proof {
            lemma_models(r@);
        }
        assert(models(r@) =~= self.tuple_model());
        r
    }
}

impl<A: ToValue, B: ToValue, C: ToValue, D: ToValue> ToTuple for (A, B, C, D) {
    open spec fn tuple_model(self) -> Seq<Val> {
        seq![self.0.value_model(), self.1.value_model(), self.2.value_model(), self.3.value_model()]
    }

    fn to_tuple(self) -> (r: Vec<Value>) {
        let (a, b, c, d) = self;
        let r = vec![a.to_value(), b.to_value(), c.to_value(), d.to_value()];
        proof {
            lemma_models(r@);
        }
        assert(models(r@) =~= self.tuple_model());
        r
    }
}

impl<A: ToValue, B: ToValue, C: ToValue, D: ToValue, E: ToValue> ToTuple for (A, B, C, D, E) {
    open spec fn tuple_model(self) -> Seq<Val> {
        seq![
            self.0.value_model(),
            self.1.value_model(),
            self.2.value_model(),
            self.3.value_model(),
            self.4.value_model(),
        ]
    }

    fn to_tuple(self) -> (r: Vec<Value>) {
        let (a, b, c, d, e) = self;
        let r = vec![a.to_value(), b.to_value(), c.to_value(), d.to_value(), e.to_value()];
        proof {
            lemma_models(r@);
        }
        assert(models(r@) =~= self.tuple_model());
        r
    }
}

impl<T: ToTuple> ToRelation for Vec<T> {
    open spec fn relation_model(self) -> Set<Seq<Val>> {
        Set::new(|t: Seq<Val>| exists|i: int| 0 <= i < self@.len() && (#[trigger] self@[i]).tuple_model() == t)
    }

    fn to_relation(self) -> (r: Relation) {
        let ghost all = self@;
        let mut v = self;
        let mut rel = Relation::new();
        while v.len() > 0
            invariant
                rel.wf(),
                v@ == all.take(v@.len() as int),
                v@.len() <= all.len(),
                rel.contents() == Set::new(
                    |t: Seq<Val>|
                        exists|i: int| v@.len() <= i < all.len() && (#[trigger] all[i]).tuple_model() == t,
                ),
            decreases v@.len(),
        {
            let ghost n = v@.len();
            let t = v.pop().unwrap();
            assert(all[n - 1] == t);
            let ghost m = t.tuple_model();
            let tuple = t.to_tuple();
            rel.insert(tuple);
            assert(v@ =~= all.take(v@.len() as int));
            assert(rel.contents() =~= Set::new(
                |x: Seq<Val>| exists|i: int| v@.len() <= i < all.len() && (#[trigger] all[i]).tuple_model() == x,
            )) by {
                assert forall|x: Seq<Val>| #[trigger] rel.contents().contains(x) implies exists|i: int|
                    v@.len() <= i < all.len() && (#[trigger] all[i]).tuple_model() == x by {
                    if x == m {
                        assert(all[n - 1].tuple_model() == x);
                    }
                }
            }
        }
        assert(rel.contents() =~= Set::new(
            |t: Seq<Val>| exists|i: int| 0 <= i < all.len() && (#[trigger] all[i]).tuple_model() == t,
        ));
        rel
    }
}

} // verus!
