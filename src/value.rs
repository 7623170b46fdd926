//! Values, their mathematical model, and the total order on them.

use vstd::prelude::*;

verus! {

broadcast use {vstd::seq::group_seq_axioms, vstd::std_specs::vec::group_vec_axioms};

/// A datum as the contracts see it.
pub enum Val {
    Bool(bool),
    Text(Seq<char>),
    Number(int),
    Tuple(Seq<Val>),
    /// A nested relation: its rows, each as a `Val::Tuple`.
    Relation(Seq<Val>),
}

/// A datum. Numbers are 64-bit integers, so every pair of values is
/// comparable and the order below is total.
#[derive(Debug)]
pub enum Value {
    Bool(bool),
    String(String),
    Number(i64),
    Tuple(Vec<Value>),
    /// A nested relation, held as its rows.
    Relation(Vec<Vec<Value>>),
}

/// The model of a value.
pub open spec fn model(v: Value) -> Val
    decreases v, 0nat,
{
    match v {
        Value::Bool(b) => Val::Bool(b),
        Value::String(s) => Val::Text(s@),
        Value::Number(n) => Val::Number(n as int),
        Value::Tuple(t) => Val::Tuple(models(t@)),
        Value::Relation(r) => Val::Relation(row_vals(r@)),
    }
}

/// The model of a sequence of values, element by element.
pub open spec fn models(s: Seq<Value>) -> Seq<Val>
    decreases s, 1nat,
{
    if s.len() == 0 {
        Seq::empty()
    } else {
        models(s.drop_last()).push(model(s.last()))
    }
}

/// The rows of a nested relation, each as a tuple value.
pub open spec fn row_vals(s: Seq<Vec<Value>>) -> Seq<Val>
    decreases s, 1nat,
{
    if s.len() == 0 {
        Seq::empty()
    } else {
        row_vals(s.drop_last()).push(Val::Tuple(models(s.last()@)))
    }
}

/// `models` keeps the length and maps each element.
pub broadcast proof fn lemma_models(s: Seq<Value>)
    ensures
        #[trigger] models(s).len() == s.len(),
        forall|i: int| 0 <= i < s.len() ==> #[trigger] models(s)[i] == model(s[i]),
    decreases s.len(),
{
    if s.len() > 0 {
        lemma_models(s.drop_last());
    }
}

/// `row_vals` keeps the length and maps each row to a tuple value.
pub broadcast proof fn lemma_row_vals(s: Seq<Vec<Value>>)
    ensures
        #[trigger] row_vals(s).len() == s.len(),
        forall|i: int|
            0 <= i < s.len() ==> #[trigger] row_vals(s)[i] == Val::Tuple(models(s[i]@)),
    decreases s.len(),
{
    if s.len() > 0 {
        lemma_row_vals(s.drop_last());
    }
}

pub broadcast group group_model_lemmas {
    lemma_models,
    lemma_row_vals,
}

/// The position of a variant in the order of values.
pub open spec fn rank(v: Val) -> int {
    match v {
        Val::Bool(_) => 0,
        Val::Text(_) => 1,
        Val::Number(_) => 2,
        Val::Tuple(_) => 3,
        Val::Relation(_) => 4,
    }
}

/// Three-way comparison of integers: -1, 0 or 1.
pub open spec fn cmp_int(a: int, b: int) -> int {
    if a < b {
        -1
    } else if a == b {
        0
    } else {
        1
    }
}

pub open spec fn bool_rank(b: bool) -> int {
    if b {
        1
    } else {
        0
    }
}

/// Lexicographic comparison of texts, by code point.
pub open spec fn cmp_text(a: Seq<char>, b: Seq<char>) -> int
    decreases a.len(),
{
    if a.len() == 0 {
        if b.len() == 0 {
            0
        } else {
            -1
        }
    } else if b.len() == 0 {
        1
    } else if a[0] != b[0] {
        cmp_int(a[0] as int, b[0] as int)
    } else {
        cmp_text(a.drop_first(), b.drop_first())
    }
}

/// The total order on values: by variant first, then by contents.
pub open spec fn cmp_val(a: Val, b: Val) -> int
    decreases a, 0nat,
{
    if rank(a) != rank(b) {
        cmp_int(rank(a), rank(b))
    } else {
        match a {
            Val::Bool(x) => match b {
                Val::Bool(y) => cmp_int(bool_rank(x), bool_rank(y)),
                _ => 0,
            },
            Val::Text(x) => match b {
                Val::Text(y) => cmp_text(x, y),
                _ => 0,
            },
            Val::Number(x) => match b {
                Val::Number(y) => cmp_int(x, y),
                _ => 0,
            },
            Val::Tuple(x) => match b {
                Val::Tuple(y) => cmp_seq(x, y),
                _ => 0,
            },
            Val::Relation(x) => match b {
                Val::Relation(y) => cmp_seq(x, y),
                _ => 0,
            },
        }
    }
}

/// Lexicographic comparison of sequences of values; a proper prefix comes first.
pub open spec fn cmp_seq(a: Seq<Val>, b: Seq<Val>) -> int
    decreases a, 1nat,
{
    if a.len() == 0 {
        if b.len() == 0 {
            0
        } else {
            -1
        }
    } else if b.len() == 0 {
        1
    } else if cmp_val(a[0], b[0]) != 0 {
        cmp_val(a[0], b[0])
    } else {
        cmp_seq(a.drop_first(), b.drop_first())
    }
}

proof fn lemma_cmp_text(a: Seq<char>, b: Seq<char>)
    ensures
        -1 <= cmp_text(a, b) <= 1,
        cmp_text(a, b) == 0 <==> a == b,
        cmp_text(a, b) == -cmp_text(b, a),
    decreases a.len(),
{
    if a.len() > 0 && b.len() > 0 {
        lemma_cmp_text(a.drop_first(), b.drop_first());
        if a[0] == b[0] && a.drop_first() == b.drop_first() {
            assert(a =~= seq![a[0]] + a.drop_first());
            assert(b =~= seq![b[0]] + b.drop_first());
        }
    }
    if a.len() == 0 && b.len() == 0 {
        assert(a =~= b);
    }
}

/// The order on values is a three-way comparison that is zero exactly on equal
/// values and antisymmetric.
pub proof fn lemma_cmp_val(a: Val, b: Val)
    ensures
        -1 <= cmp_val(a, b) <= 1,
        cmp_val(a, b) == 0 <==> a == b,
        cmp_val(a, b) == -cmp_val(b, a),
    decreases a, 0nat,
{
    if rank(a) == rank(b) {
        match a {
            Val::Text(x) => match b {
                Val::Text(y) => lemma_cmp_text(x, y),
                _ => {},
            },
            Val::Tuple(x) => match b {
                Val::Tuple(y) => lemma_cmp_seq(x, y),
                _ => {},
            },
            Val::Relation(x) => match b {
                Val::Relation(y) => lemma_cmp_seq(x, y),
                _ => {},
            },
            _ => {},
        }
    }
}

/// The same three facts for sequences of values.
pub proof fn lemma_cmp_seq(a: Seq<Val>, b: Seq<Val>)
    ensures
        -1 <= cmp_seq(a, b) <= 1,
        cmp_seq(a, b) == 0 <==> a == b,
        cmp_seq(a, b) == -cmp_seq(b, a),
    decreases a, 1nat,
{
    if a.len() > 0 && b.len() > 0 {
        lemma_cmp_val(a[0], b[0]);
        lemma_cmp_seq(a.drop_first(), b.drop_first());
        if a[0] == b[0] && a.drop_first() == b.drop_first() {
            assert(a =~= seq![a[0]] + a.drop_first());
            assert(b =~= seq![b[0]] + b.drop_first());
        }
    }
    if a.len() == 0 && b.len() == 0 {
        assert(a =~= b);
    }
}

fn compare_text(a: &String, b: &String) -> (r: i8)
    ensures
        r as int == cmp_text(a@, b@),
{
    let sa = a.as_str();
    let sb = b.as_str();
    let la = sa.unicode_len();
    let lb = sb.unicode_len();
    let mut i: usize = 0;
    assert(a@.skip(0) =~= a@);
    assert(b@.skip(0) =~= b@);
    while i < la && i < lb
        invariant
            la == a@.len(),
            lb == b@.len(),
            sa@ == a@,
            sb@ == b@,
            i <= la,
            i <= lb,
            cmp_text(a@, b@) == cmp_text(a@.skip(i as int), b@.skip(i as int)),
        decreases la - i,
    {
        let ca = sa.get_char(i);
        let cb = sb.get_char(i);
        assert(a@.skip(i as int).drop_first() =~= a@.skip(i + 1));
        assert(b@.skip(i as int).drop_first() =~= b@.skip(i + 1));
        if ca != cb {
            if (ca as u32) < (cb as u32) {
                return -1;
            } else {
                return 1;
            }
        }
        i = i + 1;
    }
    if i < lb {
        -1
    } else if i < la {
        1
    } else {
        0
    }
}

/// Compares two values in the total order: -1, 0 or 1.
pub fn compare(a: &Value, b: &Value) -> (r: i8)
    ensures
        r as int == cmp_val(model(*a), model(*b)),
    decreases a, 2nat,
{
    match (a, b) {
        (Value::Bool(x), Value::Bool(y)) => {
            if *x == *y {
                0
            } else if !*x {
                -1
            } else {
                1
            }
        },
        (Value::String(x), Value::String(y)) => compare_text(x, y),
        (Value::Number(x), Value::Number(y)) => {
            if *x < *y {
                -1
            } else if *x == *y {
                0
            } else {
                1
            }
        },
        (Value::Tuple(x), Value::Tuple(y)) => compare_tuples(x, y),
        (Value::Relation(x), Value::Relation(y)) => compare_rows(x, y),
        _ => {
            let ra = variant_rank(a);
            let rb = variant_rank(b);
            if ra < rb {
                -1
            } else {
                1
            }
        },
    }
}

fn variant_rank(v: &Value) -> (r: u8)
    ensures
        r as int == rank(model(*v)),
{
    match v {
        Value::Bool(_) => 0,
        Value::String(_) => 1,
        Value::Number(_) => 2,
        Value::Tuple(_) => 3,
        Value::Relation(_) => 4,
    }
}

/// Compares two tuples lexicographically: -1, 0 or 1.
pub fn compare_tuples(a: &Vec<Value>, b: &Vec<Value>) -> (r: i8)
    ensures
        r as int == cmp_seq(models(a@), models(b@)),
    decreases a, 1nat,
{
    broadcast use group_model_lemmas;

    let ghost ma = models(a@);
    let ghost mb = models(b@);
    let mut i: usize = 0;
    assert(ma.skip(0) =~= ma);
    assert(mb.skip(0) =~= mb);
    while i < a.len() && i < b.len()
        invariant
            i <= a.len(),
            i <= b.len(),
            ma == models(a@),
            mb == models(b@),
            ma.len() == a.len(),
            mb.len() == b.len(),
            cmp_seq(ma, mb) == cmp_seq(ma.skip(i as int), mb.skip(i as int)),
        decreases a.len() - i,
    {
        assert(ma.skip(i as int).drop_first() =~= ma.skip(i + 1));
        assert(mb.skip(i as int).drop_first() =~= mb.skip(i + 1));
        assert(decreases_to!(a => a[i as int]));
        let c = compare(&a[i], &b[i]);
        proof {
            lemma_models(a@);
            lemma_models(b@);
        }
        assert(models(a@)[i as int] == model(a@[i as int]));
        assert(models(b@)[i as int] == model(b@[i as int]));
        assert(ma.skip(i as int)[0] == ma[i as int] && ma[i as int] == model(a@[i as int]));
        assert(mb.skip(i as int)[0] == mb[i as int] && mb[i as int] == model(b@[i as int]));
        if c != 0 {
            return c;
        }
        i = i + 1;
    }
    if i < b.len() {
        -1
    } else if i < a.len() {
        1
    } else {
        0
    }
}

fn compare_rows(a: &Vec<Vec<Value>>, b: &Vec<Vec<Value>>) -> (r: i8)
    ensures
        r as int == cmp_seq(row_vals(a@), row_vals(b@)),
    decreases a, 1nat,
{
    broadcast use group_model_lemmas;

    let ghost ma = row_vals(a@);
    let ghost mb = row_vals(b@);
    let mut i: usize = 0;
    assert(ma.skip(0) =~= ma);
    assert(mb.skip(0) =~= mb);
    while i < a.len() && i < b.len()
        invariant
            i <= a.len(),
            i <= b.len(),
            ma == row_vals(a@),
            mb == row_vals(b@),
            ma.len() == a.len(),
            mb.len() == b.len(),
            cmp_seq(ma, mb) == cmp_seq(ma.skip(i as int), mb.skip(i as int)),
        decreases a.len() - i,
    {
        assert(ma.skip(i as int).drop_first() =~= ma.skip(i + 1));
        assert(mb.skip(i as int).drop_first() =~= mb.skip(i + 1));
        assert(decreases_to!(a => a[i as int]));
        let c = compare_tuples(&a[i], &b[i]);
        proof {
            lemma_row_vals(a@);
            lemma_row_vals(b@);
        }
        assert(row_vals(a@)[i as int] == Val::Tuple(models(a@[i as int]@)));
        assert(row_vals(b@)[i as int] == Val::Tuple(models(b@[i as int]@)));
        assert(ma.skip(i as int)[0] == ma[i as int] && ma[i as int] == Val::Tuple(models(a@[i as int]@)));
        assert(mb.skip(i as int)[0] == mb[i as int] && mb[i as int] == Val::Tuple(models(b@[i as int]@)));
        assert(cmp_val(ma[i as int], mb[i as int]) == cmp_seq(models(a@[i as int]@), models(b@[i as int]@)));
        if c != 0 {
            return c;
        }
        i = i + 1;
    }
    if i < b.len() {
        -1
    } else if i < a.len() {
        1
    } else {
        0
    }
}

/// Structural equality of two values.
pub fn values_equal(a: &Value, b: &Value) -> (r: bool)
    ensures
        r == (model(*a) == model(*b)),
{
    proof {
        lemma_cmp_val(model(*a), model(*b));
    }
    compare(a, b) == 0
}

/// Structural equality of two tuples.
pub fn tuples_equal(a: &Vec<Value>, b: &Vec<Value>) -> (r: bool)
    ensures
        r == (models(a@) == models(b@)),
{
    proof {
        lemma_cmp_seq(models(a@), models(b@));
    }
    compare_tuples(a, b) == 0
}

/// A deep copy of a value.
pub fn copy_value(v: &Value) -> (r: Value)
    ensures
        model(r) == model(*v),
    decreases v, 2nat,
{
    match v {
        Value::Bool(b) => Value::Bool(*b),
        Value::String(s) => Value::String(s.clone()),
        Value::Number(n) => Value::Number(*n),
        Value::Tuple(t) => Value::Tuple(copy_tuple(t)),
        Value::Relation(rs) => Value::Relation(copy_rows(rs)),
    }
}

/// A deep copy of a tuple.
pub fn copy_tuple(t: &Vec<Value>) -> (r: Vec<Value>)
    ensures
        models(r@) == models(t@),
    decreases t, 1nat,
{
    let mut r: Vec<Value> = Vec::new();
    let mut i: usize = 0;
    while i < t.len()
        invariant
            i <= t.len(),
            models(r@) == models(t@.take(i as int)),
        decreases t.len() - i,
    {
        assert(decreases_to!(t => t[i as int]));
        let x = copy_value(&t[i]);
        let ghost before = r@;
        r.push(x);
        assert(r@.drop_last() =~= before);
        assert(t@.take(i + 1).drop_last() =~= t@.take(i as int));
        i = i + 1;
    }
    assert(t@.take(t.len() as int) =~= t@);
    r
}

fn copy_rows(rs: &Vec<Vec<Value>>) -> (r: Vec<Vec<Value>>)
    ensures
        row_vals(r@) == row_vals(rs@),
    decreases rs, 1nat,
{
    let mut r: Vec<Vec<Value>> = Vec::new();
    let mut i: usize = 0;
    while i < rs.len()
        invariant
            i <= rs.len(),
            row_vals(r@) == row_vals(rs@.take(i as int)),
        decreases rs.len() - i,
    {
        assert(decreases_to!(rs => rs[i as int]));
        let x = copy_tuple(&rs[i]);
        let ghost before = r@;
        r.push(x);
        assert(r@.drop_last() =~= before);
        assert(rs@.take(i + 1).drop_last() =~= rs@.take(i as int));
        i = i + 1;
    }
    assert(rs@.take(rs.len() as int) =~= rs@);
    r
}

impl Value {
    /// The text of a string value.
    pub fn as_str(&self) -> (r: &str)
        requires
            self is String,
        ensures
            model(*self) == Val::Text(r@),
    {
        match self {
            Value::String(s) => s.as_str(),
            _ => "",
        }
    }

    /// The element at position `i` of a tuple value.
    pub fn index(&self, i: usize) -> (r: &Value)
        requires
            self is Tuple,
            i < self->Tuple_0@.len(),
        ensures
            model(*self) == Val::Tuple(models(self->Tuple_0@)),
            model(*r) == models(self->Tuple_0@)[i as int],
    {
        proof {
            lemma_models(self->Tuple_0@);
        }
        match self {
            Value::Tuple(t) => &t[i],
            _ => self,
        }
    }

    /// The elements of a tuple value.
    pub fn as_slice(&self) -> (r: &[Value])
        requires
            self is Tuple,
        ensures
            model(*self) == Val::Tuple(models(r@)),
    {
        match self {
            Value::Tuple(t) => t.as_slice(),
            _ => &[],
        }
    }
}

/// The values of `a` followed by those of `b`.
pub fn concat_tuples(a: &Vec<Value>, b: &Vec<Value>) -> (r: Vec<Value>)
    ensures
        models(r@) == models(a@) + models(b@),
{
    let mut r = copy_tuple(a);
    let mut i: usize = 0;
    while i < b.len()
        invariant
            i <= b.len(),
            models(r@) == models(a@) + models(b@.take(i as int)),
        decreases b.len() - i,
    {
        let x = copy_value(&b[i]);
        let ghost before = r@;
        r.push(x);
        assert(r@.drop_last() =~= before);
        assert(b@.take(i + 1).drop_last() =~= b@.take(i as int));
        assert(models(a@) + models(b@.take(i + 1)) =~= (models(a@) + models(b@.take(i as int))).push(
            model(b@[i as int]),
        ));
        i = i + 1;
    }
    assert(b@.take(b.len() as int) =~= b@);
    r
}

/// Whether two texts are equal.
pub fn text_equal(a: &str, b: &str) -> (r: bool)
    ensures
        r == (a@ == b@),
{
    if a.unicode_len() != b.unicode_len() {
        return false;
    }
    let n = a.unicode_len();
    let mut i: usize = 0;
    while i < n
        invariant
            n == a@.len() == b@.len(),
            i <= n,
            forall|k: int| 0 <= k < i ==> a@[k] == b@[k],
        decreases n - i,
    {
        if a.get_char(i) != b.get_char(i) {
            return false;
        }
        i = i + 1;
    }
    assert(a@ =~= b@);
    true
}

proof fn lemma_cmp_text_trans(a: Seq<char>, b: Seq<char>, c: Seq<char>)
    requires
        cmp_text(a, b) <= 0,
        cmp_text(b, c) <= 0,
    ensures
        cmp_text(a, c) <= 0,
    decreases a.len(),
{
    if a.len() > 0 && b.len() > 0 && c.len() > 0 && a[0] == b[0] && b[0] == c[0] {
        lemma_cmp_text_trans(a.drop_first(), b.drop_first(), c.drop_first());
    }
}

/// The order on values is transitive.
pub proof fn lemma_cmp_val_trans(a: Val, b: Val, c: Val)
    requires
        cmp_val(a, b) <= 0,
        cmp_val(b, c) <= 0,
    ensures
        cmp_val(a, c) <= 0,
    decreases a, 0nat,
{
    if rank(a) == rank(b) && rank(b) == rank(c) {
        match (a, b, c) {
            (Val::Text(x), Val::Text(y), Val::Text(z)) => lemma_cmp_text_trans(x, y, z),
            (Val::Tuple(x), Val::Tuple(y), Val::Tuple(z)) => lemma_cmp_seq_trans(x, y, z),
            (Val::Relation(x), Val::Relation(y), Val::Relation(z)) => lemma_cmp_seq_trans(x, y, z),
            _ => {},
        }
    }
}

/// The lexicographic order on sequences of values is transitive.
pub proof fn lemma_cmp_seq_trans(a: Seq<Val>, b: Seq<Val>, c: Seq<Val>)
    requires
        cmp_seq(a, b) <= 0,
        cmp_seq(b, c) <= 0,
    ensures
        cmp_seq(a, c) <= 0,
    decreases a, 1nat,
{
    if a.len() > 0 && b.len() > 0 && c.len() > 0 {
        lemma_cmp_val(a[0], b[0]);
        lemma_cmp_val(b[0], c[0]);
        lemma_cmp_val(a[0], c[0]);
        lemma_cmp_val_trans(a[0], b[0], c[0]);
        if cmp_val(a[0], b[0]) == 0 && cmp_val(b[0], c[0]) == 0 {
            lemma_cmp_seq_trans(a.drop_first(), b.drop_first(), c.drop_first());
        } else if a[0] == c[0] {
            lemma_cmp_val(c[0], b[0]);
        }
    }
}

} // verus!
