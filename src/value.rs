use vstd::prelude::*;

use crate::float_bits::{is_finite, lemma_close_bound_positive, reals_close, reals_close_exec};

verus! {

/// A floating-point number carried as plain values: its IEEE-754 encoding,
/// which equality reads, and its shortest decimal rendering, which commands
/// show.
#[derive(Clone, Debug)]
pub struct RealNum {
    pub bits: u64,
    pub text: String,
}

/// A settings-store value. A dictionary keeps its entries in order, one per
/// key; a timestamp is held as its canonical text; a kind that the store has
/// and this type does not is `Unsupported`.
#[derive(Debug)]
pub enum Value {
    Boolean(bool),
    Integer(i64),
    Real(RealNum),
    Text(String),
    Binary(Vec<u8>),
    Array(Vec<Value>),
    Dictionary(Vec<(String, Value)>),
    Timestamp(String),
    Reference(u64),
    Unsupported,
}

/// What a value is, mathematically: strings as character sequences, bytes
/// and elements as sequences, integers unbounded.
pub enum ValueModel {
    Boolean(bool),
    Integer(int),
    Real(u64, Seq<char>),
    Text(Seq<char>),
    Binary(Seq<u8>),
    Array(Seq<ValueModel>),
    Dictionary(Seq<(Seq<char>, ValueModel)>),
    Timestamp(Seq<char>),
    Reference(u64),
    Unsupported,
}

pub open spec fn model_of(v: Value) -> ValueModel
    decreases v,
{
    proof {
        broadcast use vstd::std_specs::vec::group_vec_axioms, vstd::seq::group_seq_axioms;
    }
    match v {
        Value::Boolean(b) => ValueModel::Boolean(b),
        Value::Integer(i) => ValueModel::Integer(i as int),
        Value::Real(r) => ValueModel::Real(r.bits, r.text@),
        Value::Text(s) => ValueModel::Text(s@),
        Value::Binary(d) => ValueModel::Binary(d@),
        Value::Array(a) => ValueModel::Array(
            Seq::new(a@.len(), |i: int| if 0 <= i < a@.len() { model_of(a@[i]) } else { ValueModel::Unsupported }),
        ),
        Value::Dictionary(d) => ValueModel::Dictionary(
            Seq::new(d@.len(), |i: int| if 0 <= i < d@.len() { (d@[i].0@, model_of(d@[i].1)) } else { (Seq::empty(), ValueModel::Unsupported) }),
        ),
        Value::Timestamp(t) => ValueModel::Timestamp(t@),
        Value::Reference(u) => ValueModel::Reference(u),
        Value::Unsupported => ValueModel::Unsupported,
    }
}


impl View for Value {
    type V = ValueModel;

    open spec fn view(&self) -> ValueModel {
        model_of(*self)
    }
}

/// Deep equality of two values: the same variant, and equal contents.
/// Reals are equal when their difference, rounded to a double, is below
/// `f64::EPSILON`.
/// Arrays are compared element by element in order; dictionaries have the
/// same size and each entry of the first is matched by an entry of the
/// second with the same key and an equal value.
pub open spec fn equal_models(a: ValueModel, b: ValueModel) -> bool
    decreases a, 0nat,
{
    match (a, b) {
        (ValueModel::Boolean(x), ValueModel::Boolean(y)) => x == y,
        (ValueModel::Integer(x), ValueModel::Integer(y)) => x == y,
        (ValueModel::Real(x, _), ValueModel::Real(y, _)) => reals_close(x, y),
        (ValueModel::Text(x), ValueModel::Text(y)) => x == y,
        (ValueModel::Binary(x), ValueModel::Binary(y)) => x == y,
        (ValueModel::Array(xs), ValueModel::Array(ys)) => xs.len() == ys.len() && equal_prefix(
            xs,
            ys,
            xs.len(),
        ),
        (ValueModel::Dictionary(xs), ValueModel::Dictionary(ys)) => xs.len() == ys.len()
            && entries_matched(xs, ys, xs.len()),
        (ValueModel::Timestamp(x), ValueModel::Timestamp(y)) => x == y,
        (ValueModel::Reference(x), ValueModel::Reference(y)) => x == y,
        (ValueModel::Unsupported, ValueModel::Unsupported) => true,
        _ => false,
    }
}

/// The first `n` elements of `xs` and `ys` are pairwise equal.
pub open spec fn equal_prefix(xs: Seq<ValueModel>, ys: Seq<ValueModel>, n: nat) -> bool
    decreases xs, n,
{
    if n == 0 || n > xs.len() || n > ys.len() {
        n == 0
    } else {
        equal_prefix(xs, ys, (n - 1) as nat) && equal_models(xs[n - 1], ys[n - 1])
    }
}

/// Each of the first `n` entries of `xs` is matched in `ys`.
pub open spec fn entries_matched(
    xs: Seq<(Seq<char>, ValueModel)>,
    ys: Seq<(Seq<char>, ValueModel)>,
    n: nat,
) -> bool
    decreases xs, n,
{
    if n == 0 || n > xs.len() {
        n == 0
    } else {
        proof {
            assert(decreases_to!(xs => xs[n - 1]));
            assert(decreases_to!(xs[n - 1] => xs[n - 1].1));
        }
        entries_matched(xs, ys, (n - 1) as nat) && has_match(
            xs[n - 1].0,
            xs[n - 1].1,
            ys,
            ys.len(),
        )
    }
}

/// One of the first `m` entries of `ys` has key `k` and a value equal to `v`.
pub open spec fn has_match(k: Seq<char>, v: ValueModel, ys: Seq<(Seq<char>, ValueModel)>, m: nat) -> bool
    decreases v, m + 1,
{
    if m == 0 || m > ys.len() {
        false
    } else {
        (ys[m - 1].0 == k && equal_models(v, ys[m - 1].1)) || has_match(k, v, ys, (m - 1) as nat)
    }
}

/// Every real inside the value is finite (neither infinite nor NaN).
pub open spec fn finite_reals(v: ValueModel) -> bool
    decreases v, 0nat,
{
    match v {
        ValueModel::Real(bits, _) => is_finite(bits),
        ValueModel::Array(xs) => all_finite_reals(xs, xs.len()),
        ValueModel::Dictionary(es) => entries_finite_reals(es, es.len()),
        _ => true,
    }
}

/// Every real inside the first `n` elements is finite.
pub open spec fn all_finite_reals(xs: Seq<ValueModel>, n: nat) -> bool
    decreases xs, n,
{
    if n == 0 || n > xs.len() {
        true
    } else {
        all_finite_reals(xs, (n - 1) as nat) && finite_reals(xs[n - 1])
    }
}

/// Every real inside the values of the first `n` entries is finite.
pub open spec fn entries_finite_reals(es: Seq<(Seq<char>, ValueModel)>, n: nat) -> bool
    decreases es, n,
{
    if n == 0 || n > es.len() {
        true
    } else {
        proof {
            assert(decreases_to!(es => es[n - 1]));
            assert(decreases_to!(es[n - 1] => es[n - 1].1));
        }
        entries_finite_reals(es, (n - 1) as nat) && finite_reals(es[n - 1].1)
    }
}

/// Every value whose reals are all finite is equal to itself.
pub proof fn lemma_equal_models_reflexive(v: ValueModel)
    requires
        finite_reals(v),
    ensures
        equal_models(v, v),
    decreases v, 0nat,
{
    match v {
        ValueModel::Real(bits, _) => {
            lemma_close_bound_positive();
        },
        ValueModel::Array(xs) => {
            lemma_prefix_reflexive(xs, xs.len());
        },
        ValueModel::Dictionary(es) => {
            lemma_matched_reflexive(es, es.len());
        },
        _ => {},
    }
}

proof fn lemma_prefix_reflexive(xs: Seq<ValueModel>, n: nat)
    requires
        n <= xs.len(),
        all_finite_reals(xs, n),
    ensures
        equal_prefix(xs, xs, n),
    decreases xs, n,
{
    if n > 0 {
        lemma_prefix_reflexive(xs, (n - 1) as nat);
        lemma_equal_models_reflexive(xs[n - 1]);
    }
}

proof fn lemma_matched_reflexive(es: Seq<(Seq<char>, ValueModel)>, n: nat)
    requires
        n <= es.len(),
        entries_finite_reals(es, n),
    ensures
        entries_matched(es, es, n),
    decreases es, n,
{
    if n > 0 {
        assert(decreases_to!(es => es[n - 1]));
        assert(decreases_to!(es[n - 1] => es[n - 1].1));
        lemma_matched_reflexive(es, (n - 1) as nat);
        lemma_equal_models_reflexive(es[n - 1].1);
        assert(has_match(es[n - 1].0, es[n - 1].1, es, n));
        lemma_match_extends(es[n - 1].0, es[n - 1].1, es, n, es.len());
    }
}

/// Deep equality of two values, as `equal_models` states it.
pub fn values_equal(a: &Value, b: &Value) -> (r: bool)
    ensures
        r == equal_models(a@, b@),
    decreases a,
{
    proof {
        broadcast use vstd::std_specs::vec::group_vec_axioms, vstd::seq::group_seq_axioms;
    }
    match (a, b) {
        (Value::Boolean(x), Value::Boolean(y)) => *x == *y,
        (Value::Integer(x), Value::Integer(y)) => *x == *y,
        (Value::Real(x), Value::Real(y)) => reals_close_exec(x.bits, y.bits),
        (Value::Text(x), Value::Text(y)) => *x == *y,
        (Value::Binary(x), Value::Binary(y)) => bytes_equal(x, y),
        (Value::Array(xs), Value::Array(ys)) => {
            let ghost ma = a@->Array_0;
            let ghost mb = b@->Array_0;
            if xs.len() != ys.len() {
                return false;
            }
            let mut i: usize = 0;
            while i < xs.len()
                invariant
                    xs.len() == ys.len(),
                    i <= xs.len(),
                    a@ == ValueModel::Array(ma),
                    b@ == ValueModel::Array(mb),
                    ma.len() == xs@.len(),
                    mb.len() == ys@.len(),
                    *a == Value::Array(*xs),
                    forall|k: int| 0 <= k < xs.len() ==> #[trigger] ma[k] == xs@[k]@,
                    forall|k: int| 0 <= k < ys.len() ==> #[trigger] mb[k] == ys@[k]@,
                    equal_prefix(ma, mb, i as nat),
                decreases xs.len() - i,
            {
                let x = &xs[i];
                let y = &ys[i];
                proof {
                    assert(decreases_to!(*a => *xs));
                    assert(decreases_to!(*xs => xs@[i as int]));
                }
                if !values_equal(x, y) {
                    proof {
                        lemma_prefix_grows_false(ma, mb, i as nat, xs.len() as nat);
                    }
                    return false;
                }
                i = i + 1;
            }
            true
        },
        (Value::Dictionary(xs), Value::Dictionary(ys)) => {
            let ghost ma = a@->Dictionary_0;
            let ghost mb = b@->Dictionary_0;
            if xs.len() != ys.len() {
                return false;
            }
            let mut i: usize = 0;
            while i < xs.len()
                invariant
                    xs.len() == ys.len(),
                    i <= xs.len(),
                    a@ == ValueModel::Dictionary(ma),
                    b@ == ValueModel::Dictionary(mb),
                    ma.len() == xs@.len(),
                    mb.len() == ys@.len(),
                    *a == Value::Dictionary(*xs),
                    forall|k: int| 0 <= k < xs.len() ==> #[trigger] ma[k] == (xs@[k].0@, xs@[k].1@),
                    forall|k: int| 0 <= k < ys.len() ==> #[trigger] mb[k] == (ys@[k].0@, ys@[k].1@),
                    entries_matched(ma, mb, i as nat),
                decreases xs.len() - i,
            {
                let x = &xs[i];
                let mut j: usize = 0;
                let mut found = false;
                while j < ys.len() && !found
                    invariant
                        i < xs.len(),
                        j <= ys.len(),
                        mb.len() == ys@.len(),
                        ma.len() == xs@.len(),
                        *a == Value::Dictionary(*xs),
                        *x == xs@[i as int],
                        forall|k: int| 0 <= k < xs.len() ==> #[trigger] ma[k] == (xs@[k].0@, xs@[k].1@),
                        forall|k: int| 0 <= k < ys.len() ==> #[trigger] mb[k] == (ys@[k].0@, ys@[k].1@),
                        found ==> has_match(ma[i as int].0, ma[i as int].1, mb, mb.len()),
                        !found ==> !has_match(ma[i as int].0, ma[i as int].1, mb, j as nat),
                    decreases ys.len() - j, (if found { 0int } else { 1int }),
                {
                    let y = &ys[j];
                    proof {
                        assert(decreases_to!(*a => (*a)->Dictionary_0));
                        assert(decreases_to!(*xs => xs@[i as int]));
                        assert(decreases_to!(xs@[i as int] => xs@[i as int].1));
                    }
                    if x.0 == y.0 && values_equal(&x.1, &y.1) {
                        proof {
                            lemma_match_extends(ma[i as int].0, ma[i as int].1, mb, (j + 1) as nat, mb.len());
                        }
                        found = true;
                    } else {
                        j = j + 1;
                    }
                }
                if !found {
                    proof {
                        lemma_matched_grows_false(ma, mb, i as nat, xs.len() as nat);
                    }
                    return false;
                }
                i = i + 1;
            }
            true
        },
        (Value::Timestamp(x), Value::Timestamp(y)) => *x == *y,
        (Value::Reference(x), Value::Reference(y)) => *x == *y,
        (Value::Unsupported, Value::Unsupported) => true,
        _ => false,
    }
}

proof fn lemma_prefix_grows_false(xs: Seq<ValueModel>, ys: Seq<ValueModel>, i: nat, n: nat)
    requires
        i < n <= xs.len(),
        n <= ys.len(),
        !equal_models(xs[i as int], ys[i as int]),
    ensures
        !equal_prefix(xs, ys, n),
    decreases n,
{
    if n > i + 1 {
        lemma_prefix_grows_false(xs, ys, i, (n - 1) as nat);
    }
}

proof fn lemma_matched_grows_false(
    xs: Seq<(Seq<char>, ValueModel)>,
    ys: Seq<(Seq<char>, ValueModel)>,
    i: nat,
    n: nat,
)
    requires
        i < n <= xs.len(),
        !has_match(xs[i as int].0, xs[i as int].1, ys, ys.len()),
    ensures
        !entries_matched(xs, ys, n),
    decreases n,
{
    if n > i + 1 {
        lemma_matched_grows_false(xs, ys, i, (n - 1) as nat);
    }
}

proof fn lemma_match_extends(
    k: Seq<char>,
    v: ValueModel,
    ys: Seq<(Seq<char>, ValueModel)>,
    m: nat,
    n: nat,
)
    requires
        has_match(k, v, ys, m),
        m <= n <= ys.len(),
    ensures
        has_match(k, v, ys, n),
    decreases n,
{
    if n > m {
        lemma_match_extends(k, v, ys, m, (n - 1) as nat);
    }
}

fn copy_bytes(d: &Vec<u8>) -> (r: Vec<u8>)
    ensures
        r@ == d@,
{
    let mut r: Vec<u8> = Vec::new();
    let mut i: usize = 0;
    while i < d.len()
        invariant
            i <= d.len(),
            r@ == d@.take(i as int),
        decreases d.len() - i,
    {
        r.push(d[i]);
        i = i + 1;
        assert(r@ =~= d@.take(i as int));
    }
    assert(d@.take(d.len() as int) =~= d@);
    r
}

impl Value {
    /// A copy of this value, equal to it in every part.
    pub fn deep_copy(&self) -> (r: Value)
        ensures
            r@ == self@,
        decreases self,
    {
        proof {
            broadcast use vstd::std_specs::vec::group_vec_axioms, vstd::seq::group_seq_axioms;
        }
        match self {
            Value::Boolean(b) => Value::Boolean(*b),
            Value::Integer(i) => Value::Integer(*i),
            Value::Real(x) => Value::Real(RealNum { bits: x.bits, text: x.text.clone() }),
            Value::Text(t) => Value::Text(t.clone()),
            Value::Binary(d) => Value::Binary(copy_bytes(d)),
            Value::Array(xs) => {
                let mut out: Vec<Value> = Vec::new();
                let mut i: usize = 0;
                while i < xs.len()
                    invariant
                        i <= xs.len(),
                        out.len() == i,
                        *self == Value::Array(*xs),
                        forall|k: int| 0 <= k < i ==> #[trigger] out@[k]@ == xs@[k]@,
                    decreases xs.len() - i,
                {
                    proof {
                        assert(decreases_to!(*self => (*self)->Array_0));
                        assert(decreases_to!(*xs => xs@[i as int]));
                    }
                    let c = xs[i].deep_copy();
                    out.push(c);
                    i = i + 1;
                }
                let r = Value::Array(out);
                assert forall|k: int| 0 <= k < xs.len() implies r@->Array_0[k] == self@->Array_0[k] by {
                    assert(out@[k]@ == xs@[k]@);
                }
                assert(r@->Array_0 =~= self@->Array_0);
                r
            },
            Value::Dictionary(xs) => {
                let mut out: Vec<(String, Value)> = Vec::new();
                let mut i: usize = 0;
                while i < xs.len()
                    invariant
                        i <= xs.len(),
                        out.len() == i,
                        *self == Value::Dictionary(*xs),
                        forall|k: int|
                            0 <= k < i ==> #[trigger] out@[k].0@ == xs@[k].0@ && out@[k].1@
                                == xs@[k].1@,
                    decreases xs.len() - i,
                {
                    proof {
                        assert(decreases_to!(*self => (*self)->Dictionary_0));
                        assert(decreases_to!(*xs => xs@[i as int]));
                        assert(decreases_to!(xs@[i as int] => xs@[i as int].1));
                    }
                    let c = xs[i].1.deep_copy();
                    out.push((xs[i].0.clone(), c));
                    i = i + 1;
                }
                let r = Value::Dictionary(out);
                assert(r@->Dictionary_0 =~= self@->Dictionary_0);
                r
            },
            Value::Timestamp(t) => Value::Timestamp(t.clone()),
            Value::Reference(u) => Value::Reference(*u),
            Value::Unsupported => Value::Unsupported,
        }
    }
}

impl Clone for Value {
    fn clone(&self) -> Self {
        self.deep_copy()
    }
}

proof fn lemma_has_match_iff(k: Seq<char>, v: ValueModel, ys: Seq<(Seq<char>, ValueModel)>, m: nat)
    requires
        m <= ys.len(),
    ensures
        has_match(k, v, ys, m) <==> exists|j: int|
            0 <= j < m && #[trigger] ys[j].0 == k && equal_models(v, ys[j].1),
    decreases m,
{
    if m > 0 {
        lemma_has_match_iff(k, v, ys, (m - 1) as nat);
    }
}

proof fn lemma_matched_iff(xs: Seq<(Seq<char>, ValueModel)>, ys: Seq<(Seq<char>, ValueModel)>, n: nat)
    requires
        n <= xs.len(),
    ensures
        entries_matched(xs, ys, n) <==> forall|i: int|
            0 <= i < n ==> #[trigger] has_match(xs[i].0, xs[i].1, ys, ys.len()),
    decreases n,
{
    if n > 0 {
        lemma_matched_iff(xs, ys, (n - 1) as nat);
        assert(entries_matched(xs, ys, n) == (entries_matched(xs, ys, (n - 1) as nat) && has_match(
            xs[n - 1].0,
            xs[n - 1].1,
            ys,
            ys.len(),
        )));
        if forall|i: int| 0 <= i < n - 1 ==> #[trigger] has_match(xs[i].0, xs[i].1, ys, ys.len()) {
            if has_match(xs[n - 1].0, xs[n - 1].1, ys, ys.len()) {
                assert forall|i: int| 0 <= i < n implies #[trigger] has_match(xs[i].0, xs[i].1, ys, ys.len()) by {
                }
            }
        }
    }
}

/// No two entries have the same key.
pub open spec fn keys_unique(es: Seq<(Seq<char>, ValueModel)>) -> bool {
    forall|i: int, j: int| 0 <= i < j < es.len() ==> (#[trigger] es[i]).0 != (#[trigger] es[j]).0
}

/// The keys of the entries.
pub open spec fn key_set(es: Seq<(Seq<char>, ValueModel)>) -> Set<Seq<char>> {
    es.map_values(|e: (Seq<char>, ValueModel)| e.0).to_set()
}

proof fn lemma_key_set(es: Seq<(Seq<char>, ValueModel)>)
    requires
        keys_unique(es),
    ensures
        key_set(es).finite(),
        key_set(es).len() == es.len(),
        forall|k: Seq<char>| key_set(es).contains(k) <==> exists|i: int| 0 <= i < es.len() && #[trigger] es[i].0 == k,
{
    let ks = es.map_values(|e: (Seq<char>, ValueModel)| e.0);
    assert forall|i: int, j: int| 0 <= i < ks.len() && 0 <= j < ks.len() && i != j implies ks[i] != ks[j] by {
        if i < j {
            assert(es[i].0 != es[j].0);
        } else {
            assert(es[j].0 != es[i].0);
        }
    }
    ks.unique_seq_to_set();
    assert forall|k: Seq<char>| key_set(es).contains(k) <==> exists|i: int| 0 <= i < es.len() && #[trigger] es[i].0 == k by {
        if key_set(es).contains(k) {
            let i = choose|i: int| 0 <= i < ks.len() && ks[i] == k;
            assert(es[i].0 == k);
        }
        if exists|i: int| 0 <= i < es.len() && #[trigger] es[i].0 == k {
            let i = choose|i: int| 0 <= i < es.len() && #[trigger] es[i].0 == k;
            assert(ks[i] == k);
        }
    }
}

/// For dictionaries without repeated keys, equality is as one would state
/// it of maps: the two have the same keys, and the values under each key are
/// equal.
pub proof fn law_dictionary_equality(xs: Seq<(Seq<char>, ValueModel)>, ys: Seq<(Seq<char>, ValueModel)>)
    requires
        keys_unique(xs),
        keys_unique(ys),
    ensures
        equal_models(ValueModel::Dictionary(xs), ValueModel::Dictionary(ys)) <==> (key_set(xs) == key_set(ys)
            && forall|i: int, j: int|
            0 <= i < xs.len() && 0 <= j < ys.len() && #[trigger] xs[i].0 == #[trigger] ys[j].0
                ==> equal_models(xs[i].1, ys[j].1)),
{
    lemma_key_set(xs);
    lemma_key_set(ys);
    lemma_matched_iff(xs, ys, xs.len());
    assert forall|i: int| 0 <= i < xs.len() implies (#[trigger] has_match(xs[i].0, xs[i].1, ys, ys.len()))
        <==> exists|j: int| 0 <= j < ys.len() && #[trigger] ys[j].0 == xs[i].0 && equal_models(xs[i].1, ys[j].1) by {
        lemma_has_match_iff(xs[i].0, xs[i].1, ys, ys.len());
    }
    if equal_models(ValueModel::Dictionary(xs), ValueModel::Dictionary(ys)) {
        assert(key_set(xs).subset_of(key_set(ys))) by {
            assert forall|k: Seq<char>| key_set(xs).contains(k) implies key_set(ys).contains(k) by {
                let i = choose|i: int| 0 <= i < xs.len() && #[trigger] xs[i].0 == k;
                assert(has_match(xs[i].0, xs[i].1, ys, ys.len()));
                let j = choose|j: int| 0 <= j < ys.len() && #[trigger] ys[j].0 == xs[i].0 && equal_models(xs[i].1, ys[j].1);
                assert(ys[j].0 == k);
            }
        }
        vstd::set_lib::lemma_subset_equality(key_set(xs), key_set(ys));
        assert forall|i: int, j: int|
            0 <= i < xs.len() && 0 <= j < ys.len() && #[trigger] xs[i].0 == #[trigger] ys[j].0
                implies equal_models(xs[i].1, ys[j].1) by {
            assert(has_match(xs[i].0, xs[i].1, ys, ys.len()));
            let j2 = choose|j2: int| 0 <= j2 < ys.len() && #[trigger] ys[j2].0 == xs[i].0 && equal_models(xs[i].1, ys[j2].1);
            if j2 != j {
                if j2 < j {
                    assert(ys[j2].0 != ys[j].0);
                } else {
                    assert(ys[j].0 != ys[j2].0);
                }
            }
        }
    }
    if key_set(xs) == key_set(ys) && forall|i: int, j: int|
        0 <= i < xs.len() && 0 <= j < ys.len() && #[trigger] xs[i].0 == #[trigger] ys[j].0
            ==> equal_models(xs[i].1, ys[j].1) {
        assert forall|i: int| 0 <= i < xs.len() implies #[trigger] has_match(xs[i].0, xs[i].1, ys, ys.len()) by {
            assert(key_set(xs).contains(xs[i].0));
            assert(key_set(ys).contains(xs[i].0));
            let j = choose|j: int| 0 <= j < ys.len() && #[trigger] ys[j].0 == xs[i].0;
            assert(equal_models(xs[i].1, ys[j].1));
        }
    }
}

fn bytes_equal(a: &Vec<u8>, b: &Vec<u8>) -> (r: bool)
    ensures
        r == (a@ == b@),
{
    if a.len() != b.len() {
        return false;
    }
    let mut i: usize = 0;
    while i < a.len()
        invariant
            a.len() == b.len(),
            i <= a.len(),
            forall|k: int| 0 <= k < i ==> a@[k] == b@[k],
        decreases a.len() - i,
    {
        if a[i] != b[i] {
            return false;
        }
        i = i + 1;
    }
    assert(a@ =~= b@);
    true
}

} // verus!
