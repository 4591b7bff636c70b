use vstd::prelude::*;
use vstd::string::*;

use crate::text::{
    compare_str, lemma_str_lt_asymmetric, lemma_str_lt_irreflexive, lemma_str_lt_total,
    lemma_str_lt_transitive, str_lt,
};
use crate::value::{Value, ValueModel};

verus! {

/// Keys strictly increasing in ordinal order, hence unique.
pub open spec fn strictly_sorted<T>(e: Seq<(String, T)>) -> bool {
    forall|i: int, j: int| 0 <= i < j < e.len() ==> str_lt(#[trigger] e[i].0@, #[trigger] e[j].0@)
}

/// The map that a list of keyed entries describes, each entry's payload seen
/// through `f`.
pub open spec fn key_map<T, U>(e: Seq<(String, T)>, f: spec_fn(T) -> U) -> Map<Seq<char>, U> {
    Map::new(
        |k: Seq<char>| exists|i: int| 0 <= i < e.len() && #[trigger] e[i].0@ == k,
        |k: Seq<char>| f(e[choose|i: int| 0 <= i < e.len() && #[trigger] e[i].0@ == k].1),
    )
}

pub proof fn lemma_key_map_index<T, U>(e: Seq<(String, T)>, f: spec_fn(T) -> U, i: int)
    requires
        strictly_sorted(e),
        0 <= i < e.len(),
    ensures
        key_map(e, f).contains_key(e[i].0@),
        key_map(e, f)[e[i].0@] == f(e[i].1),
{
    let k = e[i].0@;
    assert forall|j: int| 0 <= j < e.len() && #[trigger] e[j].0@ == k implies j == i by {
        if j < i {
            assert(str_lt(e[j].0@, e[i].0@));
            lemma_str_lt_irreflexive(k);
        } else if j > i {
            assert(str_lt(e[i].0@, e[j].0@));
            lemma_str_lt_irreflexive(k);
        }
    }
    assert(key_map(e, f).contains_key(k));
}

proof fn lemma_key_map_same_keys<T, U>(
    a: Seq<(String, T)>,
    b: Seq<(String, T)>,
    f: spec_fn(T) -> U,
    p: int,
    fx: U,
)
    requires
        strictly_sorted(a),
        strictly_sorted(b),
        0 <= p < a.len(),
        a.len() == b.len(),
        forall|i: int| 0 <= i < a.len() ==> #[trigger] b[i].0@ == a[i].0@,
        forall|i: int| 0 <= i < a.len() && i != p ==> #[trigger] b[i] == a[i],
        f(b[p].1) == fx,
    ensures
        key_map(b, f) == key_map(a, f).insert(a[p].0@, fx),
{
    let ma = key_map(a, f);
    let mb = key_map(b, f);
    let goal = ma.insert(a[p].0@, fx);
    assert forall|k: Seq<char>| mb.contains_key(k) <==> goal.contains_key(k) by {
        if mb.contains_key(k) {
            let i = choose|i: int| 0 <= i < b.len() && #[trigger] b[i].0@ == k;
            assert(a[i].0@ == k);
        }
        if goal.contains_key(k) && k != a[p].0@ {
            let i = choose|i: int| 0 <= i < a.len() && #[trigger] a[i].0@ == k;
            assert(b[i].0@ == k);
        }
        if k == a[p].0@ {
            assert(b[p].0@ == k);
        }
    }
    assert forall|k: Seq<char>| mb.contains_key(k) implies mb[k] == goal[k] by {
        let i = choose|i: int| 0 <= i < b.len() && #[trigger] b[i].0@ == k;
        lemma_key_map_index(b, f, i);
        if i != p {
            lemma_key_map_index(a, f, i);
            assert(a[i].0@ != a[p].0@) by {
                if i < p {
                    assert(str_lt(a[i].0@, a[p].0@));
                } else {
                    assert(str_lt(a[p].0@, a[i].0@));
                }
                lemma_str_lt_irreflexive(a[i].0@);
            }
        }
    }
    assert(mb =~= goal);
}

proof fn lemma_put_insert<T, U>(
    a: Seq<(String, T)>,
    b: Seq<(String, T)>,
    p: int,
    k: Seq<char>,
    f: spec_fn(T) -> U,
    fx: U,
)
    requires
        strictly_sorted(a),
        0 <= p <= a.len(),
        forall|i: int| 0 <= i < p ==> str_lt(#[trigger] a[i].0@, k),
        forall|i: int| p <= i < a.len() ==> !str_lt(#[trigger] a[i].0@, k),
        p < a.len() ==> a[p].0@ != k,
        b.len() == a.len() + 1,
        b[p].0@ == k,
        f(b[p].1) == fx,
        forall|i: int| 0 <= i < p ==> #[trigger] b[i] == a[i],
        forall|i: int| p < i < b.len() ==> #[trigger] b[i] == a[i - 1],
    ensures
        strictly_sorted(b),
        key_map(b, f) == key_map(a, f).insert(k, fx),
{
    assert forall|i: int| p <= i < a.len() implies str_lt(k, #[trigger] a[i].0@) by {
        lemma_str_lt_total(a[p].0@, k);
        if i > p {
            lemma_str_lt_transitive(k, a[p].0@, a[i].0@);
        }
    }
    assert forall|i: int, j: int| 0 <= i < j < b.len() implies str_lt(
        #[trigger] b[i].0@,
        #[trigger] b[j].0@,
    ) by {
        if i < p && j == p {
        } else if i < p && j > p {
            assert(b[j] == a[j - 1]);
            lemma_str_lt_transitive(a[i].0@, k, a[j - 1].0@);
        } else if i == p {
            assert(b[j] == a[j - 1]);
        } else if i > p {
            assert(b[i] == a[i - 1]);
            assert(b[j] == a[j - 1]);
        }
    }
    let ma = key_map(a, f);
    let mb = key_map(b, f);
    let goal = ma.insert(k, fx);
    assert forall|q: Seq<char>| mb.contains_key(q) <==> goal.contains_key(q) by {
        if mb.contains_key(q) {
            let i = choose|i: int| 0 <= i < b.len() && #[trigger] b[i].0@ == q;
            if i < p {
                assert(a[i].0@ == q);
            } else if i > p {
                assert(a[i - 1].0@ == q);
            }
        }
        if goal.contains_key(q) && q != k {
            let i = choose|i: int| 0 <= i < a.len() && #[trigger] a[i].0@ == q;
            if i < p {
                assert(b[i].0@ == q);
            } else {
                assert(b[i + 1].0@ == q);
            }
        }
        if q == k {
            assert(b[p].0@ == q);
        }
    }
    assert forall|q: Seq<char>| mb.contains_key(q) implies mb[q] == goal[q] by {
        let i = choose|i: int| 0 <= i < b.len() && #[trigger] b[i].0@ == q;
        lemma_key_map_index(b, f, i);
        if i < p {
            lemma_key_map_index(a, f, i);
            lemma_str_lt_irreflexive(k);
        } else if i > p {
            assert(b[i] == a[i - 1]);
            lemma_key_map_index(a, f, i - 1);
            lemma_str_lt_irreflexive(k);
        }
    }
    assert(mb =~= goal);
}

/// Where `key` belongs in sorted entries: every entry before the slot has a
/// smaller key, none from the slot on does.
fn find_slot<T>(e: &Vec<(String, T)>, key: &str) -> (p: usize)
    requires
        strictly_sorted(e@),
    ensures
        p <= e.len(),
        forall|i: int| 0 <= i < p ==> str_lt(#[trigger] e@[i].0@, key@),
        forall|i: int| p <= i < e.len() ==> !str_lt(#[trigger] e@[i].0@, key@),
{
    let mut p: usize = 0;
    while p < e.len() && compare_str(e[p].0.as_str(), key) < 0
        invariant
            p <= e.len(),
            strictly_sorted(e@),
            forall|i: int| 0 <= i < p ==> str_lt(#[trigger] e@[i].0@, key@),
        decreases e.len() - p,
    {
        p = p + 1;
    }
    proof {
        assert forall|i: int| p <= i < e.len() implies !str_lt(#[trigger] e@[i].0@, key@) by {
            if i > p && str_lt(e@[i].0@, key@) {
                lemma_str_lt_asymmetric(e@[p as int].0@, e@[i].0@);
                lemma_str_lt_total(e@[p as int].0@, key@);
                if e@[p as int].0@ == key@ {
                    lemma_str_lt_asymmetric(e@[i].0@, key@);
                } else {
                    lemma_str_lt_transitive(e@[p as int].0@, e@[i].0@, key@);
                }
            }
        }
    }
    p
}

/// Puts `(key, x)` into sorted entries: the entry with that key is replaced,
/// or a new one goes where the order puts it.
fn put_sorted<T, U>(e: &mut Vec<(String, T)>, key: String, x: T, Ghost(f): Ghost<spec_fn(T) -> U>)
    requires
        strictly_sorted(old(e)@),
    ensures
        strictly_sorted(final(e)@),
        key_map(final(e)@, f) == key_map(old(e)@, f).insert(key@, f(x)),
        forall|i: int|
            0 <= i < final(e)@.len() ==> (#[trigger] final(e)@[i]).1 == x || exists|j: int|
                0 <= j < old(e)@.len() && old(e)@[j] == final(e)@[i],
{
    let p = find_slot(e, key.as_str());
    let ghost k = key@;
    let ghost fx = f(x);
    if p < e.len() && e[p].0 == key {
        e[p] = (key, x);
        proof {
            lemma_key_map_same_keys(old(e)@, e@, f, p as int, fx);
            assert forall|i: int| 0 <= i < e@.len() && i != p implies exists|j: int|
                0 <= j < old(e)@.len() && old(e)@[j] == #[trigger] e@[i] by {
                assert(old(e)@[i] == e@[i]);
            }
        }
    } else {
        e.insert(p, (key, x));
        proof {
            lemma_put_insert(old(e)@, e@, p as int, k, f, fx);
            assert forall|i: int| 0 <= i < e@.len() && i != p implies exists|j: int|
                0 <= j < old(e)@.len() && old(e)@[j] == #[trigger] e@[i] by {
                if i < p {
                    assert(old(e)@[i] == e@[i]);
                } else {
                    assert(old(e)@[i - 1] == e@[i]);
                }
            }
        }
    }
}


/// The keys of keyed entries, in order.
pub open spec fn key_names<T>(e: Seq<(String, T)>) -> Seq<Seq<char>> {
    e.map_values(|x: (String, T)| x.0@)
}

pub proof fn lemma_key_count<T, U>(e: Seq<(String, T)>, f: spec_fn(T) -> U)
    requires
        strictly_sorted(e),
    ensures
        key_map(e, f).dom() == key_names(e).to_set(),
        key_map(e, f).dom().len() == e.len(),
{
    let names = key_names(e);
    assert forall|i: int, j: int| 0 <= i < names.len() && 0 <= j < names.len() && i != j implies names[i]
        != names[j] by {
        if i < j {
            assert(str_lt(e[i].0@, e[j].0@));
        } else {
            assert(str_lt(e[j].0@, e[i].0@));
        }
        lemma_str_lt_irreflexive(names[i]);
    }
    assert forall|k: Seq<char>| key_map(e, f).dom().contains(k) <==> names.to_set().contains(k) by {
        if names.to_set().contains(k) {
            let i = choose|i: int| 0 <= i < names.len() && names[i] == k;
            assert(e[i].0@ == k);
        }
        if key_map(e, f).dom().contains(k) {
            let i = choose|i: int| 0 <= i < e.len() && #[trigger] e[i].0@ == k;
            assert(names[i] == k);
        }
    }
    assert(key_map(e, f).dom() =~= names.to_set());
    names.unique_seq_to_set();
}

/// The number of keys over all the domains of `e`.
pub open spec fn key_total(e: Seq<(String, DomainSettings)>) -> int
    decreases e.len(),
{
    if e.len() == 0 {
        0
    } else {
        key_total(e.drop_last()) + e.last().1@.dom().len()
    }
}

pub proof fn lemma_key_total_prefix(e: Seq<(String, DomainSettings)>, n: int)
    requires
        0 <= n <= e.len(),
    ensures
        0 <= key_total(e.take(n)) <= key_total(e),
        n < e.len() ==> key_total(e.take(n + 1)) == key_total(e.take(n)) + e[n].1@.dom().len(),
    decreases e.len(), e.len() - n,
{
    if n < e.len() {
        assert(e.take(n + 1).drop_last() =~= e.take(n));
        lemma_key_total_prefix(e.drop_last(), n);
        assert(e.drop_last().take(n) =~= e.take(n));
        if n + 1 < e.len() {
            lemma_key_total_prefix(e, n + 1);
        } else {
            assert(e.take(n + 1) =~= e);
        }
    } else {
        assert(e.take(n) =~= e);
        if e.len() > 0 {
            lemma_key_total_prefix(e.drop_last(), e.len() - 1);
            assert(e.drop_last().take(e.len() - 1) =~= e.drop_last());
        }
    }
}

/// The map that a list of dictionary entries describes, a later entry
/// replacing an earlier one with the same key.
pub open spec fn entries_to_map(es: Seq<(Seq<char>, ValueModel)>) -> Map<Seq<char>, ValueModel>
    decreases es.len(),
{
    if es.len() == 0 {
        Map::empty()
    } else {
        entries_to_map(es.drop_last()).insert(es.last().0, es.last().1)
    }
}

/// The settings of one domain: a map from key to value, kept in ordinal key
/// order.
#[derive(Clone, Debug)]
pub struct DomainSettings {
    entries: Vec<(String, Value)>,
}

pub open spec fn value_view(v: Value) -> ValueModel {
    v@
}

impl View for DomainSettings {
    type V = Map<Seq<char>, ValueModel>;

    open spec fn view(&self) -> Map<Seq<char>, ValueModel> {
        key_map(self.items(), |v: Value| value_view(v))
    }
}

impl DomainSettings {
    /// The entries are in strict ordinal key order.
    pub closed spec fn wf(&self) -> bool {
        strictly_sorted(self.entries@)
    }

    /// The entries, in ordinal key order.
    pub closed spec fn items(&self) -> Seq<(String, Value)> {
        self.entries@
    }

    /// No settings.
    pub fn new() -> (r: Self)
        ensures
            r.wf(),
            r.items().len() == 0,
            r@ == Map::<Seq<char>, ValueModel>::empty(),
    {
        let r = DomainSettings { entries: Vec::new() };
        assert(r@ =~= Map::<Seq<char>, ValueModel>::empty());
        r
    }

    /// Sets `key` to `value`, replacing what it held.
    pub fn insert(&mut self, key: String, value: Value)
        requires
            old(self).wf(),
        ensures
            final(self).wf(),
            final(self)@ == old(self)@.insert(key@, value@),
    {
        put_sorted::<Value, ValueModel>(&mut self.entries, key, value, Ghost(|v: Value| value_view(v)));
    }

    /// The settings that a domain's exported root value holds: the entries
    /// of a dictionary, a later entry replacing an earlier one with the same
    /// key; nothing for a root of any other kind.
    pub fn from_value(root: &Value) -> (r: Self)
        ensures
            r.wf(),
            r@ == (if root@ is Dictionary {
                entries_to_map(root@->Dictionary_0)
            } else {
                Map::empty()
            }),
    {
        let mut r = DomainSettings::new();
        match root {
            Value::Dictionary(es) => {
                let ghost ms = root@->Dictionary_0;
                let mut i: usize = 0;
                assert(ms.take(0) =~= Seq::<(Seq<char>, ValueModel)>::empty());
                while i < es.len()
                    invariant
                        i <= es.len(),
                        r.wf(),
                        ms.len() == es@.len(),
                        forall|k: int| 0 <= k < es@.len() ==> #[trigger] ms[k] == (es@[k].0@, es@[k].1@),
                        r@ == entries_to_map(ms.take(i as int)),
                    decreases es.len() - i,
                {
                    proof {
                        assert(ms.take(i + 1).drop_last() =~= ms.take(i as int));
                    }
                    r.insert(es[i].0.clone(), es[i].1.deep_copy());
                    i = i + 1;
                }
                assert(ms.take(es.len() as int) =~= ms);
            },
            _ => {},
        }
        r
    }

    /// The entries, in ordinal key order.
    pub fn entries(&self) -> (r: &Vec<(String, Value)>)
        requires
            self.wf(),
        ensures
            r@ == self.items(),
            strictly_sorted(r@),
    {
        &self.entries
    }

    /// The number of keys.
    pub fn len(&self) -> (n: usize)
        requires
            self.wf(),
        ensures
            n == self@.dom().len(),
    {
        proof {
            lemma_key_count(self.entries@, |v: Value| value_view(v));
        }
        self.entries.len()
    }
}

pub open spec fn settings_view(s: DomainSettings) -> Map<Seq<char>, ValueModel> {
    s@
}

/// A snapshot of the store: a map from domain name to that domain's
/// settings, kept in ordinal name order.
#[derive(Clone, Debug)]
pub struct Snapshot {
    domains: Vec<(String, DomainSettings)>,
}

impl View for Snapshot {
    type V = Map<Seq<char>, Map<Seq<char>, ValueModel>>;

    open spec fn view(&self) -> Map<Seq<char>, Map<Seq<char>, ValueModel>> {
        key_map(self.items(), |s: DomainSettings| settings_view(s))
    }
}

impl Snapshot {
    /// The domains are in strict ordinal name order, and so are the keys of
    /// each.
    pub closed spec fn wf(&self) -> bool {
        strictly_sorted(self.domains@) && forall|i: int|
            0 <= i < self.domains@.len() ==> (#[trigger] self.domains@[i]).1.wf()
    }

    /// The domains, in ordinal name order.
    pub closed spec fn items(&self) -> Seq<(String, DomainSettings)> {
        self.domains@
    }

    /// A snapshot with no domains.
    pub fn new() -> (r: Self)
        ensures
            r.wf(),
            r.items().len() == 0,
            r@ == Map::<Seq<char>, Map<Seq<char>, ValueModel>>::empty(),
    {
        let r = Snapshot { domains: Vec::new() };
        assert(r@ =~= Map::<Seq<char>, Map<Seq<char>, ValueModel>>::empty());
        r
    }

    /// Sets the settings of `domain`, replacing what it held.
    pub fn insert_domain(&mut self, domain: String, settings: DomainSettings)
        requires
            old(self).wf(),
            settings.wf(),
        ensures
            final(self).wf(),
            final(self)@ == old(self)@.insert(domain@, settings@),
    {
        let ghost sw = settings;
        put_sorted::<DomainSettings, Map<Seq<char>, ValueModel>>(
            &mut self.domains,
            domain,
            settings,
            Ghost(|s: DomainSettings| settings_view(s)),
        );
        proof {
            assert forall|i: int| 0 <= i < self.domains@.len() implies (
            #[trigger] self.domains@[i]).1.wf() by {
                if self.domains@[i].1 != sw {
                    let j = choose|j: int|
                        0 <= j < old(self).domains@.len() && old(self).domains@[j]
                            == self.domains@[i];
                    assert(old(self).domains@[j].1.wf());
                }
            }
        }
    }

    /// The number of keys over all domains.
    pub open spec fn key_count(&self) -> int {
        key_total(self.items())
    }

    /// The number of keys over all domains, where it fits in a `usize`.
    pub fn total_keys(&self) -> (r: Option<usize>)
        requires
            self.wf(),
        ensures
            r is Some <==> self.key_count() <= usize::MAX,
            r is Some ==> r->0 == self.key_count(),
    {
        let mut total: usize = 0;
        let mut i: usize = 0;
        while i < self.domains.len()
            invariant
                self.wf(),
                i <= self.domains@.len(),
                total == key_total(self.domains@.take(i as int)),
            decreases self.domains@.len() - i,
        {
            proof {
                lemma_key_total_prefix(self.domains@, i as int);
                lemma_key_total_prefix(self.domains@, i + 1);
            }
            let n = self.domains[i].1.len();
            if n > usize::MAX - total {
                return None;
            }
            total = total + n;
            i = i + 1;
        }
        assert(self.domains@.take(self.domains@.len() as int) =~= self.domains@);
        Some(total)
    }

    /// The domains, in ordinal name order.
    pub fn domains(&self) -> (r: &Vec<(String, DomainSettings)>)
        requires
            self.wf(),
        ensures
            r@ == self.items(),
            strictly_sorted(r@),
            forall|i: int| 0 <= i < r@.len() ==> (#[trigger] r@[i]).1.wf(),
    {
        &self.domains
    }

    /// The number of domains.
    pub fn domain_count(&self) -> (n: usize)
        requires
            self.wf(),
        ensures
            n == self@.dom().len(),
    {
        proof {
            lemma_key_count(self.domains@, |s: DomainSettings| settings_view(s));
        }
        self.domains.len()
    }
}

impl Default for Snapshot {
    fn default() -> (r: Self)
        ensures
            r.wf(),
            r@ == Map::<Seq<char>, Map<Seq<char>, ValueModel>>::empty(),
    {
        Snapshot::new()
    }
}

} // verus!
