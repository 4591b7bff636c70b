use vstd::prelude::*;
use vstd::string::*;

use crate::snapshot::{
    key_map, key_total, lemma_key_count, lemma_key_map_index, lemma_key_total_prefix, settings_view,
    strictly_sorted, value_view, DomainSettings, Snapshot,
};
use crate::text::{
    compare_str, lemma_str_lt_irreflexive, lemma_str_lt_transitive, str_lt,
};
use crate::value::{equal_models, lemma_equal_models_reflexive, finite_reals, values_equal, Value, ValueModel};

verus! {

/// One difference between two snapshots.
#[derive(Clone, Debug)]
pub enum Change {
    /// The key is present only in the later snapshot.
    Added { domain: String, key: String, value: Value },
    /// The key is present only in the earlier snapshot.
    Removed { domain: String, key: String, old_value: Value },
    /// The key is present in both, with values that are not equal.
    Modified { domain: String, key: String, old_value: Value, new_value: Value },
}

pub enum ChangeModel {
    Added { domain: Seq<char>, key: Seq<char>, value: ValueModel },
    Removed { domain: Seq<char>, key: Seq<char>, old_value: ValueModel },
    Modified { domain: Seq<char>, key: Seq<char>, old_value: ValueModel, new_value: ValueModel },
}

impl ChangeModel {
    pub open spec fn domain(self) -> Seq<char> {
        match self {
            ChangeModel::Added { domain, .. } => domain,
            ChangeModel::Removed { domain, .. } => domain,
            ChangeModel::Modified { domain, .. } => domain,
        }
    }

    pub open spec fn key(self) -> Seq<char> {
        match self {
            ChangeModel::Added { key, .. } => key,
            ChangeModel::Removed { key, .. } => key,
            ChangeModel::Modified { key, .. } => key,
        }
    }
}

impl View for Change {
    type V = ChangeModel;

    open spec fn view(&self) -> ChangeModel {
        match self {
            Change::Added { domain, key, value } => ChangeModel::Added {
                domain: domain@,
                key: key@,
                value: value@,
            },
            Change::Removed { domain, key, old_value } => ChangeModel::Removed {
                domain: domain@,
                key: key@,
                old_value: old_value@,
            },
            Change::Modified { domain, key, old_value, new_value } => ChangeModel::Modified {
                domain: domain@,
                key: key@,
                old_value: old_value@,
                new_value: new_value@,
            },
        }
    }
}

impl Change {
    /// The key that the change is about.
    pub fn key(&self) -> (r: &str)
        ensures
            r@ == self@.key(),
    {
        match self {
            Change::Added { key, .. } => key.as_str(),
            Change::Removed { key, .. } => key.as_str(),
            Change::Modified { key, .. } => key.as_str(),
        }
    }

    /// The domain that the change is in.
    pub fn domain(&self) -> (r: &str)
        ensures
            r@ == self@.domain(),
    {
        match self {
            Change::Added { domain, .. } => domain.as_str(),
            Change::Removed { domain, .. } => domain.as_str(),
            Change::Modified { domain, .. } => domain.as_str(),
        }
    }
}

/// The changes of a list of changes, as models.
pub open spec fn change_models(cs: Seq<Change>) -> Seq<ChangeModel> {
    cs.map_values(|c: Change| c@)
}

/// `k` is reported between two versions `b` and `a` of a domain's settings:
/// it is in only one of them, or in both with values that are not equal.
pub open spec fn key_differs(
    b: Map<Seq<char>, ValueModel>,
    a: Map<Seq<char>, ValueModel>,
    k: Seq<char>,
) -> bool {
    b.contains_key(k) != a.contains_key(k) || (b.contains_key(k) && a.contains_key(k)
        && !equal_models(b[k], a[k]))
}

/// The change reported for a key `k` of domain `d` that differs.
pub open spec fn owed_change(
    d: Seq<char>,
    b: Map<Seq<char>, ValueModel>,
    a: Map<Seq<char>, ValueModel>,
    k: Seq<char>,
) -> ChangeModel {
    if !b.contains_key(k) {
        ChangeModel::Added { domain: d, key: k, value: a[k] }
    } else if !a.contains_key(k) {
        ChangeModel::Removed { domain: d, key: k, old_value: b[k] }
    } else {
        ChangeModel::Modified { domain: d, key: k, old_value: b[k], new_value: a[k] }
    }
}

/// `cs` lists exactly the changes between the settings `b` and `a` of domain
/// `d`: one change for each key that differs, as `owed_change` gives it, in
/// strict ordinal key order.
pub open spec fn changes_exact(
    cs: Seq<ChangeModel>,
    d: Seq<char>,
    b: Map<Seq<char>, ValueModel>,
    a: Map<Seq<char>, ValueModel>,
) -> bool {
    &&& forall|m: int|
        0 <= m < cs.len() ==> key_differs(b, a, (#[trigger] cs[m]).key()) && cs[m] == owed_change(
            d,
            b,
            a,
            cs[m].key(),
        )
    &&& forall|m1: int, m2: int|
        0 <= m1 < m2 < cs.len() ==> str_lt((#[trigger] cs[m1]).key(), (#[trigger] cs[m2]).key())
    &&& forall|k: Seq<char>|
        #[trigger] key_differs(b, a, k) ==> exists|m: int| 0 <= m < cs.len() && cs[m].key() == k
}


/// One of the first `n` entries of `e` has key `k`.
pub open spec fn seen<T>(e: Seq<(String, T)>, n: int, k: Seq<char>) -> bool {
    exists|i: int| 0 <= i < n && #[trigger] e[i].0@ == k
}

proof fn lemma_absent<T, U>(e: Seq<(String, T)>, f: spec_fn(T) -> U, k: Seq<char>, p: int)
    requires
        strictly_sorted(e),
        0 <= p <= e.len(),
        forall|i: int| 0 <= i < p ==> str_lt(#[trigger] e[i].0@, k),
        p < e.len() ==> str_lt(k, e[p].0@),
    ensures
        !key_map(e, f).contains_key(k),
{
    if key_map(e, f).contains_key(k) {
        let i = choose|i: int| 0 <= i < e.len() && #[trigger] e[i].0@ == k;
        lemma_str_lt_irreflexive(k);
        if i > p {
            lemma_str_lt_transitive(k, e[p].0@, e[i].0@);
        }
    }
}

proof fn lemma_key_map_has<T, U>(e: Seq<(String, T)>, f: spec_fn(T) -> U, k: Seq<char>)
    requires
        key_map(e, f).contains_key(k),
    ensures
        exists|i: int| 0 <= i < e.len() && #[trigger] e[i].0@ == k,
{
}

/// The changes between two versions of the settings of domain `domain`.
pub fn detect_domain_changes(domain: &str, before: &DomainSettings, after: &DomainSettings) -> (r: Vec<
    Change,
>)
    requires
        before.wf(),
        after.wf(),
    ensures
        changes_exact(change_models(r@), domain@, before@, after@),
        forall|m: int| 0 <= m < r@.len() ==> (#[trigger] r@[m])@.domain() == domain@,
        r@.len() <= before@.dom().len() + after@.dom().len(),
{
    let be = before.entries();
    let ae = after.entries();
    let ghost bm = before@;
    let ghost am = after@;
    let ghost fv = |v: Value| value_view(v);
    let ghost d = domain@;
    assert(bm == key_map(be@, fv));
    assert(am == key_map(ae@, fv));
    let nb = be.len();
    let na = ae.len();
    let mut out: Vec<Change> = Vec::new();
    let mut i: usize = 0;
    let mut j: usize = 0;
    while i < nb || j < na
        invariant
            nb == be@.len(),
            na == ae@.len(),
            i <= nb,
            j <= na,
            out@.len() <= i + j,
            strictly_sorted(be@),
            strictly_sorted(ae@),
            bm == key_map(be@, fv),
            am == key_map(ae@, fv),
            forall|v: Value| #[trigger] fv(v) == v@,
            d == domain@,
            forall|i2: int, j2: int|
                0 <= i2 < i && j <= j2 < na ==> str_lt(#[trigger] be@[i2].0@, #[trigger] ae@[j2].0@),
            forall|j2: int, i2: int|
                0 <= j2 < j && i <= i2 < nb ==> str_lt(#[trigger] ae@[j2].0@, #[trigger] be@[i2].0@),
            forall|m: int|
                0 <= m < out@.len() ==> (#[trigger] out@[m])@.domain() == d && key_differs(
                    bm,
                    am,
                    out@[m]@.key(),
                ) && out@[m]@ == owed_change(d, bm, am, out@[m]@.key()),
            forall|m1: int, m2: int|
                0 <= m1 < m2 < out@.len() ==> str_lt(
                    (#[trigger] out@[m1])@.key(),
                    (#[trigger] out@[m2])@.key(),
                ),
            forall|m: int, i2: int|
                0 <= m < out@.len() && i <= i2 < nb ==> str_lt(
                    (#[trigger] out@[m])@.key(),
                    #[trigger] be@[i2].0@,
                ),
            forall|m: int, j2: int|
                0 <= m < out@.len() && j <= j2 < na ==> str_lt(
                    (#[trigger] out@[m])@.key(),
                    #[trigger] ae@[j2].0@,
                ),
            forall|k: Seq<char>|
                key_differs(bm, am, k) && (seen(be@, i as int, k) || seen(ae@, j as int, k))
                    ==> exists|m: int| 0 <= m < out@.len() && (#[trigger] out@[m])@.key() == k,
        decreases nb + na - i - j,
    {
        let c: i8 = if i >= nb {
            1
        } else if j >= na {
            -1
        } else {
            compare_str(be[i].0.as_str(), ae[j].0.as_str())
        };
        if c < 0 {
            let ghost k = be@[i as int].0@;
            proof {
                lemma_key_map_index(be@, fv, i as int);
                assert forall|j2: int| j <= j2 < na implies str_lt(k, #[trigger] ae@[j2].0@) by {
                    if j2 > j {
                        lemma_str_lt_transitive(k, ae@[j as int].0@, ae@[j2].0@);
                    }
                }
                assert forall|j2: int| 0 <= j2 < j implies str_lt(#[trigger] ae@[j2].0@, k) by {
                }
                lemma_absent(ae@, fv, k, j as int);
                assert(fv(be@[i as int].1) == be@[i as int].1@);
            }
            let ch = Change::Removed {
                domain: String::from_str(domain),
                key: be[i].0.clone(),
                old_value: be[i].1.deep_copy(),
            };
            let ghost old_out = out@;
            out.push(ch);
            proof {
                assert(out@[old_out.len() as int]@.key() == k);
                assert forall|i2: int| i + 1 <= i2 < nb implies str_lt(k, #[trigger] be@[i2].0@) by {
                }
                assert forall|k2: Seq<char>|
                    key_differs(bm, am, k2) && (seen(be@, i + 1, k2) || seen(ae@, j as int, k2))
                        implies exists|m: int|
                        0 <= m < out@.len() && (#[trigger] out@[m])@.key() == k2 by {
                    if k2 == k {
                        assert(out@[old_out.len() as int]@.key() == k2);
                    } else {
                        if seen(be@, i + 1, k2) {
                            let i3 = choose|i3: int| 0 <= i3 < i + 1 && #[trigger] be@[i3].0@ == k2;
                            assert(i3 < i);
                            assert(seen(be@, i as int, k2));
                        }
                        let m = choose|m: int|
                            0 <= m < old_out.len() && (#[trigger] old_out[m])@.key() == k2;
                        assert(out@[m] == old_out[m]);
                    }
                }
            }
            i = i + 1;
        } else if c > 0 {
            let ghost k = ae@[j as int].0@;
            proof {
                lemma_key_map_index(ae@, fv, j as int);
                assert forall|i2: int| i <= i2 < nb implies str_lt(k, #[trigger] be@[i2].0@) by {
                    if i2 > i {
                        lemma_str_lt_transitive(k, be@[i as int].0@, be@[i2].0@);
                    }
                }
                assert forall|i2: int| 0 <= i2 < i implies str_lt(#[trigger] be@[i2].0@, k) by {
                }
                lemma_absent(be@, fv, k, i as int);
                assert(fv(ae@[j as int].1) == ae@[j as int].1@);
            }
            let ch = Change::Added {
                domain: String::from_str(domain),
                key: ae[j].0.clone(),
                value: ae[j].1.deep_copy(),
            };
            let ghost old_out = out@;
            out.push(ch);
            proof {
                assert(out@[old_out.len() as int]@.key() == k);
                assert forall|j2: int| j + 1 <= j2 < na implies str_lt(k, #[trigger] ae@[j2].0@) by {
                }
                assert forall|k2: Seq<char>|
                    key_differs(bm, am, k2) && (seen(be@, i as int, k2) || seen(ae@, j + 1, k2))
                        implies exists|m: int|
                        0 <= m < out@.len() && (#[trigger] out@[m])@.key() == k2 by {
                    if k2 == k {
                        assert(out@[old_out.len() as int]@.key() == k2);
                    } else {
                        if seen(ae@, j + 1, k2) {
                            let j3 = choose|j3: int| 0 <= j3 < j + 1 && #[trigger] ae@[j3].0@ == k2;
                            assert(j3 < j);
                            assert(seen(ae@, j as int, k2));
                        }
                        let m = choose|m: int|
                            0 <= m < old_out.len() && (#[trigger] old_out[m])@.key() == k2;
                        assert(out@[m] == old_out[m]);
                    }
                }
            }
            j = j + 1;
        } else {
            let ghost k = be@[i as int].0@;
            proof {
                lemma_key_map_index(be@, fv, i as int);
                lemma_key_map_index(ae@, fv, j as int);
                assert forall|i2: int| i + 1 <= i2 < nb implies str_lt(k, #[trigger] be@[i2].0@) by {
                }
                assert forall|j2: int| j + 1 <= j2 < na implies str_lt(k, #[trigger] ae@[j2].0@) by {
                }
            }
            let ghost old_out = out@;
            assert(ae@[j as int].0@ == k);
            assert(fv(be@[i as int].1) == be@[i as int].1@);
            assert(fv(ae@[j as int].1) == ae@[j as int].1@);
            assert(bm[k] == be@[i as int].1@);
            assert(am[k] == ae@[j as int].1@);
            let same = values_equal(&be[i].1, &ae[j].1);
            if !same {
                let ch = Change::Modified {
                    domain: String::from_str(domain),
                    key: be[i].0.clone(),
                    old_value: be[i].1.deep_copy(),
                    new_value: ae[j].1.deep_copy(),
                };
                out.push(ch);
                assert(out@[old_out.len() as int]@.key() == k);
                assert(key_differs(bm, am, k));
                assert(out@[old_out.len() as int]@ == owed_change(d, bm, am, k));
            } else {
                assert(!key_differs(bm, am, k));
            }
            proof {
                assert forall|k2: Seq<char>|
                    key_differs(bm, am, k2) && (seen(be@, i + 1, k2) || seen(ae@, j + 1, k2))
                        implies exists|m: int|
                        0 <= m < out@.len() && (#[trigger] out@[m])@.key() == k2 by {
                    if k2 == k {
                        assert(!same);
                        assert(out@[old_out.len() as int]@.key() == k2);
                    } else {
                        if seen(be@, i + 1, k2) {
                            let i3 = choose|i3: int| 0 <= i3 < i + 1 && #[trigger] be@[i3].0@ == k2;
                            assert(i3 < i);
                            assert(seen(be@, i as int, k2));
                        }
                        if seen(ae@, j + 1, k2) {
                            let j3 = choose|j3: int| 0 <= j3 < j + 1 && #[trigger] ae@[j3].0@ == k2;
                            assert(j3 < j);
                            assert(seen(ae@, j as int, k2));
                        }
                        let m = choose|m: int|
                            0 <= m < old_out.len() && (#[trigger] old_out[m])@.key() == k2;
                        assert(out@[m] == old_out[m]);
                    }
                }
            }
            i = i + 1;
            j = j + 1;
        }
    }
    proof {
        assert forall|k: Seq<char>| #[trigger] key_differs(bm, am, k) implies exists|m: int|
            0 <= m < out@.len() && out@[m]@.key() == k by {
            if bm.contains_key(k) {
                lemma_key_map_has(be@, fv, k);
                assert(seen(be@, i as int, k));
            } else {
                lemma_key_map_has(ae@, fv, k);
                assert(seen(ae@, j as int, k));
            }
        }
        lemma_key_count(be@, fv);
        lemma_key_count(ae@, fv);
        let cm = change_models(out@);
        assert forall|m: int| 0 <= m < out@.len() implies #[trigger] cm[m] == out@[m]@ by {}
        assert forall|k: Seq<char>| #[trigger] key_differs(bm, am, k) implies exists|m: int|
            0 <= m < cm.len() && cm[m].key() == k by {
            let m = choose|m: int| 0 <= m < out@.len() && out@[m]@.key() == k;
            assert(cm[m] == out@[m]@);
        }
    }
    out
}


/// The changes of one domain, in ordinal key order.
#[derive(Clone, Debug)]
pub struct DomainDiff {
    pub domain: String,
    pub changes: Vec<Change>,
}

/// The changes between two snapshots, grouped by domain in ordinal name
/// order.
#[derive(Clone, Debug)]
pub struct DiffResult {
    pub domain_diffs: Vec<DomainDiff>,
    pub total_changes: usize,
}

/// The settings of domain `d` in a snapshot; none where it has no such domain.
pub open spec fn settings_in(
    s: Map<Seq<char>, Map<Seq<char>, ValueModel>>,
    d: Seq<char>,
) -> Map<Seq<char>, ValueModel> {
    if s.contains_key(d) {
        s[d]
    } else {
        Map::empty()
    }
}

/// Key `k` of domain `d` is reported between snapshots `b` and `a`.
pub open spec fn entry_differs(
    b: Map<Seq<char>, Map<Seq<char>, ValueModel>>,
    a: Map<Seq<char>, Map<Seq<char>, ValueModel>>,
    d: Seq<char>,
    k: Seq<char>,
) -> bool {
    key_differs(settings_in(b, d), settings_in(a, d), k)
}

/// The number of changes over all the domain diffs of `dds`.
pub open spec fn change_total(dds: Seq<DomainDiff>) -> int
    decreases dds.len(),
{
    if dds.len() == 0 {
        0
    } else {
        change_total(dds.drop_last()) + dds.last().changes@.len()
    }
}

/// `dds` is exactly the difference between snapshots `b` and `a`: one
/// domain diff, with at least one change, for each domain with a reported
/// key, in strict ordinal name order; each lists exactly the changes of its
/// domain.
pub open spec fn diff_exact(
    dds: Seq<DomainDiff>,
    b: Map<Seq<char>, Map<Seq<char>, ValueModel>>,
    a: Map<Seq<char>, Map<Seq<char>, ValueModel>>,
) -> bool {
    &&& forall|i: int|
        0 <= i < dds.len() ==> changes_exact(
            change_models((#[trigger] dds[i]).changes@),
            dds[i].domain@,
            settings_in(b, dds[i].domain@),
            settings_in(a, dds[i].domain@),
        ) && dds[i].changes@.len() > 0
    &&& forall|i: int, m: int|
        0 <= i < dds.len() && 0 <= m < dds[i].changes@.len() ==> (#[trigger] dds[i].changes@[m])@.domain()
            == dds[i].domain@
    &&& forall|i1: int, i2: int|
        0 <= i1 < i2 < dds.len() ==> str_lt((#[trigger] dds[i1]).domain@, (#[trigger] dds[i2]).domain@)
    &&& forall|d: Seq<char>, k: Seq<char>|
        #[trigger] entry_differs(b, a, d, k) ==> exists|i: int| 0 <= i < dds.len() && dds[i].domain@ == d
}

proof fn lemma_no_change(
    cs: Seq<ChangeModel>,
    d: Seq<char>,
    b: Map<Seq<char>, ValueModel>,
    a: Map<Seq<char>, ValueModel>,
    k: Seq<char>,
)
    requires
        changes_exact(cs, d, b, a),
        cs.len() == 0,
    ensures
        !key_differs(b, a, k),
{
}

/// Computes the difference between two snapshots.
pub fn detect_diff(before: &Snapshot, after: &Snapshot) -> (r: DiffResult)
    requires
        before.wf(),
        after.wf(),
        before.key_count() + after.key_count() <= usize::MAX,
    ensures
        diff_exact(r.domain_diffs@, before@, after@),
        r.total_changes == change_total(r.domain_diffs@),
{
    let bd = before.domains();
    let ad = after.domains();
    let ghost bmap = before@;
    let ghost amap = after@;
    let ghost fs = |s: DomainSettings| settings_view(s);
    let empty = DomainSettings::new();
    let nb = bd.len();
    let na = ad.len();
    let mut out: Vec<DomainDiff> = Vec::new();
    let mut total: usize = 0;
    let mut i: usize = 0;
    let mut j: usize = 0;
    while i < nb || j < na
        invariant
            nb == bd@.len(),
            na == ad@.len(),
            i <= nb,
            j <= na,
            strictly_sorted(bd@),
            strictly_sorted(ad@),
            forall|x: int| 0 <= x < nb ==> (#[trigger] bd@[x]).1.wf(),
            forall|x: int| 0 <= x < na ==> (#[trigger] ad@[x]).1.wf(),
            bmap == key_map(bd@, fs),
            amap == key_map(ad@, fs),
            forall|s: DomainSettings| #[trigger] fs(s) == s@,
            empty.wf(),
            empty@ == Map::<Seq<char>, ValueModel>::empty(),
            key_total(bd@) + key_total(ad@) <= usize::MAX,
            total == change_total(out@),
            total <= key_total(bd@.take(i as int)) + key_total(ad@.take(j as int)),
            forall|i2: int, j2: int|
                0 <= i2 < i && j <= j2 < na ==> str_lt(#[trigger] bd@[i2].0@, #[trigger] ad@[j2].0@),
            forall|j2: int, i2: int|
                0 <= j2 < j && i <= i2 < nb ==> str_lt(#[trigger] ad@[j2].0@, #[trigger] bd@[i2].0@),
            forall|o: int|
                0 <= o < out@.len() ==> changes_exact(
                    change_models((#[trigger] out@[o]).changes@),
                    out@[o].domain@,
                    settings_in(bmap, out@[o].domain@),
                    settings_in(amap, out@[o].domain@),
                ) && out@[o].changes@.len() > 0,
            forall|o: int, m: int|
                0 <= o < out@.len() && 0 <= m < out@[o].changes@.len() ==> (#[trigger] out@[o].changes@[m])@.domain()
                    == out@[o].domain@,
            forall|o1: int, o2: int|
                0 <= o1 < o2 < out@.len() ==> str_lt(
                    (#[trigger] out@[o1]).domain@,
                    (#[trigger] out@[o2]).domain@,
                ),
            forall|o: int, i2: int|
                0 <= o < out@.len() && i <= i2 < nb ==> str_lt(
                    (#[trigger] out@[o]).domain@,
                    #[trigger] bd@[i2].0@,
                ),
            forall|o: int, j2: int|
                0 <= o < out@.len() && j <= j2 < na ==> str_lt(
                    (#[trigger] out@[o]).domain@,
                    #[trigger] ad@[j2].0@,
                ),
            forall|d: Seq<char>, k: Seq<char>|
                entry_differs(bmap, amap, d, k) && (seen(bd@, i as int, d) || seen(ad@, j as int, d))
                    ==> exists|o: int| 0 <= o < out@.len() && (#[trigger] out@[o]).domain@ == d,
        decreases nb + na - i - j,
    {
        let c: i8 = if i >= nb {
            1
        } else if j >= na {
            -1
        } else {
            compare_str(bd[i].0.as_str(), ad[j].0.as_str())
        };
        let ghost d: Seq<char>;
        let name: &String;
        let changes: Vec<Change>;
        if c < 0 {
            proof {
                d = bd@[i as int].0@;
                lemma_key_map_index(bd@, fs, i as int);
                assert forall|j2: int| j <= j2 < na implies str_lt(d, #[trigger] ad@[j2].0@) by {
                    if j2 > j {
                        lemma_str_lt_transitive(d, ad@[j as int].0@, ad@[j2].0@);
                    }
                }
                assert forall|j2: int| 0 <= j2 < j implies str_lt(#[trigger] ad@[j2].0@, d) by {
                }
                lemma_absent(ad@, fs, d, j as int);
                lemma_key_total_prefix(bd@, i as int);
                lemma_key_total_prefix(ad@, j as int);
                assert(empty@.dom().len() == 0);
            }
            name = &bd[i].0;
            changes = detect_domain_changes(name.as_str(), &bd[i].1, &empty);
        } else if c > 0 {
            proof {
                d = ad@[j as int].0@;
                lemma_key_map_index(ad@, fs, j as int);
                assert forall|i2: int| i <= i2 < nb implies str_lt(d, #[trigger] bd@[i2].0@) by {
                    if i2 > i {
                        lemma_str_lt_transitive(d, bd@[i as int].0@, bd@[i2].0@);
                    }
                }
                assert forall|i2: int| 0 <= i2 < i implies str_lt(#[trigger] bd@[i2].0@, d) by {
                }
                lemma_absent(bd@, fs, d, i as int);
                lemma_key_total_prefix(bd@, i as int);
                lemma_key_total_prefix(ad@, j as int);
                assert(empty@.dom().len() == 0);
            }
            name = &ad[j].0;
            changes = detect_domain_changes(name.as_str(), &empty, &ad[j].1);
        } else {
            proof {
                d = bd@[i as int].0@;
                assert(ad@[j as int].0@ == d);
                lemma_key_map_index(bd@, fs, i as int);
                lemma_key_map_index(ad@, fs, j as int);
                lemma_key_total_prefix(bd@, i as int);
                lemma_key_total_prefix(ad@, j as int);
            }
            name = &bd[i].0;
            changes = detect_domain_changes(name.as_str(), &bd[i].1, &ad[j].1);
        }
        let ghost old_out = out@;
        let ghost pushed = changes.len() > 0;
        let n_changes = changes.len();
        proof {
            if c <= 0 {
                lemma_key_total_prefix(bd@, i + 1);
            }
            if c >= 0 {
                lemma_key_total_prefix(ad@, j + 1);
            }
        }
        if n_changes > 0 {
            total = total + n_changes;
            out.push(DomainDiff { domain: name.clone(), changes });
            proof {
                assert(out@.drop_last() =~= old_out);
                assert(out@[old_out.len() as int].domain@ == d);
            }
        }
        proof {
            let ni: int = if c <= 0 { i + 1 } else { i as int };
            let nj: int = if c >= 0 { j + 1 } else { j as int };
            lemma_key_total_prefix(bd@, ni);
            lemma_key_total_prefix(ad@, nj);
            assert forall|i2: int| ni <= i2 < nb implies str_lt(d, #[trigger] bd@[i2].0@) by {
                if c > 0 && i2 > i {
                    lemma_str_lt_transitive(d, bd@[i as int].0@, bd@[i2].0@);
                }
            }
            assert forall|j2: int| nj <= j2 < na implies str_lt(d, #[trigger] ad@[j2].0@) by {
                if c < 0 && j2 > j {
                    lemma_str_lt_transitive(d, ad@[j as int].0@, ad@[j2].0@);
                }
            }
            assert forall|d2: Seq<char>, k: Seq<char>|
                entry_differs(bmap, amap, d2, k) && (seen(bd@, ni, d2) || seen(ad@, nj, d2))
                    implies exists|o: int| 0 <= o < out@.len() && (#[trigger] out@[o]).domain@ == d2 by {
                if d2 == d {
                    if !pushed {
                        lemma_no_change(
                            change_models(changes@),
                            d,
                            settings_in(bmap, d),
                            settings_in(amap, d),
                            k,
                        );
                    }
                    assert(out@[old_out.len() as int].domain@ == d2);
                } else {
                    if seen(bd@, ni, d2) {
                        let i3 = choose|i3: int| 0 <= i3 < ni && #[trigger] bd@[i3].0@ == d2;
                        assert(seen(bd@, i as int, d2));
                    }
                    if seen(ad@, nj, d2) {
                        let j3 = choose|j3: int| 0 <= j3 < nj && #[trigger] ad@[j3].0@ == d2;
                        assert(seen(ad@, j as int, d2));
                    }
                    let o = choose|o: int| 0 <= o < old_out.len() && (#[trigger] old_out[o]).domain@ == d2;
                    assert(out@[o] == old_out[o]);
                }
            }
        }
        if c <= 0 {
            i = i + 1;
        }
        if c >= 0 {
            j = j + 1;
        }
    }
    proof {
        assert forall|d: Seq<char>, k: Seq<char>| #[trigger] entry_differs(bmap, amap, d, k) implies exists|o: int|
            0 <= o < out@.len() && out@[o].domain@ == d by {
            if bmap.contains_key(d) {
                lemma_key_map_has(bd@, fs, d);
                assert(seen(bd@, i as int, d));
            } else if amap.contains_key(d) {
                lemma_key_map_has(ad@, fs, d);
                assert(seen(ad@, j as int, d));
            }
        }
    }
    DiffResult { domain_diffs: out, total_changes: total }
}


/// Change `m` of domain diff `i` is the one about key `k` of domain `d`.
pub open spec fn located(dds: Seq<DomainDiff>, i: int, m: int, d: Seq<char>, k: Seq<char>) -> bool {
    0 <= i < dds.len() && 0 <= m < dds[i].changes@.len() && dds[i].domain@ == d
        && dds[i].changes@[m]@.key() == k
}

proof fn lemma_located_unique(
    dds: Seq<DomainDiff>,
    b: Map<Seq<char>, Map<Seq<char>, ValueModel>>,
    a: Map<Seq<char>, Map<Seq<char>, ValueModel>>,
    d: Seq<char>,
    k: Seq<char>,
    i1: int,
    m1: int,
    i2: int,
    m2: int,
)
    requires
        diff_exact(dds, b, a),
        located(dds, i1, m1, d, k),
        located(dds, i2, m2, d, k),
    ensures
        i1 == i2 && m1 == m2,
{
    lemma_str_lt_irreflexive(d);
    lemma_str_lt_irreflexive(k);
    if i1 != i2 {
        if i1 < i2 {
            assert(str_lt(dds[i1].domain@, dds[i2].domain@));
        } else {
            assert(str_lt(dds[i2].domain@, dds[i1].domain@));
        }
    }
    let cs = change_models(dds[i1].changes@);
    assert(cs[m1] == dds[i1].changes@[m1]@);
    assert(cs[m2] == dds[i1].changes@[m2]@);
    if m1 < m2 {
        assert(str_lt(cs[m1].key(), cs[m2].key()));
    } else if m2 < m1 {
        assert(str_lt(cs[m2].key(), cs[m1].key()));
    }
}

proof fn lemma_located_exists(
    dds: Seq<DomainDiff>,
    b: Map<Seq<char>, Map<Seq<char>, ValueModel>>,
    a: Map<Seq<char>, Map<Seq<char>, ValueModel>>,
    d: Seq<char>,
    k: Seq<char>,
) -> (im: (int, int))
    requires
        diff_exact(dds, b, a),
        entry_differs(b, a, d, k),
    ensures
        located(dds, im.0, im.1, d, k),
        dds[im.0].changes@[im.1]@ == owed_change(d, settings_in(b, d), settings_in(a, d), k),
{
    let i = choose|i: int| 0 <= i < dds.len() && dds[i].domain@ == d;
    let cs = change_models(dds[i].changes@);
    assert(key_differs(settings_in(b, d), settings_in(a, d), k));
    let m = choose|m: int| 0 <= m < cs.len() && cs[m].key() == k;
    assert(cs[m] == dds[i].changes@[m]@);
    (i, m)
}

proof fn lemma_located_differs(
    dds: Seq<DomainDiff>,
    b: Map<Seq<char>, Map<Seq<char>, ValueModel>>,
    a: Map<Seq<char>, Map<Seq<char>, ValueModel>>,
    d: Seq<char>,
    k: Seq<char>,
    i: int,
    m: int,
)
    requires
        diff_exact(dds, b, a),
        located(dds, i, m, d, k),
    ensures
        entry_differs(b, a, d, k),
        dds[i].changes@[m]@ == owed_change(d, settings_in(b, d), settings_in(a, d), k),
{
    let cs = change_models(dds[i].changes@);
    assert(cs[m] == dds[i].changes@[m]@);
}

/// Diffing a snapshot against itself reports no domain and no change, where
/// every real in it is finite (an infinity or a NaN is unequal to itself).
pub proof fn law_self_diff_is_empty(dds: Seq<DomainDiff>, s: Map<Seq<char>, Map<Seq<char>, ValueModel>>)
    requires
        diff_exact(dds, s, s),
        forall|d: Seq<char>, k: Seq<char>|
            s.contains_key(d) && #[trigger] s[d].contains_key(k) ==> finite_reals(s[d][k]),
    ensures
        dds.len() == 0,
        change_total(dds) == 0,
{
    if dds.len() > 0 {
        let d = dds[0].domain@;
        let c = dds[0].changes@[0]@;
        assert(located(dds, 0, 0, d, c.key()));
        lemma_located_differs(dds, s, s, d, c.key(), 0, 0);
        let st = settings_in(s, d);
        if st.contains_key(c.key()) {
            lemma_equal_models_reflexive(st[c.key()]);
        }
    }
}

/// A key held by exactly one of the two snapshots is reported exactly once:
/// as an addition of the later value when only the later snapshot holds it,
/// as a removal of the earlier value when only the earlier one does.
pub proof fn law_one_sided_key(
    dds: Seq<DomainDiff>,
    b: Map<Seq<char>, Map<Seq<char>, ValueModel>>,
    a: Map<Seq<char>, Map<Seq<char>, ValueModel>>,
    d: Seq<char>,
    k: Seq<char>,
)
    requires
        diff_exact(dds, b, a),
        settings_in(b, d).contains_key(k) != settings_in(a, d).contains_key(k),
    ensures
        exists|i: int, m: int| located(dds, i, m, d, k),
        forall|i1: int, m1: int, i2: int, m2: int|
            located(dds, i1, m1, d, k) && located(dds, i2, m2, d, k) ==> i1 == i2 && m1 == m2,
        forall|i: int, m: int|
            located(dds, i, m, d, k) ==> (#[trigger] dds[i].changes@[m])@ == (if settings_in(
                a,
                d,
            ).contains_key(k) {
                (ChangeModel::Added { domain: d, key: k, value: settings_in(a, d)[k] })
            } else {
                (ChangeModel::Removed { domain: d, key: k, old_value: settings_in(b, d)[k] })
            }),
{
    let im = lemma_located_exists(dds, b, a, d, k);
    assert(located(dds, im.0, im.1, d, k));
    assert forall|i1: int, m1: int, i2: int, m2: int|
        located(dds, i1, m1, d, k) && located(dds, i2, m2, d, k) implies i1 == i2 && m1 == m2 by {
        lemma_located_unique(dds, b, a, d, k, i1, m1, i2, m2);
    }
    assert forall|i: int, m: int| located(dds, i, m, d, k) implies (#[trigger] dds[i].changes@[m])@
        == if settings_in(a, d).contains_key(k) {
        ChangeModel::Added { domain: d, key: k, value: settings_in(a, d)[k] }
    } else {
        ChangeModel::Removed { domain: d, key: k, old_value: settings_in(b, d)[k] }
    } by {
        lemma_located_differs(dds, b, a, d, k, i, m);
    }
}

/// A key held by both snapshots is reported only when its two values are not
/// equal, and then exactly once, as a modification carrying both values
/// unchanged.
pub proof fn law_shared_key(
    dds: Seq<DomainDiff>,
    b: Map<Seq<char>, Map<Seq<char>, ValueModel>>,
    a: Map<Seq<char>, Map<Seq<char>, ValueModel>>,
    d: Seq<char>,
    k: Seq<char>,
)
    requires
        diff_exact(dds, b, a),
        settings_in(b, d).contains_key(k),
        settings_in(a, d).contains_key(k),
    ensures
        equal_models(settings_in(b, d)[k], settings_in(a, d)[k]) ==> forall|i: int, m: int|
            !located(dds, i, m, d, k),
        !equal_models(settings_in(b, d)[k], settings_in(a, d)[k]) ==> exists|i: int, m: int|
            located(dds, i, m, d, k),
        forall|i1: int, m1: int, i2: int, m2: int|
            located(dds, i1, m1, d, k) && located(dds, i2, m2, d, k) ==> i1 == i2 && m1 == m2,
        forall|i: int, m: int|
            located(dds, i, m, d, k) ==> (#[trigger] dds[i].changes@[m])@ == (ChangeModel::Modified {
                domain: d,
                key: k,
                old_value: settings_in(b, d)[k],
                new_value: settings_in(a, d)[k],
            }),
{
    if !equal_models(settings_in(b, d)[k], settings_in(a, d)[k]) {
        let im = lemma_located_exists(dds, b, a, d, k);
        assert(located(dds, im.0, im.1, d, k));
    }
    assert forall|i: int, m: int| located(dds, i, m, d, k) implies !equal_models(
        settings_in(b, d)[k],
        settings_in(a, d)[k],
    ) && (#[trigger] dds[i].changes@[m])@ == ChangeModel::Modified {
        domain: d,
        key: k,
        old_value: settings_in(b, d)[k],
        new_value: settings_in(a, d)[k],
    } by {
        lemma_located_differs(dds, b, a, d, k, i, m);
    }
    assert forall|i1: int, m1: int, i2: int, m2: int|
        located(dds, i1, m1, d, k) && located(dds, i2, m2, d, k) implies i1 == i2 && m1 == m2 by {
        lemma_located_unique(dds, b, a, d, k, i1, m1, i2, m2);
    }
}


/// Strictly increasing in ordinal order.
pub open spec fn names_increasing(s: Seq<Seq<char>>) -> bool {
    forall|i: int, j: int| 0 <= i < j < s.len() ==> str_lt(#[trigger] s[i], #[trigger] s[j])
}

proof fn lemma_sorted_same(s1: Seq<Seq<char>>, s2: Seq<Seq<char>>)
    requires
        names_increasing(s1),
        names_increasing(s2),
        forall|x: Seq<char>| s1.contains(x) <==> s2.contains(x),
    ensures
        s1 == s2,
    decreases s1.len(),
{
    if s1.len() == 0 {
        if s2.len() > 0 {
            assert(s2.contains(s2[0]));
        }
        assert(s1 =~= s2);
    } else {
        assert(s1.contains(s1[0]));
        let j = choose|j: int| 0 <= j < s2.len() && s2[j] == s1[0];
        assert(s2.contains(s2[0]));
        let i = choose|i: int| 0 <= i < s1.len() && s1[i] == s2[0];
        if i > 0 {
            lemma_str_lt_irreflexive(s1[0]);
            if j > 0 {
                lemma_str_lt_transitive(s1[0], s1[i], s2[j]);
            }
        }
        let t1 = s1.drop_first();
        let t2 = s2.drop_first();
        assert forall|x: Seq<char>| t1.contains(x) <==> t2.contains(x) by {
            if t1.contains(x) {
                let p = choose|p: int| 0 <= p < t1.len() && t1[p] == x;
                assert(s1[p + 1] == x);
                assert(str_lt(s1[0], x));
                lemma_str_lt_irreflexive(x);
                assert(s2.contains(x));
                let q = choose|q: int| 0 <= q < s2.len() && s2[q] == x;
                assert(q != 0);
                assert(t2[q - 1] == x);
            }
            if t2.contains(x) {
                let p = choose|p: int| 0 <= p < t2.len() && t2[p] == x;
                assert(s2[p + 1] == x);
                assert(str_lt(s2[0], x));
                lemma_str_lt_irreflexive(x);
                assert(s1.contains(x));
                let q = choose|q: int| 0 <= q < s1.len() && s1[q] == x;
                assert(q != 0);
                assert(t1[q - 1] == x);
            }
        }
        lemma_sorted_same(t1, t2);
        assert(s1 =~= seq![s1[0]] + t1);
        assert(s2 =~= seq![s2[0]] + t2);
    }
}

/// The keys of a list of changes, in order.
pub open spec fn change_keys(cs: Seq<ChangeModel>) -> Seq<Seq<char>> {
    cs.map_values(|c: ChangeModel| c.key())
}

/// The domain names of a list of domain diffs, in order.
pub open spec fn diff_domains(dds: Seq<DomainDiff>) -> Seq<Seq<char>> {
    dds.map_values(|x: DomainDiff| x.domain@)
}

proof fn lemma_changes_same(
    c1: Seq<ChangeModel>,
    c2: Seq<ChangeModel>,
    d: Seq<char>,
    b: Map<Seq<char>, ValueModel>,
    a: Map<Seq<char>, ValueModel>,
)
    requires
        changes_exact(c1, d, b, a),
        changes_exact(c2, d, b, a),
    ensures
        c1 == c2,
{
    let k1 = change_keys(c1);
    let k2 = change_keys(c2);
    assert forall|i: int, j: int| 0 <= i < j < k1.len() implies str_lt(#[trigger] k1[i], #[trigger] k1[j]) by {
        assert(str_lt(c1[i].key(), c1[j].key()));
    }
    assert forall|i: int, j: int| 0 <= i < j < k2.len() implies str_lt(#[trigger] k2[i], #[trigger] k2[j]) by {
        assert(str_lt(c2[i].key(), c2[j].key()));
    }
    assert forall|x: Seq<char>| k1.contains(x) <==> k2.contains(x) by {
        if k1.contains(x) {
            let p = choose|p: int| 0 <= p < k1.len() && k1[p] == x;
            assert(key_differs(b, a, c1[p].key()));
            let q = choose|q: int| 0 <= q < c2.len() && c2[q].key() == x;
            assert(k2[q] == x);
        }
        if k2.contains(x) {
            let p = choose|p: int| 0 <= p < k2.len() && k2[p] == x;
            assert(key_differs(b, a, c2[p].key()));
            let q = choose|q: int| 0 <= q < c1.len() && c1[q].key() == x;
            assert(k1[q] == x);
        }
    }
    lemma_sorted_same(k1, k2);
    assert forall|m: int| 0 <= m < c1.len() implies c1[m] == c2[m] by {
        assert(k1[m] == k2[m]);
    }
    assert(c1 =~= c2);
}

proof fn lemma_change_total_same(d1: Seq<DomainDiff>, d2: Seq<DomainDiff>)
    requires
        d1.len() == d2.len(),
        forall|i: int| 0 <= i < d1.len() ==> (#[trigger] d1[i]).changes@.len() == d2[i].changes@.len(),
    ensures
        change_total(d1) == change_total(d2),
    decreases d1.len(),
{
    if d1.len() > 0 {
        lemma_change_total_same(d1.drop_last(), d2.drop_last());
    }
}

/// The difference between two snapshots is determined by them alone: two
/// results that both meet the contract of `detect_diff` for the same pair
/// have the same domains, the same changes in each, and the same total.
pub proof fn law_diff_deterministic(
    d1: Seq<DomainDiff>,
    d2: Seq<DomainDiff>,
    b: Map<Seq<char>, Map<Seq<char>, ValueModel>>,
    a: Map<Seq<char>, Map<Seq<char>, ValueModel>>,
)
    requires
        diff_exact(d1, b, a),
        diff_exact(d2, b, a),
    ensures
        d1.len() == d2.len(),
        forall|i: int|
            0 <= i < d1.len() ==> (#[trigger] d1[i]).domain@ == d2[i].domain@ && change_models(
                d1[i].changes@,
            ) == change_models(d2[i].changes@),
        change_total(d1) == change_total(d2),
{
    let n1 = diff_domains(d1);
    let n2 = diff_domains(d2);
    assert forall|i: int, j: int| 0 <= i < j < n1.len() implies str_lt(#[trigger] n1[i], #[trigger] n1[j]) by {
        assert(str_lt(d1[i].domain@, d1[j].domain@));
    }
    assert forall|i: int, j: int| 0 <= i < j < n2.len() implies str_lt(#[trigger] n2[i], #[trigger] n2[j]) by {
        assert(str_lt(d2[i].domain@, d2[j].domain@));
    }
    assert forall|x: Seq<char>| n1.contains(x) <==> n2.contains(x) by {
        if n1.contains(x) {
            let p = choose|p: int| 0 <= p < n1.len() && n1[p] == x;
            let k = d1[p].changes@[0]@.key();
            assert(located(d1, p, 0, x, k));
            lemma_located_differs(d1, b, a, x, k, p, 0);
            let q = choose|q: int| 0 <= q < d2.len() && d2[q].domain@ == x;
            assert(n2[q] == x);
        }
        if n2.contains(x) {
            let p = choose|p: int| 0 <= p < n2.len() && n2[p] == x;
            let k = d2[p].changes@[0]@.key();
            assert(located(d2, p, 0, x, k));
            lemma_located_differs(d2, b, a, x, k, p, 0);
            let q = choose|q: int| 0 <= q < d1.len() && d1[q].domain@ == x;
            assert(n1[q] == x);
        }
    }
    lemma_sorted_same(n1, n2);
    assert forall|i: int| 0 <= i < d1.len() implies (#[trigger] d1[i]).domain@ == d2[i].domain@
        && change_models(d1[i].changes@) == change_models(d2[i].changes@) by {
        assert(n1[i] == n2[i]);
        lemma_changes_same(
            change_models(d1[i].changes@),
            change_models(d2[i].changes@),
            d1[i].domain@,
            settings_in(b, d1[i].domain@),
            settings_in(a, d1[i].domain@),
        );
    }
    assert forall|i: int| 0 <= i < d1.len() implies (#[trigger] d1[i]).changes@.len() == d2[i].changes@.len() by {
        assert(change_models(d1[i].changes@).len() == change_models(d2[i].changes@).len());
    }
    lemma_change_total_same(d1, d2);
}

} // verus!
