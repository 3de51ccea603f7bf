use vstd::prelude::*;
use crate::value::{TomlValue, Table, table_map, table_has, same_value, keys_distinct, copy_value, find_key, lemma_entry_decreases, lemma_wf_entry, lemma_lookup_at, lemma_update_value, lemma_push_entry, lemma_wf_table_intro, lemma_children_decrease, lemma_same_value_refl, lemma_same_value_symm, lemma_same_value_trans, lemma_map_entry};

verus! {

/// `result` is `delta` merged into `base`.
///
/// When both are tables, the result holds every key of either; a key only in
/// `base` keeps its value, a key only in `delta` takes `delta`'s value, and a
/// key in both holds `delta`'s value merged, by the same rule, into `base`'s.
/// In every other case the result is `delta`.
pub open spec fn merges_to(base: TomlValue, delta: TomlValue, result: TomlValue) -> bool
    decreases delta,
{
    if base is Table && delta is Table {
        result is Table && {
            let bm = base->Table_0.map();
            let d = delta->Table_0.entries;
            let rm = result->Table_0.map();
            &&& rm.dom() == bm.dom().union(table_map(d@).dom())
            &&& forall|k: Seq<char>|
                #![trigger rm[k]]
                bm.contains_key(k) && !table_has(d@, k) ==> rm[k] == bm[k]
            &&& forall|i: int|
                0 <= i < d.len() ==> if bm.contains_key((#[trigger] d[i]).0@) {
                    merges_to(bm[d[i].0@], d[i].1, rm[d[i].0@])
                } else {
                    same_value(rm[d[i].0@], d[i].1)
                }
        }
    } else {
        same_value(result, delta)
    }
}

/// Recursively merges `delta` into `base`, in place.
///
/// Two tables are merged key by key: keys only in `delta` are added, keys in
/// both are merged recursively. Any other `delta` replaces `base` by a copy of
/// itself.
pub fn deep_merge(base: &mut TomlValue, delta: &TomlValue)
    requires
        old(base).wf(),
        delta.wf(),
    ensures
        final(base).wf(),
        merges_to(*old(base), *delta, *final(base)),
        overlays(*final(base), *delta),
    decreases delta,
{
    let both_tables = match (&*base, delta) {
        (TomlValue::Table(_), TomlValue::Table(_)) => true,
        _ => false,
    };
    if !both_tables {
        let ghost b0 = *base;
        *base = copy_value(delta);
        proof {
            assert(merges_to(b0, *delta, *base));
            lemma_merge_overlays(b0, *delta, *base);
        }
        return;
    }
    let ghost base0 = *base;
    let mut taken = TomlValue::Boolean(false);
    std::mem::swap(base, &mut taken);
    let mut table = match taken {
        TomlValue::Table(t) => t,
        _ => Table::new(),
    };
    let d = match delta {
        TomlValue::Table(d) => d,
        _ => {
            return;
        },
    };
    let ghost bm0 = table.map();
    proof {
        assert(base0 == TomlValue::Table(table));
        assert forall|i: int| 0 <= i < table.entries@.len() implies (
        #[trigger] table.entries@[i]).1.wf() by {
            lemma_wf_entry(base0, i);
        }
        if table.entries@.len() > 0 {
            lemma_wf_entry(base0, 0);
        }
        assert(table.map().dom() =~= bm0.dom().union(table_map(d.entries@.take(0)).dom()));
    }
    let mut j: usize = 0;
    while j < d.entries.len()
        invariant
            *delta == TomlValue::Table(*d),
            delta.wf(),
            base0 == TomlValue::Table(Table { entries: base0->Table_0.entries }),
            bm0 == base0->Table_0.map(),
            keys_distinct(table.entries@),
            forall|i: int| 0 <= i < table.entries@.len() ==> (#[trigger] table.entries@[i]).1.wf(),
            0 <= j <= d.entries@.len(),
            table.map().dom() == bm0.dom().union(table_map(d.entries@.take(j as int)).dom()),
            forall|k: Seq<char>|
                #![trigger table.map()[k]]
                bm0.contains_key(k) && !table_has(d.entries@.take(j as int), k) ==> table.map()[k]
                    == bm0[k],
            forall|i: int|
                0 <= i < j ==> if bm0.contains_key((#[trigger] d.entries@[i]).0@) {
                    merges_to(bm0[d.entries@[i].0@], d.entries@[i].1, table.map()[d.entries@[i].0@])
                } else {
                    same_value(table.map()[d.entries@[i].0@], d.entries@[i].1)
                },
        decreases d.entries@.len() - j,
    {
        let key = &d.entries[j].0;
        let dv = &d.entries[j].1;
        proof {
            lemma_entry_decreases(*delta, j as int);
            lemma_wf_entry(*delta, j as int);
        }
        let ghost k = key@;
        let ghost before = table.map();
        proof {
            // the key has not been seen among the earlier delta entries
            assert(!table_has(d.entries@.take(j as int), k)) by {
                if table_has(d.entries@.take(j as int), k) {
                    let i = choose|i: int|
                        0 <= i < d.entries@.take(j as int).len() && #[trigger] d.entries@.take(
                            j as int,
                        )[i].0@ == k;
                    assert(d.entries@[i].0@ == d.entries@[j as int].0@);
                }
            }
            assert(table_map(d.entries@.take(j as int + 1)).dom() =~= table_map(
                d.entries@.take(j as int),
            ).dom().insert(k)) by {
                assert forall|x: Seq<char>| table_has(d.entries@.take(j as int + 1), x) == (
                table_has(d.entries@.take(j as int), x) || x == k) by {
                    if table_has(d.entries@.take(j as int + 1), x) {
                        let i = choose|i: int|
                            0 <= i < d.entries@.take(j as int + 1).len() && #[trigger] d.entries@.take(
                                j as int + 1,
                            )[i].0@ == x;
                        if i < j {
                            assert(d.entries@.take(j as int)[i].0@ == x);
                        }
                    }
                    if table_has(d.entries@.take(j as int), x) {
                        let i = choose|i: int|
                            0 <= i < d.entries@.take(j as int).len() && #[trigger] d.entries@.take(
                                j as int,
                            )[i].0@ == x;
                        assert(d.entries@.take(j as int + 1)[i].0@ == x);
                    }
                    if x == k {
                        assert(d.entries@.take(j as int + 1)[j as int].0@ == x);
                    }
                }
            }
        }
        match find_key(&table.entries, key.as_str()) {
            Some(idx) => {
                let ghost e = table.entries@;
                proof {
                    lemma_lookup_at(e, idx as int);
                    assert(bm0.contains_key(k));
                    assert(before[k] == bm0[k]);
                }
                let (kk, mut v) = table.entries.remove(idx);
                deep_merge(&mut v, dv);
                table.entries.insert(idx, (kk, v));
                proof {
                    assert(table.entries@ =~= e.update(idx as int, (e[idx as int].0, v)));
                    lemma_update_value(e, idx as int, v);
                    assert forall|i: int| 0 <= i < table.entries@.len() implies (
                    #[trigger] table.entries@[i]).1.wf() by {
                        if i != idx {
                            assert(table.entries@[i] == e[i]);
                        }
                    }
                }
            },
            None => {
                let ghost e = table.entries@;
                let c = copy_value(dv);
                let kc = key.clone();
                table.entries.push((kc, c));
                proof {
                    lemma_push_entry(e, kc, c);
                    assert(!table_map(e).contains_key(k));
                    assert(!before.dom().contains(k));
                    assert(!bm0.contains_key(k));
                    assert forall|i: int| 0 <= i < table.entries@.len() implies (
                    #[trigger] table.entries@[i]).1.wf() by {
                        if i < e.len() {
                            assert(table.entries@[i] == e[i]);
                        }
                    }
                }
            },
        }
        proof {
            let after = table.map();
            assert(after == before.insert(k, after[k]));
            assert forall|i: int| 0 <= i < j + 1 implies if bm0.contains_key(
                (#[trigger] d.entries@[i]).0@,
            ) {
                merges_to(bm0[d.entries@[i].0@], d.entries@[i].1, after[d.entries@[i].0@])
            } else {
                same_value(after[d.entries@[i].0@], d.entries@[i].1)
            } by {
                if i < j {
                    assert(d.entries@[i].0@ != k);
                    assert(after[d.entries@[i].0@] == before[d.entries@[i].0@]);
                }
            }
            assert forall|x: Seq<char>|
                bm0.contains_key(x) && !table_has(d.entries@.take(j as int + 1), x) implies #[trigger] after[x]
                == bm0[x] by {
                assert(d.entries@.take(j as int + 1)[j as int].0@ == k);
                assert(x != k);
            }
            assert(after.dom() =~= bm0.dom().union(table_map(d.entries@.take(j as int + 1)).dom()));
        }
        j = j + 1;
    }
    proof {
        assert(d.entries@.take(d.entries@.len() as int) =~= d.entries@);
        lemma_wf_table_intro(TomlValue::Table(table));
        assert forall|i: int| 0 <= i < d.entries@.len() implies #[trigger] d.entries@[i] == d.entries@[i] by {
            lemma_entry_decreases(*delta, i);
        }
    }
    *base = TomlValue::Table(table);
    proof {
        assert(merges_to(base0, *delta, *base));
        lemma_merge_overlays(base0, *delta, *base);
    }
}

/// Merging an empty table into a table leaves every key with its value.
pub proof fn lemma_merge_empty_delta(base: TomlValue, delta: TomlValue, result: TomlValue)
    requires
        base is Table,
        delta is Table,
        delta->Table_0.entries@.len() == 0,
        merges_to(base, delta, result),
    ensures
        result is Table,
        result->Table_0.map() == base->Table_0.map(),
{
    lemma_children_decrease(delta);
    let bm = base->Table_0.map();
    let rm = result->Table_0.map();
    assert(table_map(delta->Table_0.entries@).dom() =~= Set::<Seq<char>>::empty());
    assert forall|k: Seq<char>| bm.contains_key(k) implies !table_has(delta->Table_0.entries@, k) by {}
    assert(rm =~= bm) by {
        assert forall|k: Seq<char>| #[trigger] rm.contains_key(k) implies rm[k] == bm[k] by {
            assert(bm.contains_key(k));
        }
    }
}

/// A merge keeps every key of the base and adds every key of the delta.
pub proof fn lemma_merge_keeps_keys(base: TomlValue, delta: TomlValue, result: TomlValue)
    requires
        base is Table,
        delta is Table,
        merges_to(base, delta, result),
    ensures
        result is Table,
        base->Table_0.map().dom().subset_of(result->Table_0.map().dom()),
        delta->Table_0.map().dom().subset_of(result->Table_0.map().dom()),
{
    lemma_children_decrease(delta);
}

/// A delta that is not a table replaces the base.
pub proof fn lemma_merge_scalar_delta(base: TomlValue, delta: TomlValue, result: TomlValue)
    requires
        !(delta is Table),
        merges_to(base, delta, result),
    ensures
        same_value(result, delta),
{
}

/// `a` and `b` hold the same document, tables compared key by key (the order
/// of their entries aside): two tables have the same keys and the same content
/// under each key; any other value is the same value.
pub open spec fn same_content(a: TomlValue, b: TomlValue) -> bool
    decreases a,
{
    match a {
        TomlValue::Table(x) => b is Table && {
            let bm = b->Table_0.map();
            &&& x.map().dom() == bm.dom()
            &&& forall|i: int|
                0 <= i < x.entries.len() ==> same_content(
                    (#[trigger] x.entries[i]).1,
                    bm[x.entries[i].0@],
                )
        },
        _ => same_value(a, b),
    }
}

proof fn lemma_same_content_refl(v: TomlValue)
    requires
        v.wf(),
    ensures
        same_content(v, v),
    decreases v,
{
    lemma_children_decrease(v);
    match v {
        TomlValue::Table(x) => {
            assert forall|i: int| 0 <= i < x.entries.len() implies same_content(
                (#[trigger] x.entries[i]).1,
                x.map()[x.entries[i].0@],
            ) by {
                lemma_wf_entry(v, i);
                lemma_lookup_at(x.entries@, i);
                lemma_same_content_refl(x.entries[i].1);
            }
        },
        _ => {
            lemma_same_value_refl(v);
        },
    }
}

/// Merging a value into a copy of itself changes nothing.
proof fn lemma_merge_into_copy(x: TomlValue, dv: TomlValue, y: TomlValue)
    requires
        x.wf(),
        same_value(x, dv),
        merges_to(x, dv, y),
    ensures
        same_content(x, y),
    decreases x,
{
    lemma_children_decrease(x);
    lemma_children_decrease(dv);
    if x is Table {
        let xt = x->Table_0;
        let d = dv->Table_0.entries;
        let ym = y->Table_0.map();
        assert(xt.map().dom() =~= table_map(d@).dom()) by {
            assert forall|k: Seq<char>| table_has(xt.entries@, k) == table_has(d@, k) by {
                if table_has(xt.entries@, k) {
                    let i = choose|i: int| 0 <= i < xt.entries@.len() && #[trigger] xt.entries@[i].0@ == k;
                    assert(xt.entries[i].0@ == d[i].0@);
                }
                if table_has(d@, k) {
                    let i = choose|i: int| 0 <= i < d@.len() && #[trigger] d@[i].0@ == k;
                    assert(xt.entries[i].0@ == d[i].0@);
                }
            }
        }
        assert(xt.map().dom() =~= ym.dom());
        assert forall|i: int| 0 <= i < xt.entries.len() implies same_content(
            (#[trigger] xt.entries[i]).1,
            ym[xt.entries[i].0@],
        ) by {
            lemma_wf_entry(x, i);
            lemma_lookup_at(xt.entries@, i);
            let k = xt.entries[i].0@;
            assert(d[i].0@ == k);
            assert(xt.map().contains_key(d[i].0@));
            assert(merges_to(xt.map()[d[i].0@], d[i].1, ym[d[i].0@]));
            lemma_merge_into_copy(xt.entries[i].1, d[i].1, ym[k]);
        }
    } else {
        assert(!(dv is Table));
        lemma_same_value_symm(y, dv);
        lemma_same_value_trans(x, dv, y);
    }
}

/// Merging is idempotent: merging a delta once more into the result of
/// merging it gives the same document again.
pub proof fn lemma_merge_idempotent(base: TomlValue, delta: TomlValue, once: TomlValue, twice: TomlValue)
    requires
        once.wf(),
        merges_to(base, delta, once),
        merges_to(once, delta, twice),
    ensures
        same_content(once, twice),
    decreases delta,
{
    lemma_children_decrease(delta);
    lemma_children_decrease(once);
    if !(delta is Table) {
        assert(!(once is Table));
        lemma_same_value_symm(twice, delta);
        lemma_same_value_trans(once, delta, twice);
    } else if !(base is Table) {
        assert(once is Table);
        lemma_merge_into_copy(once, delta, twice);
    } else {
        let ot = once->Table_0;
        let om = ot.map();
        let bm = base->Table_0.map();
        let d = delta->Table_0.entries;
        let tm = twice->Table_0.map();
        assert(om.dom() =~= tm.dom());
        assert forall|i: int| 0 <= i < ot.entries.len() implies same_content(
            (#[trigger] ot.entries[i]).1,
            tm[ot.entries[i].0@],
        ) by {
            lemma_wf_entry(once, i);
            lemma_lookup_at(ot.entries@, i);
            let k = ot.entries[i].0@;
            if table_has(d@, k) {
                let j = choose|j: int| 0 <= j < d@.len() && #[trigger] d@[j].0@ == k;
                assert(d[j].0@ == k);
                assert(merges_to(om[d[j].0@], d[j].1, tm[d[j].0@]));
                lemma_entry_decreases(delta, j);
                if bm.contains_key(k) {
                    assert(merges_to(bm[d[j].0@], d[j].1, om[d[j].0@]));
                    lemma_merge_idempotent(bm[k], d[j].1, om[k], tm[k]);
                } else {
                    assert(same_value(om[d[j].0@], d[j].1));
                    lemma_merge_into_copy(om[k], d[j].1, tm[k]);
                }
            } else {
                assert(tm[k] == om[k]);
                lemma_same_content_refl(ot.entries[i].1);
            }
        }
    }
}

/// Everything `delta` holds is in `result`: at every depth, each key of a
/// delta table is a key of the result's table there, and each value of the
/// delta that is not a table is in the result as it is.
pub open spec fn overlays(result: TomlValue, delta: TomlValue) -> bool
    decreases delta,
{
    match delta {
        TomlValue::Table(d) => result is Table && forall|i: int|
            0 <= i < d.entries.len() ==> result->Table_0.map().contains_key(
                (#[trigger] d.entries[i]).0@,
            ) && overlays(result->Table_0.map()[d.entries[i].0@], d.entries[i].1),
        _ => same_value(result, delta),
    }
}

proof fn lemma_copy_overlays(r: TomlValue, d: TomlValue)
    requires
        r.wf(),
        same_value(r, d),
    ensures
        overlays(r, d),
    decreases d,
{
    lemma_children_decrease(d);
    if d is Table {
        let rt = r->Table_0;
        let dt = d->Table_0;
        assert forall|i: int| 0 <= i < dt.entries.len() implies rt.map().contains_key(
            (#[trigger] dt.entries[i]).0@,
        ) && overlays(rt.map()[dt.entries[i].0@], dt.entries[i].1) by {
            lemma_wf_entry(r, i);
            lemma_lookup_at(rt.entries@, i);
            assert(rt.entries[i].0@ == dt.entries[i].0@);
            lemma_copy_overlays(rt.entries[i].1, dt.entries[i].1);
        }
    }
}

/// A merge keeps all of the delta: every key the delta holds, at every
/// depth, is in the result, with the delta's values that are not tables as
/// they are. A key in both tables always takes the delta's content, however
/// large the delta's value under it.
pub proof fn lemma_merge_overlays(base: TomlValue, delta: TomlValue, result: TomlValue)
    requires
        result.wf(),
        merges_to(base, delta, result),
    ensures
        overlays(result, delta),
    decreases delta,
{
    lemma_children_decrease(delta);
    if !(delta is Table) {
    } else if !(base is Table) {
        lemma_copy_overlays(result, delta);
    } else {
        let rt = result->Table_0;
        let rm = rt.map();
        let bm = base->Table_0.map();
        let d = delta->Table_0.entries;
        assert forall|i: int| 0 <= i < d.len() implies rm.contains_key((#[trigger] d[i]).0@) && overlays(
            rm[d[i].0@],
            d[i].1,
        ) by {
            let k = d[i].0@;
            assert(table_has(d@, k));
            assert(rm.contains_key(k));
            let j = lemma_map_entry(rt, k);
            lemma_wf_entry(result, j);
            if bm.contains_key(k) {
                lemma_merge_overlays(bm[k], d[i].1, rm[k]);
            } else {
                lemma_copy_overlays(rm[k], d[i].1);
            }
        }
    }
}

/// Merging two tables keeps the base's own entries: the result's keys are
/// exactly those of the base and of the delta, and a key the delta does not
/// hold keeps the base's value.
pub proof fn lemma_merge_keeps_base_values(base: TomlValue, delta: TomlValue, result: TomlValue)
    requires
        base is Table,
        delta is Table,
        merges_to(base, delta, result),
    ensures
        result is Table,
        forall|k: Seq<char>|
            #[trigger] result->Table_0.map().contains_key(k) <==> (base->Table_0.map().contains_key(k)
                || delta->Table_0.map().contains_key(k)),
        forall|k: Seq<char>|
            base->Table_0.map().contains_key(k) && !delta->Table_0.map().contains_key(k)
                ==> #[trigger] result->Table_0.map()[k] == base->Table_0.map()[k],
{
    lemma_children_decrease(delta);
}

} // verus!
