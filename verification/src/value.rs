use vstd::prelude::*;

verus! {

broadcast use vstd::std_specs::vec::group_vec_axioms;

/// A TOML value.
///
/// Floats are held by their IEEE-754 bit pattern and date-times by their
/// RFC 3339 text, so that every value is made of integers, booleans and text.
#[derive(Debug, PartialEq)]
pub enum TomlValue {
    Text(String),
    Integer(i64),
    Float(u64),
    Boolean(bool),
    Datetime(String),
    Array(Vec<TomlValue>),
    Table(Table),
}

/// A TOML table: keys with their values, in insertion order.
#[derive(Debug, PartialEq)]
pub struct Table {
    pub entries: Vec<(String, TomlValue)>,
}

/// `k` is the key of some entry.
pub open spec fn table_has(e: Seq<(String, TomlValue)>, k: Seq<char>) -> bool {
    exists|i: int| 0 <= i < e.len() && #[trigger] e[i].0@ == k
}

/// The value stored under `k`, when there is one.
pub open spec fn table_lookup(e: Seq<(String, TomlValue)>, k: Seq<char>) -> TomlValue {
    e[choose|i: int| 0 <= i < e.len() && #[trigger] e[i].0@ == k].1
}

/// The entries read as a map from key text to value.
pub open spec fn table_map(e: Seq<(String, TomlValue)>) -> Map<Seq<char>, TomlValue> {
    Map::new(|k: Seq<char>| table_has(e, k), |k: Seq<char>| table_lookup(e, k))
}

/// No key occurs twice.
pub open spec fn keys_distinct(e: Seq<(String, TomlValue)>) -> bool {
    forall|i: int, j: int| 0 <= i < j < e.len() ==> #[trigger] e[i].0@ != #[trigger] e[j].0@
}

impl Table {
    /// The table's contents as a map.
    pub open spec fn map(&self) -> Map<Seq<char>, TomlValue> {
        table_map(self.entries@)
    }
}

impl TomlValue {
    /// Every table in the value, at any depth, holds each key once.
    pub open spec fn wf(&self) -> bool
        decreases self,
    {
        match self {
            TomlValue::Array(a) => forall|i: int| 0 <= i < a.len() ==> (#[trigger] a[i]).wf(),
            TomlValue::Table(t) => {
                &&& keys_distinct(t.entries@)
                &&& forall|i: int| 0 <= i < t.entries.len() ==> (#[trigger] t.entries[i]).1.wf()
            },
            _ => true,
        }
    }
}

/// Two values are the same document: same variant, same scalars, same text,
/// and element by element the same arrays and tables.
pub open spec fn same_value(a: TomlValue, b: TomlValue) -> bool
    decreases a,
{
    match a {
        TomlValue::Text(x) => b is Text && b->Text_0@ == x@,
        TomlValue::Integer(x) => b == TomlValue::Integer(x),
        TomlValue::Float(x) => b == TomlValue::Float(x),
        TomlValue::Boolean(x) => b == TomlValue::Boolean(x),
        TomlValue::Datetime(x) => b is Datetime && b->Datetime_0@ == x@,
        TomlValue::Array(x) => b is Array && {
            let y = b->Array_0;
            &&& x.len() == y.len()
            &&& forall|i: int| 0 <= i < x.len() ==> same_value(#[trigger] x[i], y[i])
        },
        TomlValue::Table(x) => b is Table && {
            let y = b->Table_0.entries;
            &&& x.entries.len() == y.len()
            &&& forall|i: int|
                0 <= i < x.entries.len() ==> (#[trigger] x.entries[i]).0@ == y[i].0@
                    && same_value(x.entries[i].1, y[i].1)
        },
    }
}

/// In a table without repeated keys, each entry is what its key maps to.
pub proof fn lemma_lookup_at(e: Seq<(String, TomlValue)>, i: int)
    requires
        keys_distinct(e),
        0 <= i < e.len(),
    ensures
        table_map(e).contains_key(e[i].0@),
        table_map(e)[e[i].0@] == e[i].1,
{
    let k = e[i].0@;
    assert(table_has(e, k));
    let j = choose|j: int| 0 <= j < e.len() && #[trigger] e[j].0@ == k;
    if j != i {
        if j < i {
            assert(e[j].0@ != e[i].0@);
        } else {
            assert(e[i].0@ != e[j].0@);
        }
    }
}

/// Replacing the value of an entry replaces what its key maps to.
pub proof fn lemma_update_value(e: Seq<(String, TomlValue)>, i: int, v: TomlValue)
    requires
        keys_distinct(e),
        0 <= i < e.len(),
    ensures
        keys_distinct(e.update(i, (e[i].0, v))),
        table_map(e.update(i, (e[i].0, v))) == table_map(e).insert(e[i].0@, v),
{
    let f = e.update(i, (e[i].0, v));
    assert forall|a: int, b: int| 0 <= a < b < f.len() implies #[trigger] f[a].0@ != #[trigger] f[b].0@ by {
        assert(f[a].0@ == e[a].0@);
        assert(f[b].0@ == e[b].0@);
    }
    assert forall|k: Seq<char>| table_has(f, k) == table_has(e, k) by {
        if table_has(f, k) {
            let j = choose|j: int| 0 <= j < f.len() && #[trigger] f[j].0@ == k;
            assert(e[j].0@ == k);
        }
        if table_has(e, k) {
            let j = choose|j: int| 0 <= j < e.len() && #[trigger] e[j].0@ == k;
            assert(f[j].0@ == k);
        }
    }
    assert forall|k: Seq<char>| #[trigger] table_has(f, k) implies table_lookup(f, k) == (if k
        == e[i].0@ {
        v
    } else {
        table_lookup(e, k)
    }) by {
        let j = choose|j: int| 0 <= j < f.len() && #[trigger] f[j].0@ == k;
        lemma_lookup_at(f, j);
        lemma_lookup_at(e, j);
        if j == i {
            assert(f[j].1 == v);
        } else {
            assert(f[j] == e[j]);
            if k == e[i].0@ {
                if j < i {
                    assert(e[j].0@ != e[i].0@);
                } else {
                    assert(e[i].0@ != e[j].0@);
                }
            }
        }
    }
    assert(table_map(f) =~= table_map(e).insert(e[i].0@, v));
}

/// Appending an entry under a new key adds that key to the map.
pub proof fn lemma_push_entry(e: Seq<(String, TomlValue)>, k: String, v: TomlValue)
    requires
        keys_distinct(e),
        !table_has(e, k@),
    ensures
        keys_distinct(e.push((k, v))),
        table_map(e.push((k, v))) == table_map(e).insert(k@, v),
{
    let f = e.push((k, v));
    assert forall|a: int, b: int| 0 <= a < b < f.len() implies #[trigger] f[a].0@ != #[trigger] f[b].0@ by {
        if b == e.len() {
            assert(f[a] == e[a]);
            if e[a].0@ == k@ {
                assert(table_has(e, k@));
            }
        } else {
            assert(f[a] == e[a]);
            assert(f[b] == e[b]);
        }
    }
    assert forall|key: Seq<char>| table_has(f, key) == (table_has(e, key) || key == k@) by {
        if table_has(f, key) {
            let j = choose|j: int| 0 <= j < f.len() && #[trigger] f[j].0@ == key;
            if j < e.len() {
                assert(f[j] == e[j]);
            }
        }
        if table_has(e, key) {
            let j = choose|j: int| 0 <= j < e.len() && #[trigger] e[j].0@ == key;
            assert(f[j] == e[j]);
        }
        if key == k@ {
            assert(f[e.len() as int].0@ == key);
        }
    }
    assert forall|key: Seq<char>| #[trigger] table_has(f, key) implies table_lookup(f, key) == (
    if key == k@ {
        v
    } else {
        table_lookup(e, key)
    }) by {
        let j = choose|j: int| 0 <= j < f.len() && #[trigger] f[j].0@ == key;
        lemma_lookup_at(f, j);
        if j < e.len() {
            assert(f[j] == e[j]);
            lemma_lookup_at(e, j);
            if key == k@ {
                assert(table_has(e, k@));
            }
        }
    }
    assert(table_map(f) =~= table_map(e).insert(k@, v));
}

/// Finds the position of `key` among the entries.
pub fn find_key(entries: &Vec<(String, TomlValue)>, key: &str) -> (r: Option<usize>)
    ensures
        match r {
            Some(i) => i < entries@.len() && entries@[i as int].0@ == key@,
            None => !table_has(entries@, key@),
        },
{
    let mut i: usize = 0;
    while i < entries.len()
        invariant
            0 <= i <= entries@.len(),
            forall|j: int| 0 <= j < i ==> #[trigger] entries@[j].0@ != key@,
        decreases entries@.len() - i,
    {
        if str_eq(entries[i].0.as_str(), key) {
            return Some(i);
        }
        i = i + 1;
    }
    None
}

/// Whether two texts are equal.
pub fn str_eq(a: &str, b: &str) -> (r: bool)
    ensures
        r == (a@ == b@),
{
    let n = a.unicode_len();
    if n != b.unicode_len() {
        return false;
    }
    let mut i: usize = 0;
    while i < n
        invariant
            n == a@.len(),
            n == b@.len(),
            0 <= i <= n,
            forall|j: int| 0 <= j < i ==> a@[j] == b@[j],
        decreases n - i,
    {
        if a.get_char(i) != b.get_char(i) {
            return false;
        }
        i = i + 1;
    }
    proof {
        assert(a@ =~= b@);
    }
    true
}

/// An array element is smaller than the array holding it.
pub proof fn lemma_element_decreases(v: TomlValue, i: int)
    requires
        v is Array,
        0 <= i < v->Array_0.len(),
    ensures
        decreases_to!(v => v->Array_0[i]),
{
    let a = v->Array_0;
    vstd::std_specs::vec::axiom_vec_index_decreases(a, i);
    assert(decreases_to!(v => v->Array_0));
}

/// A table entry's value is smaller than the table holding it.
pub proof fn lemma_entry_decreases(v: TomlValue, i: int)
    requires
        v is Table,
        0 <= i < v->Table_0.entries.len(),
    ensures
        decreases_to!(v => v->Table_0.entries[i].1),
{
    let t = v->Table_0;
    vstd::std_specs::vec::axiom_vec_index_decreases(t.entries, i);
    assert(decreases_to!(v => v->Table_0));
    assert(decreases_to!(t => t.entries));
    assert(decreases_to!(t.entries[i] => t.entries[i].1));
}

/// Every child of an array or table is smaller than the value holding it.
pub proof fn lemma_children_decrease(v: TomlValue)
    ensures
        v is Array ==> forall|i: int|
            0 <= i < v->Array_0.len() ==> decreases_to!(v => #[trigger] v->Array_0[i]),
        v is Table ==> forall|i: int|
            0 <= i < v->Table_0.entries.len() ==> decreases_to!(v => #[trigger] v->Table_0.entries[i].1),
{
    if v is Array {
        assert forall|i: int| 0 <= i < v->Array_0.len() implies decreases_to!(v => #[trigger] v->Array_0[i]) by {
            lemma_element_decreases(v, i);
        }
    }
    if v is Table {
        assert forall|i: int| 0 <= i < v->Table_0.entries.len() implies decreases_to!(v => #[trigger] v->Table_0.entries[i].1) by {
            lemma_entry_decreases(v, i);
        }
    }
}

/// A table is well-formed when its keys are distinct and its values are.
pub proof fn lemma_wf_table_intro(v: TomlValue)
    requires
        v is Table,
        keys_distinct(v->Table_0.entries@),
        forall|i: int| 0 <= i < v->Table_0.entries.len() ==> (#[trigger] v->Table_0.entries[i]).1.wf(),
    ensures
        v.wf(),
{
    assert forall|i: int| 0 <= i < v->Table_0.entries.len() implies (
    #[trigger] v->Table_0.entries[i]).1.wf() by {
        lemma_entry_decreases(v, i);
    }
}

/// A table is well-formed when its keys are distinct and every value it maps
/// to is.
pub proof fn lemma_wf_from_map(t: Table)
    requires
        keys_distinct(t.entries@),
        forall|k: Seq<char>| #[trigger] t.map().contains_key(k) ==> t.map()[k].wf(),
    ensures
        TomlValue::Table(t).wf(),
{
    assert forall|i: int| 0 <= i < t.entries.len() implies (#[trigger] t.entries[i]).1.wf() by {
        lemma_lookup_at(t.entries@, i);
        assert(t.map().contains_key(t.entries@[i].0@));
    }
    lemma_wf_table_intro(TomlValue::Table(t));
}

/// In a table without repeated keys, a key maps to the value of the entry
/// that holds it.
pub proof fn lemma_map_entry(t: Table, k: Seq<char>) -> (i: int)
    requires
        keys_distinct(t.entries@),
        t.map().contains_key(k),
    ensures
        0 <= i < t.entries@.len(),
        t.entries@[i].0@ == k,
        t.map()[k] == t.entries@[i].1,
{
    let i = choose|i: int| 0 <= i < t.entries@.len() && #[trigger] t.entries@[i].0@ == k;
    lemma_lookup_at(t.entries@, i);
    i
}

/// Every value is the same as itself.
pub proof fn lemma_same_value_refl(v: TomlValue)
    ensures
        same_value(v, v),
    decreases v,
{
    lemma_children_decrease(v);
    match v {
        TomlValue::Array(a) => {
            assert forall|i: int| 0 <= i < a.len() implies same_value(#[trigger] a[i], a[i]) by {
                lemma_same_value_refl(a[i]);
            }
        },
        TomlValue::Table(t) => {
            assert forall|i: int| 0 <= i < t.entries.len() implies (#[trigger] t.entries[i]).0@
                == t.entries[i].0@ && same_value(t.entries[i].1, t.entries[i].1) by {
                lemma_same_value_refl(t.entries[i].1);
            }
        },
        _ => {},
    }
}

/// Sameness is symmetric.
pub proof fn lemma_same_value_symm(a: TomlValue, b: TomlValue)
    requires
        same_value(a, b),
    ensures
        same_value(b, a),
    decreases a,
{
    lemma_children_decrease(a);
    lemma_children_decrease(b);
    match a {
        TomlValue::Array(x) => {
            let y = b->Array_0;
            assert forall|i: int| 0 <= i < y.len() implies same_value(#[trigger] y[i], x[i]) by {
                lemma_same_value_symm(x[i], y[i]);
            }
        },
        TomlValue::Table(x) => {
            let y = b->Table_0.entries;
            assert forall|i: int| 0 <= i < y.len() implies (#[trigger] y[i]).0@ == x.entries[i].0@
                && same_value(y[i].1, x.entries[i].1) by {
                lemma_same_value_symm(x.entries[i].1, y[i].1);
            }
        },
        _ => {},
    }
}

/// Sameness is transitive.
pub proof fn lemma_same_value_trans(a: TomlValue, b: TomlValue, c: TomlValue)
    requires
        same_value(a, b),
        same_value(b, c),
    ensures
        same_value(a, c),
    decreases a,
{
    lemma_children_decrease(a);
    lemma_children_decrease(b);
    lemma_children_decrease(c);
    match a {
        TomlValue::Array(x) => {
            let y = b->Array_0;
            let z = c->Array_0;
            assert forall|i: int| 0 <= i < x.len() implies same_value(#[trigger] x[i], z[i]) by {
                lemma_same_value_trans(x[i], y[i], z[i]);
            }
        },
        TomlValue::Table(x) => {
            let y = b->Table_0.entries;
            let z = c->Table_0.entries;
            assert forall|i: int| 0 <= i < x.entries.len() implies (#[trigger] x.entries[i]).0@
                == z[i].0@ && same_value(x.entries[i].1, z[i].1) by {
                lemma_same_value_trans(x.entries[i].1, y[i].1, z[i].1);
            }
        },
        _ => {},
    }
}

/// What well-formedness says of an array's elements.
pub proof fn lemma_wf_element(v: TomlValue, i: int)
    requires
        v is Array,
        v.wf(),
        0 <= i < v->Array_0.len(),
    ensures
        v->Array_0[i].wf(),
{
    lemma_element_decreases(v, i);
}

/// What well-formedness says of a table's entries.
pub proof fn lemma_wf_entry(v: TomlValue, i: int)
    requires
        v is Table,
        v.wf(),
        0 <= i < v->Table_0.entries.len(),
    ensures
        keys_distinct(v->Table_0.entries@),
        v->Table_0.entries[i].1.wf(),
{
    lemma_entry_decreases(v, i);
}

/// Copies a value.
pub fn copy_value(v: &TomlValue) -> (r: TomlValue)
    ensures
        same_value(r, *v),
        v.wf() ==> r.wf(),
    decreases v,
{
    match v {
        TomlValue::Text(s) => TomlValue::Text(s.clone()),
        TomlValue::Integer(x) => TomlValue::Integer(*x),
        TomlValue::Float(x) => TomlValue::Float(*x),
        TomlValue::Boolean(x) => TomlValue::Boolean(*x),
        TomlValue::Datetime(s) => TomlValue::Datetime(s.clone()),
        TomlValue::Array(a) => {
            let mut out: Vec<TomlValue> = Vec::new();
            let mut i: usize = 0;
            while i < a.len()
                invariant
                    0 <= i <= a@.len(),
                    out@.len() == i,
                    forall|j: int| 0 <= j < i ==> same_value(#[trigger] out@[j], a@[j]),
                    v.wf() ==> forall|j: int| 0 <= j < i ==> (#[trigger] out@[j]).wf(),
                    *v == TomlValue::Array(*a),
                decreases a@.len() - i,
            {
                proof {
                    lemma_element_decreases(*v, i as int);
                    if v.wf() {
                        lemma_wf_element(*v, i as int);
                    }
                }
                let c = copy_value(&a[i]);
                out.push(c);
                i = i + 1;
            }
            TomlValue::Array(out)
        },
        TomlValue::Table(t) => TomlValue::Table(copy_table(t)),
    }
}

/// Copies a table.
pub fn copy_table(t: &Table) -> (r: Table)
    ensures
        same_value(TomlValue::Table(r), TomlValue::Table(*t)),
        TomlValue::Table(*t).wf() ==> TomlValue::Table(r).wf(),
    decreases t,
{
    let mut out: Vec<(String, TomlValue)> = Vec::new();
    let mut i: usize = 0;
    while i < t.entries.len()
        invariant
            0 <= i <= t.entries@.len(),
            out@.len() == i,
            forall|j: int|
                0 <= j < i ==> (#[trigger] out@[j]).0@ == t.entries@[j].0@ && same_value(
                    out@[j].1,
                    t.entries@[j].1,
                ),
            TomlValue::Table(*t).wf() ==> forall|j: int| 0 <= j < i ==> (#[trigger] out@[j]).1.wf(),
        decreases t.entries@.len() - i,
    {
        proof {
            lemma_entry_decreases(TomlValue::Table(*t), i as int);
            if TomlValue::Table(*t).wf() {
                lemma_wf_entry(TomlValue::Table(*t), i as int);
            }
        }
        let k = t.entries[i].0.clone();
        let c = copy_value(&t.entries[i].1);
        out.push((k, c));
        i = i + 1;
    }
    let r = Table { entries: out };
    proof {
        if TomlValue::Table(*t).wf() {
            assert forall|a: int, b: int| 0 <= a < b < r.entries@.len() implies #[trigger] r.entries@[a].0@
                != #[trigger] r.entries@[b].0@ by {
                assert(t.entries@[a].0@ != t.entries@[b].0@);
            }
        }
    }
    r
}

impl Table {
    /// An empty table.
    pub fn new() -> (r: Table)
        ensures
            r.entries@.len() == 0,
            r.map() == Map::<Seq<char>, TomlValue>::empty(),
    {
        let r = Table { entries: Vec::new() };
        proof {
            assert(r.map() =~= Map::<Seq<char>, TomlValue>::empty());
        }
        r
    }

    /// The number of entries.
    pub fn len(&self) -> (r: usize)
        ensures
            r == self.entries@.len(),
    {
        self.entries.len()
    }

    /// Whether the table has no entries.
    pub fn is_empty(&self) -> (r: bool)
        ensures
            r == (self.entries@.len() == 0),
    {
        self.entries.len() == 0
    }

    /// The value stored under `key`.
    pub fn get(&self, key: &str) -> (r: Option<&TomlValue>)
        requires
            keys_distinct(self.entries@),
        ensures
            match r {
                Some(v) => self.map().contains_key(key@) && *v == self.map()[key@],
                None => !self.map().contains_key(key@),
            },
    {
        match find_key(&self.entries, key) {
            Some(i) => {
                proof {
                    lemma_lookup_at(self.entries@, i as int);
                }
                Some(&self.entries[i].1)
            },
            None => None,
        }
    }

    /// Stores `value` under `key`, replacing and returning the value that was
    /// there; a new key goes after the existing ones.
    pub fn insert(&mut self, key: String, value: TomlValue) -> (r: Option<TomlValue>)
        requires
            keys_distinct(old(self).entries@),
        ensures
            keys_distinct(final(self).entries@),
            final(self).map() == old(self).map().insert(key@, value),
            match r {
                Some(v) => old(self).map().contains_key(key@) && v == old(self).map()[key@],
                None => !old(self).map().contains_key(key@),
            },
            final(self).entries@.len() == old(self).entries@.len() + (if r is Some {
                0int
            } else {
                1int
            }),
    {
        match find_key(&self.entries, key.as_str()) {
            Some(i) => {
                let ghost e = self.entries@;
                let (k, old_value) = self.entries.remove(i);
                self.entries.insert(i, (k, value));
                proof {
                    lemma_lookup_at(e, i as int);
                    assert(self.entries@ =~= e.update(i as int, (e[i as int].0, value)));
                    lemma_update_value(e, i as int, value);
                }
                Some(old_value)
            },
            None => {
                let ghost e = self.entries@;
                self.entries.push((key, value));
                proof {
                    lemma_push_entry(e, key, value);
                }
                None
            },
        }
    }
}

/// Whether no key occurs twice among the entries.
pub fn keys_are_distinct(entries: &Vec<(String, TomlValue)>) -> (r: bool)
    ensures
        r == keys_distinct(entries@),
{
    let mut j: usize = 0;
    while j < entries.len()
        invariant
            0 <= j <= entries@.len(),
            forall|a: int, b: int| 0 <= a < b < j ==> #[trigger] entries@[a].0@ != #[trigger] entries@[b].0@,
        decreases entries@.len() - j,
    {
        let mut i: usize = 0;
        while i < j
            invariant
                0 <= i <= j < entries@.len(),
                forall|a: int, b: int| 0 <= a < b < j ==> #[trigger] entries@[a].0@ != #[trigger] entries@[b].0@,
                forall|a: int| 0 <= a < i ==> #[trigger] entries@[a].0@ != entries@[j as int].0@,
            decreases j - i,
        {
            if str_eq(entries[i].0.as_str(), entries[j].0.as_str()) {
                return false;
            }
            i = i + 1;
        }
        j = j + 1;
    }
    true
}

/// Whether every table in the value, at any depth, holds each key once.
pub fn is_well_formed(v: &TomlValue) -> (r: bool)
    ensures
        r == v.wf(),
    decreases v,
{
    proof {
        lemma_children_decrease(*v);
    }
    match v {
        TomlValue::Array(a) => {
            let mut i: usize = 0;
            while i < a.len()
                invariant
                    *v == TomlValue::Array(*a),
                    0 <= i <= a@.len(),
                    forall|j: int| 0 <= j < i ==> (#[trigger] a@[j]).wf(),
                decreases a@.len() - i,
            {
                proof {
                    lemma_element_decreases(*v, i as int);
                }
                if !is_well_formed(&a[i]) {
                    return false;
                }
                i = i + 1;
            }
            proof {
                assert forall|j: int| 0 <= j < a.len() implies (#[trigger] a[j]).wf() by {}
            }
            true
        },
        TomlValue::Table(t) => is_well_formed_table(t),
        _ => true,
    }
}

/// Whether a table, and every table in its values, holds each key once.
pub fn is_well_formed_table(t: &Table) -> (r: bool)
    ensures
        r == TomlValue::Table(*t).wf(),
    decreases t,
{
    let ghost v = TomlValue::Table(*t);
    proof {
        lemma_children_decrease(v);
    }
    if !keys_are_distinct(&t.entries) {
        return false;
    }
    let mut i: usize = 0;
    while i < t.entries.len()
        invariant
            v == TomlValue::Table(*t),
            keys_distinct(t.entries@),
            0 <= i <= t.entries@.len(),
            forall|j: int| 0 <= j < i ==> (#[trigger] t.entries@[j]).1.wf(),
        decreases t.entries@.len() - i,
    {
        proof {
            lemma_entry_decreases(v, i as int);
        }
        if !is_well_formed(&t.entries[i].1) {
            proof {
                lemma_entry_decreases(v, i as int);
            }
            return false;
        }
        i = i + 1;
    }
    proof {
        lemma_wf_table_intro(v);
    }
    true
}

} // verus!
