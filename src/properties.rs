//! Feature properties: an ordered list of keyed values, and the operations that
//! fold the properties of many features into one record.
use vstd::prelude::*;
use vstd::pervasive::VecAdditionalExecFns;
use crate::text::same_text;

verus! {

/// One property value that is not a list.
#[derive(Clone, Debug, PartialEq)]
pub enum Scalar {
    Text(String),
    Number(u64),
}

pub enum ScalarModel {
    Text(Seq<char>),
    Number(u64),
}

impl View for Scalar {
    type V = ScalarModel;

    open spec fn view(&self) -> ScalarModel {
        match self {
            Scalar::Text(t) => ScalarModel::Text(t@),
            Scalar::Number(n) => ScalarModel::Number(*n),
        }
    }
}

pub open spec fn scalars_model(v: Seq<Scalar>) -> Seq<ScalarModel> {
    v.map_values(|s: Scalar| s@)
}

/// A property value: text, a count, or a list of distinct scalars.
#[derive(Clone, Debug, PartialEq)]
pub enum PropertyValue {
    Text(String),
    Number(u64),
    List(Vec<Scalar>),
}

pub enum ValueModel {
    Text(Seq<char>),
    Number(u64),
    List(Seq<ScalarModel>),
}

impl View for PropertyValue {
    type V = ValueModel;

    open spec fn view(&self) -> ValueModel {
        match self {
            PropertyValue::Text(t) => ValueModel::Text(t@),
            PropertyValue::Number(n) => ValueModel::Number(*n),
            PropertyValue::List(v) => ValueModel::List(scalars_model(v@)),
        }
    }
}

/// A keyed property of a feature.
#[derive(Clone, Debug, PartialEq)]
pub struct Property {
    pub key: String,
    pub value: PropertyValue,
}

impl View for Property {
    type V = (Seq<char>, ValueModel);

    open spec fn view(&self) -> (Seq<char>, ValueModel) {
        (self.key@, self.value@)
    }
}

/// A property list as keys and values.
pub type PropertiesModel = Seq<(Seq<char>, ValueModel)>;

pub open spec fn properties_model(p: Seq<Property>) -> PropertiesModel {
    p.map_values(|q: Property| q@)
}

/// Index of the first entry of `m` under `key`.
#[verifier::opaque]
pub open spec fn key_index(m: PropertiesModel, key: Seq<char>) -> Option<int> {
    if exists|i: int| 0 <= i < m.len() && m[i].0 == key {
        Some(
            choose|i: int|
                0 <= i < m.len() && m[i].0 == key && forall|j: int| 0 <= j < i ==> m[j].0 != key,
        )
    } else {
        None
    }
}

/// The value of the first entry of `m` under `key`.
pub open spec fn lookup(m: PropertiesModel, key: Seq<char>) -> Option<ValueModel> {
    match key_index(m, key) {
        Some(i) => Some(m[i].1),
        None => None,
    }
}

/// Adds `s` to the list under `key` unless the list holds it already; a missing
/// entry becomes a one-element list, and an entry that is not a list stays as it is.
#[verifier::opaque]
pub open spec fn insert_unique(m: PropertiesModel, key: Seq<char>, s: ScalarModel) -> PropertiesModel {
    match key_index(m, key) {
        None => m.push((key, ValueModel::List(seq![s]))),
        Some(i) => match m[i].1 {
            ValueModel::List(l) => if l.contains(s) {
                m
            } else {
                m.update(i, (key, ValueModel::List(l.push(s))))
            },
            _ => m,
        },
    }
}

/// Adds `n` to the count under `key` (saturating), starting it at `n` when missing.
#[verifier::opaque]
pub open spec fn add_count(m: PropertiesModel, key: Seq<char>, n: u64) -> PropertiesModel {
    match key_index(m, key) {
        None => m.push((key, ValueModel::Number(n))),
        Some(i) => match m[i].1 {
            ValueModel::Number(c) => m.update(i, (key, ValueModel::Number(c.saturating_add(n)))),
            _ => m,
        },
    }
}

/// Inserts each of `items` in turn with `insert_unique`.
pub open spec fn insert_all(m: PropertiesModel, key: Seq<char>, items: Seq<ScalarModel>) -> PropertiesModel
    decreases items.len(),
{
    if items.len() == 0 {
        m
    } else {
        insert_unique(insert_all(m, key, items.drop_last()), key, items.last())
    }
}

/// Whether a key is folded by the generic rule (the others are handled on their own).
pub open spec fn is_folded_key(key: Seq<char>) -> bool {
    key != "SourceFile"@ && key != "SourceFileDir"@ && key != "number_of_points"@
}

/// Folds one property entry of a feature into the merged record: a text value joins
/// the key's list of distinct values, as does each item of a list value (merged
/// records carry their values as lists); a count is not collected.
#[verifier::opaque]
pub open spec fn fold_entry(m: PropertiesModel, entry: (Seq<char>, ValueModel)) -> PropertiesModel {
    if !is_folded_key(entry.0) {
        m
    } else {
        match entry.1 {
            ValueModel::Text(t) => insert_unique(m, entry.0, ScalarModel::Text(t)),
            ValueModel::Number(_) => m,
            ValueModel::List(items) => insert_all(m, entry.0, items),
        }
    }
}

/// Folds the entries of `props` in order.
pub open spec fn fold_entries(m: PropertiesModel, props: PropertiesModel) -> PropertiesModel
    decreases props.len(),
{
    if props.len() == 0 {
        m
    } else {
        fold_entry(fold_entries(m, props.drop_last()), props.last())
    }
}

/// Folds the properties of one feature into the merged record: one more merged
/// feature, its point count added, then its other entries.
pub open spec fn fold_feature(m: PropertiesModel, props: PropertiesModel) -> PropertiesModel {
    fold_entries(count_feature(m, props), props)
}

impl Scalar {
    /// A copy of this value.
    pub fn duplicate(&self) -> (r: Scalar)
        ensures
            r@ == self@,
    {
        match self {
            Scalar::Text(t) => Scalar::Text(t.clone()),
            Scalar::Number(n) => Scalar::Number(*n),
        }
    }

    /// Whether two values are equal.
    pub fn same(&self, other: &Scalar) -> (r: bool)
        ensures
            r == (self@ == other@),
    {
        match (self, other) {
            (Scalar::Text(a), Scalar::Text(b)) => *a == *b,
            (Scalar::Number(a), Scalar::Number(b)) => *a == *b,
            _ => false,
        }
    }
}

/// A copy of a list of scalars.
pub fn copy_scalars(v: &Vec<Scalar>) -> (r: Vec<Scalar>)
    ensures
        scalars_model(r@) == scalars_model(v@),
{
    let mut r: Vec<Scalar> = Vec::new();
    let mut i: usize = 0;
    while i < v.len()
        invariant
            i <= v.len(),
            r@.len() == i,
            forall|j: int| 0 <= j < i ==> (#[trigger] r@[j])@ == v@[j]@,
        decreases v.len() - i,
    {
        r.push(v[i].duplicate());
        i = i + 1;
    }
    assert(scalars_model(r@) =~= scalars_model(v@));
    r
}

impl PropertyValue {
    /// A copy of this value.
    pub fn duplicate(&self) -> (r: PropertyValue)
        ensures
            r@ == self@,
    {
        match self {
            PropertyValue::Text(t) => PropertyValue::Text(t.clone()),
            PropertyValue::Number(n) => PropertyValue::Number(*n),
            PropertyValue::List(v) => PropertyValue::List(copy_scalars(v)),
        }
    }
}

/// A copy of a property list.
pub fn copy_properties(v: &Vec<Property>) -> (r: Vec<Property>)
    ensures
        properties_model(r@) == properties_model(v@),
{
    let mut r: Vec<Property> = Vec::new();
    let mut i: usize = 0;
    while i < v.len()
        invariant
            i <= v.len(),
            r@.len() == i,
            forall|j: int| 0 <= j < i ==> (#[trigger] r@[j])@ == v@[j]@,
        decreases v.len() - i,
    {
        r.push(Property { key: v[i].key.clone(), value: v[i].value.duplicate() });
        i = i + 1;
    }
    assert(properties_model(r@) =~= properties_model(v@));
    r
}

/// Index of the first entry of `m` under `key`.
pub fn find_key(m: &Vec<Property>, key: &str) -> (r: Option<usize>)
    ensures
        match r {
            Some(i) => key_index(properties_model(m@), key@) == Some(i as int) && i < m@.len(),
            None => key_index(properties_model(m@), key@) is None,
        },
{
    reveal(key_index);
    let ghost pm = properties_model(m@);
    let mut i: usize = 0;
    while i < m.len()
        invariant
            i <= m.len(),
            pm == properties_model(m@),
            pm.len() == m@.len(),
            forall|j: int| 0 <= j < i ==> pm[j].0 != key@,
        decreases m.len() - i,
    {
        if same_text(m[i].key.as_str(), key) {
            proof {
                reveal(key_index);
                assert(pm[i as int].0 == key@);
                assert(0 <= i < pm.len() && pm[i as int].0 == key@ && forall|j: int| 0 <= j < i ==> pm[j].0 != key@);
                let c = choose|c: int|
                    0 <= c < pm.len() && pm[c].0 == key@ && forall|j: int| 0 <= j < c ==> pm[j].0 != key@;
                if c > i {
                    assert(pm[i as int].0 != key@);
                }
            }
            return Some(i);
        }
        i = i + 1;
    }
    None
}


/// Whether `l` holds a value equal to `s`.
fn list_contains(l: &Vec<Scalar>, s: &Scalar) -> (r: bool)
    ensures
        r == scalars_model(l@).contains(s@),
{
    let ghost lm = scalars_model(l@);
    let mut i: usize = 0;
    while i < l.len()
        invariant
            i <= l.len(),
            lm == scalars_model(l@),
            forall|j: int| 0 <= j < i ==> lm[j] != s@,
        decreases l.len() - i,
    {
        if l[i].same(s) {
            assert(lm[i as int] == s@);
            return true;
        }
        i = i + 1;
    }
    false
}

/// Adds `value` to the list under `key` unless the list holds it already.
pub fn insert_unique_value(merged: &mut Vec<Property>, key: &str, value: Scalar)
    ensures
        properties_model(final(merged)@) == insert_unique(
            properties_model(old(merged)@),
            key@,
            value@,
        ),
{
    reveal(insert_unique);
    let ghost m = properties_model(merged@);
    match find_key(merged, key) {
        None => {
            let mut l: Vec<Scalar> = Vec::new();
            let ghost v = value@;
            l.push(value);
            merged.push(Property { key: key.to_string(), value: PropertyValue::List(l) });
            assert(scalars_model(l@) =~= seq![v]);
            assert(properties_model(merged@) =~= m.push((key@, ValueModel::List(seq![v]))));
        },
        Some(i) => {
            let list = match &merged[i].value {
                PropertyValue::List(l) => {
                    if list_contains(l, &value) {
                        None
                    } else {
                        let mut grown = copy_scalars(l);
                        let ghost v = value@;
                        grown.push(value);
                        assert(scalars_model(grown@) =~= scalars_model(l@).push(v));
                        Some(grown)
                    }
                },
                _ => None,
            };
            if let Some(grown) = list {
                let ghost g = scalars_model(grown@);
                merged.set(i, Property { key: key.to_string(), value: PropertyValue::List(grown) });
                assert(properties_model(merged@) =~= m.update(i as int, (key@, ValueModel::List(g))));
            }
        },
    }
}

/// Adds `n` to the count under `key` (saturating), starting it at `n` when missing.
pub fn add_to_count(merged: &mut Vec<Property>, key: &str, n: u64)
    ensures
        properties_model(final(merged)@) == add_count(properties_model(old(merged)@), key@, n),
{
    reveal(add_count);
    let ghost m = properties_model(merged@);
    match find_key(merged, key) {
        None => {
            merged.push(Property { key: key.to_string(), value: PropertyValue::Number(n) });
            assert(properties_model(merged@) =~= m.push((key@, ValueModel::Number(n))));
        },
        Some(i) => {
            let count = match &merged[i].value {
                PropertyValue::Number(c) => Some(*c),
                _ => None,
            };
            if let Some(c) = count {
                merged.set(
                    i,
                    Property { key: key.to_string(), value: PropertyValue::Number(c.saturating_add(n)) },
                );
                assert(properties_model(merged@) =~= m.update(
                    i as int,
                    (key@, ValueModel::Number(c.saturating_add(n))),
                ));
            }
        },
    }
}

/// Folds one property entry into the merged record.
fn fold_property(merged: &mut Vec<Property>, entry: &Property)
    ensures
        properties_model(final(merged)@) == fold_entry(properties_model(old(merged)@), entry@),
{
    reveal(fold_entry);
    let key = entry.key.as_str();
    if same_text(key, "SourceFile") || same_text(key, "SourceFileDir") || same_text(
        key,
        "number_of_points",
    ) {
        return;
    }
    match &entry.value {
        PropertyValue::Text(t) => insert_unique_value(merged, key, Scalar::Text(t.clone())),
        PropertyValue::Number(_) => {},
        PropertyValue::List(items) => {
            let ghost start = properties_model(merged@);
            let ghost im = scalars_model(items@);
            let mut k: usize = 0;
            while k < items.len()
                invariant
                    k <= items.len(),
                    im == scalars_model(items@),
                    properties_model(merged@) == insert_all(start, key@, im.subrange(0, k as int)),
                decreases items.len() - k,
            {
                insert_unique_value(merged, key, items[k].duplicate());
                proof {
                    let next = im.subrange(0, k + 1);
                    assert(next.drop_last() =~= im.subrange(0, k as int));
                    assert(next.last() == im[k as int]);
                }
                k = k + 1;
            }
            assert(im.subrange(0, items.len() as int) =~= im);
        },
    }
}

/// The counting part of `fold_feature`: one more feature, and its point count.
#[verifier::opaque]
pub open spec fn count_feature(m: PropertiesModel, props: PropertiesModel) -> PropertiesModel {
    let counted = add_count(m, "number_of_features"@, 1);
    match lookup(props, "number_of_points"@) {
        Some(ValueModel::Number(n)) => add_count(counted, "number_of_points"@, n),
        _ => counted,
    }
}

fn count_feature_exec(merged: &mut Vec<Property>, props: &Vec<Property>)
    ensures
        properties_model(final(merged)@) == count_feature(
            properties_model(old(merged)@),
            properties_model(props@),
        ),
{
    reveal(count_feature);
    let ghost pm = properties_model(props@);
    add_to_count(merged, "number_of_features", 1);
    match find_key(props, "number_of_points") {
        Some(i) => {
            assert(pm[i as int].1 == props@[i as int].value@);
            if let PropertyValue::Number(n) = &props[i].value {
                add_to_count(merged, "number_of_points", *n);
            }
        },
        None => {},
    }
}

/// Folds the properties of one feature into the merged record.
pub fn fold_feature_properties(merged: &mut Vec<Property>, props: &Vec<Property>)
    ensures
        properties_model(final(merged)@) == fold_feature(
            properties_model(old(merged)@),
            properties_model(props@),
        ),
{
    let ghost pm = properties_model(props@);
    count_feature_exec(merged, props);
    let ghost start = properties_model(merged@);
    let mut k: usize = 0;
    while k < props.len()
        invariant
            k <= props.len(),
            pm == properties_model(props@),
            properties_model(merged@) == fold_entries(start, pm.subrange(0, k as int)),
        decreases props.len() - k,
    {
        fold_property(merged, &props[k]);
        proof {
            let next = pm.subrange(0, k + 1);
            assert(next.drop_last() =~= pm.subrange(0, k as int));
            assert(next.last() == pm[k as int]);
        }
        k = k + 1;
    }
    assert(pm.subrange(0, props.len() as int) =~= pm);
}


proof fn lemma_least_key(m: PropertiesModel, key: Seq<char>, i: int)
    requires
        0 <= i < m.len(),
        m[i].0 == key,
    ensures
        exists|c: int| 0 <= c < m.len() && m[c].0 == key && forall|j: int| 0 <= j < c ==> m[j].0 != key,
    decreases i,
{
    if exists|j: int| 0 <= j < i && m[j].0 == key {
        let j = choose|j: int| 0 <= j < i && m[j].0 == key;
        lemma_least_key(m, key, j);
    } else {
        assert(0 <= i < m.len() && m[i].0 == key && forall|j: int| 0 <= j < i ==> m[j].0 != key);
    }
}

/// What `key_index` returns, stated by cases.
pub proof fn lemma_key_index_facts(m: PropertiesModel, key: Seq<char>)
    ensures
        match key_index(m, key) {
            Some(i) => 0 <= i < m.len() && m[i].0 == key && forall|j: int| 0 <= j < i ==> m[j].0 != key,
            None => forall|j: int| 0 <= j < m.len() ==> m[j].0 != key,
        },
{
    reveal(key_index);
    if exists|i: int| 0 <= i < m.len() && m[i].0 == key {
        let i = choose|i: int| 0 <= i < m.len() && m[i].0 == key;
        lemma_least_key(m, key, i);
    }
}

/// The first index under `key` is `i`.
pub proof fn lemma_key_index_is(m: PropertiesModel, key: Seq<char>, i: int)
    requires
        0 <= i < m.len(),
        m[i].0 == key,
        forall|j: int| 0 <= j < i ==> m[j].0 != key,
    ensures
        key_index(m, key) == Some(i),
{
    reveal(key_index);
    let c = choose|c: int| 0 <= c < m.len() && m[c].0 == key && forall|j: int| 0 <= j < c ==> m[j].0 != key;
    if c < i {
        assert(m[c].0 != key);
    } else if c > i {
        assert(m[i].0 != key);
    }
}

/// Appending an entry keeps the first index of every key already present.
pub proof fn lemma_key_index_push(m: PropertiesModel, e: (Seq<char>, ValueModel), key: Seq<char>)
    ensures
        key_index(m.push(e), key) == match key_index(m, key) {
            Some(i) => Some(i),
            None => if e.0 == key {
                Some(m.len() as int)
            } else {
                None
            },
        },
{
    let n = m.push(e);
    lemma_key_index_facts(m, key);
    match key_index(m, key) {
        Some(i) => {
            assert(n[i] == m[i]);
            assert forall|j: int| 0 <= j < i implies n[j].0 != key by {
                assert(n[j] == m[j]);
            }
            lemma_key_index_is(n, key, i);
        },
        None => {
            if e.0 == key {
                assert forall|j: int| 0 <= j < m.len() implies n[j].0 != key by {
                    assert(n[j] == m[j]);
                }
                lemma_key_index_is(n, key, m.len() as int);
            } else {
                reveal(key_index);
                assert forall|j: int| 0 <= j < n.len() implies n[j].0 != key by {
                    if j < m.len() {
                        assert(n[j] == m[j]);
                    }
                }
            }
        },
    }
}

/// Replacing an entry by one under the same key keeps every first index.
pub proof fn lemma_key_index_update(m: PropertiesModel, i: int, e: (Seq<char>, ValueModel), key: Seq<char>)
    requires
        0 <= i < m.len(),
        e.0 == m[i].0,
    ensures
        key_index(m.update(i, e), key) == key_index(m, key),
{
    let n = m.update(i, e);
    lemma_key_index_facts(m, key);
    assert forall|j: int| 0 <= j < m.len() implies n[j].0 == m[j].0 by {}
    match key_index(m, key) {
        Some(k) => {
            lemma_key_index_is(n, key, k);
        },
        None => {
            reveal(key_index);
        },
    }
}

/// A count under `key` is kept by inserting a scalar under any key.
proof fn lemma_insert_keeps_count(m: PropertiesModel, k: Seq<char>, s: ScalarModel, key: Seq<char>, c: u64)
    requires
        lookup(m, key) == Some(ValueModel::Number(c)),
    ensures
        lookup(insert_unique(m, k, s), key) == Some(ValueModel::Number(c)),
{
    reveal(insert_unique);
    lemma_key_index_facts(m, key);
    lemma_key_index_facts(m, k);
    if k != key {
        match key_index(m, k) {
            None => {
                lemma_key_index_push(m, (k, ValueModel::List(seq![s])), key);
            },
            Some(i) => {
                match m[i].1 {
                    ValueModel::List(l) => {
                        if !l.contains(s) {
                            let e = (k, ValueModel::List(l.push(s)));
                            lemma_key_index_update(m, i, e, key);
                            let j = key_index(m, key)->0;
                            assert(j != i);
                            assert(m.update(i, e)[j] == m[j]);
                        }
                    },
                    _ => {},
                }
            },
        }
    }
}

proof fn lemma_insert_all_keeps_count(m: PropertiesModel, k: Seq<char>, items: Seq<ScalarModel>, key: Seq<char>, c: u64)
    requires
        lookup(m, key) == Some(ValueModel::Number(c)),
    ensures
        lookup(insert_all(m, k, items), key) == Some(ValueModel::Number(c)),
    decreases items.len(),
{
    if items.len() > 0 {
        lemma_insert_all_keeps_count(m, k, items.drop_last(), key, c);
        lemma_insert_keeps_count(insert_all(m, k, items.drop_last()), k, items.last(), key, c);
    }
}

/// A count is kept by folding the entries of a feature.
pub proof fn lemma_fold_entries_keeps_count(m: PropertiesModel, props: PropertiesModel, key: Seq<char>, c: u64)
    requires
        lookup(m, key) == Some(ValueModel::Number(c)),
    ensures
        lookup(fold_entries(m, props), key) == Some(ValueModel::Number(c)),
    decreases props.len(),
{
    if props.len() > 0 {
        lemma_fold_entries_keeps_count(m, props.drop_last(), key, c);
        let before = fold_entries(m, props.drop_last());
        let entry = props.last();
        reveal(fold_entry);
        if is_folded_key(entry.0) {
            match entry.1 {
                ValueModel::Text(t) => lemma_insert_keeps_count(before, entry.0, ScalarModel::Text(t), key, c),
                ValueModel::Number(_) => {},
                ValueModel::List(items) => lemma_insert_all_keeps_count(before, entry.0, items, key, c),
            }
        }
    }
}

/// What `add_count` does to the value under its own key, and that other keys keep theirs.
pub proof fn lemma_add_count(m: PropertiesModel, key: Seq<char>, n: u64, other: Seq<char>)
    requires
        lookup(m, key) is None || lookup(m, key) matches Some(ValueModel::Number(_)),
        other != key,
    ensures
        lookup(add_count(m, key, n), key) == Some(ValueModel::Number(
            match lookup(m, key) {
                Some(ValueModel::Number(c)) => c.saturating_add(n),
                _ => n,
            },
        )),
        lookup(add_count(m, key, n), other) == lookup(m, other),
{
    reveal(add_count);
    lemma_key_index_facts(m, key);
    lemma_key_index_facts(m, other);
    match key_index(m, key) {
        None => {
            let e = (key, ValueModel::Number(n));
            lemma_key_index_push(m, e, key);
            lemma_key_index_push(m, e, other);
            match key_index(m, other) {
                Some(j) => assert(m.push(e)[j] == m[j]),
                None => {},
            }
        },
        Some(i) => {
            let c = match m[i].1 {
                ValueModel::Number(c) => c,
                _ => 0,
            };
            let e = (key, ValueModel::Number(c.saturating_add(n)));
            lemma_key_index_update(m, i, e, key);
            lemma_key_index_update(m, i, e, other);
            match key_index(m, other) {
                Some(j) => {
                    assert(j != i);
                    assert(m.update(i, e)[j] == m[j]);
                },
                None => {},
            }
        },
    }
}

} // verus!
