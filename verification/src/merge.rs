//! Deep merge of tree-shaped values: objects are merged key by key, anything
//! else is replaced by what stands on the right, and a null on the right
//! changes nothing.

use vstd::prelude::*;

verus! {

/// A tree-shaped value. A scalar is held as its text.
#[derive(Debug, PartialEq, Eq)]
pub enum Json {
    Null,
    Scalar(String),
    Array(Vec<Json>),
    Object(Vec<(String, Json)>),
}

/// What a value says: the same tree over sequences.
pub ghost enum JsonModel {
    Null,
    Scalar(Seq<char>),
    Array(Seq<JsonModel>),
    Object(Seq<(Seq<char>, JsonModel)>),
}

/// The first `n` items of an array, as models.
pub open spec fn items_model(items: Seq<Json>, n: nat) -> Seq<JsonModel>
    decreases items, n,
{
    if n == 0 || n > items.len() {
        Seq::empty()
    } else {
        items_model(items, (n - 1) as nat).push(json_model(items[n - 1]))
    }
}

/// The first `n` entries of an object, as models.
pub open spec fn entries_model(entries: Seq<(String, Json)>, n: nat) -> Seq<(Seq<char>, JsonModel)>
    decreases entries, n,
{
    if n == 0 || n > entries.len() {
        Seq::empty()
    } else {
        entries_model(entries, (n - 1) as nat).push(
            (entries[n - 1].0@, json_model(entries[n - 1].1)),
        )
    }
}

/// The model of a value.
pub open spec fn json_model(value: Json) -> JsonModel
    decreases value,
{
    match value {
        Json::Null => JsonModel::Null,
        Json::Scalar(text) => JsonModel::Scalar(text@),
        Json::Array(items) => JsonModel::Array(items_model(items@, items@.len())),
        Json::Object(entries) => JsonModel::Object(entries_model(entries@, entries@.len())),
    }
}

impl View for Json {
    type V = JsonModel;

    open spec fn view(&self) -> JsonModel {
        json_model(*self)
    }
}

/// The place of the first entry with the key, if there is one.
pub open spec fn key_index(entries: Seq<(Seq<char>, JsonModel)>, key: Seq<char>) -> Option<int>
    decreases entries.len(),
{
    if entries.len() == 0 {
        None
    } else {
        match key_index(entries.drop_last(), key) {
            Some(i) => Some(i),
            None => if entries.last().0 == key {
                Some(entries.len() - 1)
            } else {
                None
            },
        }
    }
}

/// The entries `left` with the entries of `right` from place `from` on merged
/// in, the last of them first: an entry whose key `left` has is combined with
/// the value there, and one with a new key is put at the end.
pub open spec fn merged(
    left: Seq<(Seq<char>, JsonModel)>,
    right: Seq<(Seq<char>, JsonModel)>,
    from: nat,
) -> Seq<(Seq<char>, JsonModel)>
    decreases right, right.len() - from,
{
    if from >= right.len() {
        left
    } else {
        let sofar = merged(left, right, from + 1);
        let key = right[from as int].0;
        match key_index(sofar, key) {
            Some(i) => sofar.update(i, (key, combined(sofar[i].1, right[from as int].1))),
            None => sofar.push(right[from as int]),
        }
    }
}

/// The merge of two values. A null on the right leaves the left value; two
/// objects are merged key by key; in every other case the right value wins.
pub open spec fn combined(a: JsonModel, b: JsonModel) -> JsonModel
    decreases b,
{
    match b {
        JsonModel::Null => a,
        JsonModel::Object(right) => match a {
            JsonModel::Object(left) => JsonModel::Object(merged(left, right, 0)),
            _ => b,
        },
        _ => b,
    }
}

/// Whether no two entries have one key.
pub open spec fn unique_keys(entries: Seq<(Seq<char>, JsonModel)>) -> bool {
    forall|i: int, j: int|
        0 <= i < j < entries.len() ==> (#[trigger] entries[i]).0 != (#[trigger] entries[j]).0
}

/// Whether some entry has the key.
pub open spec fn has_key(entries: Seq<(Seq<char>, JsonModel)>, key: Seq<char>) -> bool {
    exists|i: int| 0 <= i < entries.len() && (#[trigger] entries[i]).0 == key
}

/// `key_index` finds the first entry with the key, and none only where no
/// entry has it.
pub proof fn lemma_key_index(entries: Seq<(Seq<char>, JsonModel)>, key: Seq<char>)
    ensures
        match key_index(entries, key) {
            Some(i) => 0 <= i < entries.len() && entries[i].0 == key,
            None => !has_key(entries, key),
        },
    decreases entries.len(),
{
    if entries.len() > 0 {
        lemma_key_index(entries.drop_last(), key);
        if key_index(entries, key) is None {
            assert forall|i: int| 0 <= i < entries.len() implies (#[trigger] entries[i]).0
                != key by {
                if i < entries.len() - 1 {
                    assert(entries.drop_last()[i].0 != key);
                }
            }
        } else if key_index(entries.drop_last(), key) is Some {
            let i = key_index(entries.drop_last(), key)->0;
            assert(entries.drop_last()[i] == entries[i]);
        }
    }
}

/// Merging keeps the keys apart, and the merged entries have the keys of
/// `left` and those of `right` from `from` on, and no others.
pub proof fn lemma_merged_keys(
    left: Seq<(Seq<char>, JsonModel)>,
    right: Seq<(Seq<char>, JsonModel)>,
    from: nat,
)
    ensures
        unique_keys(left) ==> unique_keys(merged(left, right, from)),
        forall|key: Seq<char>| #[trigger]
            has_key(merged(left, right, from), key) <==> has_key(left, key) || exists|j: int|
                from <= j < right.len() && (#[trigger] right[j]).0 == key,
    decreases right.len() - from,
{
    if from < right.len() {
        lemma_merged_keys(left, right, from + 1);
        let sofar = merged(left, right, from + 1);
        let out = merged(left, right, from);
        let added = right[from as int];
        lemma_key_index(sofar, added.0);
        match key_index(sofar, added.0) {
            Some(i) => {
                assert forall|k: int| 0 <= k < out.len() implies (#[trigger] out[k]).0
                    == sofar[k].0 by {}
                if unique_keys(left) {
                    assert forall|a: int, b: int| 0 <= a < b < out.len() implies (#[trigger] out[a]).0
                        != (#[trigger] out[b]).0 by {
                        assert(sofar[a].0 != sofar[b].0);
                    }
                }
                assert forall|key: Seq<char>| #[trigger]
                    has_key(out, key) <==> has_key(sofar, key) by {
                    if has_key(out, key) {
                        let w = choose|w: int| 0 <= w < out.len() && (#[trigger] out[w]).0 == key;
                        assert(sofar[w].0 == key);
                    }
                    if has_key(sofar, key) {
                        let w = choose|w: int|
                            0 <= w < sofar.len() && (#[trigger] sofar[w]).0 == key;
                        assert(out[w].0 == key);
                    }
                }
                assert(has_key(sofar, added.0)) by {
                    assert(sofar[i].0 == added.0);
                }
            },
            None => {
                if unique_keys(left) {
                    assert forall|a: int, b: int| 0 <= a < b < out.len() implies (#[trigger] out[a]).0
                        != (#[trigger] out[b]).0 by {
                        if b < sofar.len() {
                            assert(sofar[a].0 != sofar[b].0);
                        } else {
                            assert(sofar[a].0 != added.0);
                        }
                    }
                }
                assert forall|key: Seq<char>| #[trigger]
                    has_key(out, key) <==> has_key(sofar, key) || key == added.0 by {
                    if has_key(out, key) {
                        let w = choose|w: int| 0 <= w < out.len() && (#[trigger] out[w]).0 == key;
                        if w < sofar.len() {
                            assert(sofar[w].0 == key);
                        }
                    }
                    if has_key(sofar, key) {
                        let w = choose|w: int|
                            0 <= w < sofar.len() && (#[trigger] sofar[w]).0 == key;
                        assert(out[w].0 == key);
                    }
                    if key == added.0 {
                        assert(out[out.len() - 1].0 == key);
                    }
                }
            },
        }
        assert forall|key: Seq<char>| #[trigger]
            has_key(out, key) <==> has_key(left, key) || exists|j: int|
                from <= j < right.len() && (#[trigger] right[j]).0 == key by {
            let later = exists|j: int| from + 1 <= j < right.len() && (#[trigger] right[j]).0 == key;
            let here = exists|j: int| from <= j < right.len() && (#[trigger] right[j]).0 == key;
            assert(has_key(sofar, key) <==> has_key(left, key) || later);
            if later {
                let j = choose|j: int| from + 1 <= j < right.len() && (#[trigger] right[j]).0 == key;
                assert(from <= j < right.len() && right[j].0 == key);
            }
            if key == added.0 {
                assert(right[from as int].0 == key);
            }
            if here && !later {
                let j = choose|j: int| from <= j < right.len() && (#[trigger] right[j]).0 == key;
                assert(j == from);
            }
        }
    }
}

/// The entries of an object, as models.
pub open spec fn entry_models(entries: Seq<(String, Json)>) -> Seq<(Seq<char>, JsonModel)> {
    entries_model(entries, entries.len())
}

/// The model of the first `n` entries holds the model of each, in order.
pub proof fn lemma_entries_model(entries: Seq<(String, Json)>, n: nat)
    requires
        n <= entries.len(),
    ensures
        entries_model(entries, n).len() == n,
        forall|i: int|
            0 <= i < n ==> #[trigger] entries_model(entries, n)[i] == (
                entries[i].0@,
                json_model(entries[i].1),
            ),
    decreases n,
{
    if n > 0 {
        lemma_entries_model(entries, (n - 1) as nat);
    }
}

/// The model of the first `n` items holds the model of each, in order.
pub proof fn lemma_items_model(items: Seq<Json>, n: nat)
    requires
        n <= items.len(),
    ensures
        items_model(items, n).len() == n,
        forall|i: int| 0 <= i < n ==> #[trigger] items_model(items, n)[i] == json_model(items[i]),
    decreases n,
{
    if n > 0 {
        lemma_items_model(items, (n - 1) as nat);
    }
}

/// The place of the first entry of `entries` with the key, if there is one.
pub fn find_key(entries: &Vec<(String, Json)>, key: &String) -> (r: Option<usize>)
    ensures
        r is Some == key_index(entry_models(entries@), key@) is Some,
        r matches Some(i) ==> i < entries@.len() && key_index(entry_models(entries@), key@)
            == Some(i as int),
{
    let ghost models = entry_models(entries@);
    proof {
        lemma_entries_model(entries@, entries@.len());
        assert(models.take(0).len() == 0);
    }
    let mut i: usize = 0;
    while i < entries.len()
        invariant
            i <= entries@.len(),
            models == entry_models(entries@),
            models.len() == entries@.len(),
            forall|k: int| 0 <= k < models.len() ==> (#[trigger] models[k]).0 == entries@[k].0@,
            key_index(models.take(i as int), key@) is None,
        decreases entries@.len() - i,
    {
        proof {
            assert(models.take(i + 1).drop_last() == models.take(i as int));
            assert(models.take(i + 1).last() == models[i as int]);
        }
        if entries[i].0 == *key {
            proof {
                lemma_key_index_prefix(models, key@, i + 1);
            }
            return Some(i);
        }
        i += 1;
    }
    assert(models.take(i as int) == models);
    None
}

/// A key found in a prefix of the entries is found at the same place in all.
pub proof fn lemma_key_index_prefix(
    entries: Seq<(Seq<char>, JsonModel)>,
    key: Seq<char>,
    n: int,
)
    requires
        0 <= n <= entries.len(),
        key_index(entries.take(n), key) is Some,
    ensures
        key_index(entries, key) == key_index(entries.take(n), key),
    decreases entries.len(),
{
    if n == entries.len() {
        assert(entries.take(n) == entries);
    } else {
        assert(entries.drop_last().take(n) == entries.take(n));
        lemma_key_index_prefix(entries.drop_last(), key, n);
    }
}

/// Merges the entries of `right` into `left`, the last of them first.
pub fn merge_entries(left: Vec<(String, Json)>, right: Vec<(String, Json)>) -> (out: Vec<
    (String, Json),
>)
    ensures
        entry_models(out@) == merged(entry_models(left@), entry_models(right@), 0),
    decreases right,
{
    let ghost lm = entry_models(left@);
    let ghost rm = entry_models(right@);
    let ghost all = right@;
    let mut out = left;
    let mut rest = right;
    proof {
        lemma_entries_model(all, all.len());
    }
    while rest.len() > 0
        invariant
            rest@.len() <= all.len(),
            rest@ == all.take(rest@.len() as int),
            all == right@,
            rm == entry_models(all),
            rm.len() == all.len(),
            entry_models(out@) == merged(lm, rm, rest@.len()),
        decreases rest@.len(),
    {
        let ghost n = (rest@.len() - 1) as int;
        let ghost before = out@;
        let (key, value) = rest.pop().unwrap();
        proof {
            assert((key, value) == all[n]);
            lemma_entries_model(all, all.len());
            assert(rm[n] == (key@, value@));
            lemma_entries_model(before, before.len());
            assert(rest@ =~= all.take(n));
        }
        match find_key(&out, &key) {
            Some(i) => {
                let (_, current) = out.remove(i);
                assert(current == before[i as int].1);
                let value = current.combine(value);
                out.insert(i, (key, value));
                proof {
                    lemma_entries_model(out@, out@.len());
                    assert(entry_models(out@) =~= entry_models(before).update(
                        i as int,
                        (key@, value@),
                    ));
                }
            },
            None => {
                out.push((key, value));
                proof {
                    lemma_entries_model(out@, out@.len());
                    assert(entry_models(out@) =~= entry_models(before).push((key@, value@)));
                }
            },
        }
    }
    out
}

impl Json {
    /// A copy of the value.
    pub fn duplicate(&self) -> (r: Json)
        ensures
            r@ == self@,
        decreases self,
    {
        match self {
            Json::Null => Json::Null,
            Json::Scalar(text) => Json::Scalar(text.clone()),
            Json::Array(items) => {
                let mut out: Vec<Json> = Vec::new();
                let mut i: usize = 0;
                while i < items.len()
                    invariant
                        decreases_to!(*self => *items),
                        i <= items@.len(),
                        out@.len() == i,
                        forall|k: int|
                            0 <= k < i ==> json_model(#[trigger] out@[k]) == json_model(items@[k]),
                    decreases items@.len() - i,
                {
                    out.push(items[i].duplicate());
                    i += 1;
                }
                proof {
                    lemma_items_model(items@, items@.len());
                    lemma_items_model(out@, out@.len());
                    assert(items_model(out@, out@.len()) =~= items_model(items@, items@.len()));
                }
                Json::Array(out)
            },
            Json::Object(entries) => {
                let mut out: Vec<(String, Json)> = Vec::new();
                let mut i: usize = 0;
                while i < entries.len()
                    invariant
                        decreases_to!(*self => *entries),
                        i <= entries@.len(),
                        out@.len() == i,
                        forall|k: int|
                            0 <= k < i ==> (#[trigger] out@[k]).0@ == entries@[k].0@ && json_model(
                                out@[k].1,
                            ) == json_model(entries@[k].1),
                    decreases entries@.len() - i,
                {
                    let entry = &entries[i];
                    out.push((entry.0.clone(), entry.1.duplicate()));
                    i += 1;
                }
                proof {
                    lemma_entries_model(entries@, entries@.len());
                    lemma_entries_model(out@, out@.len());
                    assert(entry_models(out@) =~= entry_models(entries@));
                }
                Json::Object(out)
            },
        }
    }
}

/// Values that can be merged with another of their kind.
pub trait Combine: View + Sized {
    /// What merging `b` into `a` gives.
    spec fn combination(a: Self::V, b: Self::V) -> Self::V;

    /// Merges `other` into this value.
    fn combine(self, other: Self) -> (r: Self)
        ensures
            r@ == Self::combination(self@, other@),
    ;
}

impl Combine for Json {
    open spec fn combination(a: JsonModel, b: JsonModel) -> JsonModel {
        combined(a, b)
    }

    /// Merges `other` into this value. A null `other` leaves this value as it
    /// is; two objects are merged key by key, values under one key being
    /// combined in turn; in every other case the result is `other`.
    fn combine(self, other: Json) -> (r: Json)
        decreases other,
    {
        match other {
            Json::Null => self,
            Json::Scalar(text) => Json::Scalar(text),
            Json::Array(items) => Json::Array(items),
            Json::Object(right) => match self {
                Json::Object(left) => Json::Object(merge_entries(left, right)),
                _ => Json::Object(right),
            },
        }
    }
}

} // verus!
