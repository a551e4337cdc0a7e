//! Sorted-dictionary operations. A dictionary is a vector of entries kept
//! strictly sorted by the canonical key order; `dict_insert` is the one way
//! to build one, and inserting an already-present key replaces its value,
//! as a map insert would.

use crate::codec::order::{
    lemma_cmp_key_antisym, lemma_cmp_key_eq, lemma_cmp_key_trans, compare_key, spec_cmp_key,
};
use crate::codec::types::{
    dict_entries_model, dict_model_sorted, lemma_dict_entries_model, BencodexDictionary,
    BencodexKey, BencodexValue, KeyModel, ValueModel,
};
use core::cmp::Ordering;
use vstd::prelude::*;

verus! {

/// Whether the model dictionary has an entry under the key `k`.
pub open spec fn spec_dict_contains(es: Seq<(KeyModel, ValueModel)>, k: KeyModel) -> bool {
    exists|i: int| 0 <= i < es.len() && es[i].0 == k
}

/// Insertion into a model dictionary sorted by the canonical key order:
/// the new entry lands at its sorted position, and replaces the entry of
/// an equal key.
pub open spec fn spec_dict_insert(
    es: Seq<(KeyModel, ValueModel)>,
    k: KeyModel,
    v: ValueModel,
) -> Seq<(KeyModel, ValueModel)>
    decreases es.len(),
{
    if es.len() == 0 {
        seq![(k, v)]
    } else if spec_cmp_key(es[0].0, k) == Ordering::Less {
        seq![es[0]].add(spec_dict_insert(es.drop_first(), k, v))
    } else if spec_cmp_key(es[0].0, k) == Ordering::Equal {
        seq![(k, v)].add(es.drop_first())
    } else {
        seq![(k, v)].add(es)
    }
}

/// Every key of an inserted dictionary is the inserted key or one of the
/// keys already present.
pub proof fn lemma_dict_insert_keys(es: Seq<(KeyModel, ValueModel)>, k: KeyModel, v: ValueModel)
    ensures
        forall|j: int|
            0 <= j < spec_dict_insert(es, k, v).len() ==> (#[trigger] spec_dict_insert(es, k, v)[j].0
                == k || exists|i: int| 0 <= i < es.len() && es[i].0 == spec_dict_insert(es, k, v)[j].0),
    decreases es.len(),
{
    let r = spec_dict_insert(es, k, v);
    if es.len() == 0 {
    } else if spec_cmp_key(es[0].0, k) == Ordering::Less {
        lemma_dict_insert_keys(es.drop_first(), k, v);
        let rr = spec_dict_insert(es.drop_first(), k, v);
        assert forall|j: int| 0 <= j < r.len() implies (#[trigger] r[j].0 == k || exists|i: int|
            0 <= i < es.len() && es[i].0 == r[j].0) by {
            if j == 0 {
                assert(es[0].0 == r[j].0);
            } else {
                assert(r[j] == rr[j - 1]);
                if rr[j - 1].0 != k {
                    let i = choose|i: int|
                        0 <= i < es.drop_first().len() && es.drop_first()[i].0 == rr[j - 1].0;
                    assert(es[i + 1].0 == r[j].0);
                }
            }
        }
    } else if spec_cmp_key(es[0].0, k) == Ordering::Equal {
        assert forall|j: int| 0 <= j < r.len() implies (#[trigger] r[j].0 == k || exists|i: int|
            0 <= i < es.len() && es[i].0 == r[j].0) by {
            if j > 0 {
                assert(es[j] == r[j]);
            }
        }
    } else {
        assert forall|j: int| 0 <= j < r.len() implies (#[trigger] r[j].0 == k || exists|i: int|
            0 <= i < es.len() && es[i].0 == r[j].0) by {
            if j > 0 {
                assert(es[j - 1] == r[j]);
            }
        }
    }
}

/// Insertion keeps a dictionary strictly sorted.
pub proof fn lemma_dict_insert_sorted(es: Seq<(KeyModel, ValueModel)>, k: KeyModel, v: ValueModel)
    requires
        dict_model_sorted(es),
    ensures
        dict_model_sorted(spec_dict_insert(es, k, v)),
    decreases es.len(),
{
    let r = spec_dict_insert(es, k, v);
    if es.len() == 0 {
    } else if spec_cmp_key(es[0].0, k) == Ordering::Less {
        let rest = es.drop_first();
        assert forall|i: int, j: int| 0 <= i < j < rest.len() implies spec_cmp_key(
            #[trigger] rest[i].0,
            #[trigger] rest[j].0,
        ) == Ordering::Less by {
            assert(rest[i] == es[i + 1] && rest[j] == es[j + 1]);
        }
        lemma_dict_insert_sorted(rest, k, v);
        lemma_dict_insert_keys(rest, k, v);
        let rr = spec_dict_insert(rest, k, v);
        assert forall|i: int, j: int| 0 <= i < j < r.len() implies spec_cmp_key(
            #[trigger] r[i].0,
            #[trigger] r[j].0,
        ) == Ordering::Less by {
            if i == 0 {
                assert(r[j] == rr[j - 1]);
                if rr[j - 1].0 == k {
                } else {
                    let m = choose|m: int| 0 <= m < rest.len() && rest[m].0 == rr[j - 1].0;
                    assert(rest[m] == es[m + 1]);
                    assert(spec_cmp_key(es[0].0, es[m + 1].0) == Ordering::Less);
                }
            } else {
                assert(r[i] == rr[i - 1] && r[j] == rr[j - 1]);
            }
        }
    } else if spec_cmp_key(es[0].0, k) == Ordering::Equal {
        lemma_cmp_key_eq(es[0].0, k);
        assert forall|i: int, j: int| 0 <= i < j < r.len() implies spec_cmp_key(
            #[trigger] r[i].0,
            #[trigger] r[j].0,
        ) == Ordering::Less by {
            if i == 0 {
                assert(r[j] == es[j]);
                assert(spec_cmp_key(es[0].0, es[j].0) == Ordering::Less);
            } else {
                assert(r[i] == es[i] && r[j] == es[j]);
            }
        }
    } else {
        lemma_cmp_key_antisym(es[0].0, k);
        assert forall|i: int, j: int| 0 <= i < j < r.len() implies spec_cmp_key(
            #[trigger] r[i].0,
            #[trigger] r[j].0,
        ) == Ordering::Less by {
            if i == 0 {
                assert(r[j] == es[j - 1]);
                if j == 1 {
                } else {
                    assert(spec_cmp_key(k, es[0].0) == Ordering::Less);
                    assert(spec_cmp_key(es[0].0, es[j - 1].0) == Ordering::Less);
                    lemma_cmp_key_trans(k, es[0].0, es[j - 1].0);
                }
            } else {
                assert(r[i] == es[i - 1] && r[j] == es[j - 1]);
            }
        }
    }
}

/// Inserting under a key greater than every present key appends the entry.
pub proof fn lemma_dict_insert_append(es: Seq<(KeyModel, ValueModel)>, k: KeyModel, v: ValueModel)
    requires
        forall|i: int| 0 <= i < es.len() ==> spec_cmp_key(#[trigger] es[i].0, k) == Ordering::Less,
    ensures
        spec_dict_insert(es, k, v) == es.push((k, v)),
    decreases es.len(),
{
    if es.len() == 0 {
        assert(spec_dict_insert(es, k, v) =~= es.push((k, v)));
    } else {
        let rest = es.drop_first();
        assert forall|i: int| 0 <= i < rest.len() implies spec_cmp_key(
            #[trigger] rest[i].0,
            k,
        ) == Ordering::Less by {
            assert(rest[i] == es[i + 1]);
        }
        lemma_dict_insert_append(rest, k, v);
        assert(spec_dict_insert(es, k, v) =~= es.push((k, v)));
    }
}

/// Inserts an entry into a dictionary, keeping the entries sorted in the
/// canonical key order. Returns the value previously stored under the key,
/// if there was one.
pub fn dict_insert(
    dict: &mut BencodexDictionary,
    key: BencodexKey,
    value: BencodexValue,
) -> (replaced: Option<BencodexValue>)
    requires
        dict_model_sorted(dict_entries_model(old(dict)@)),
    ensures
        dict_entries_model(final(dict)@) == spec_dict_insert(
            dict_entries_model(old(dict)@),
            key@,
            value@,
        ),
        replaced is Some <==> spec_dict_contains(dict_entries_model(old(dict)@), key@),
        dict_model_sorted(dict_entries_model(final(dict)@)),
        forall|j: int|
            #![trigger final(dict)@[j]]
            0 <= j < final(dict)@.len() ==> (final(dict)@[j].1 == value || exists|i: int|
                0 <= i < old(dict)@.len() && old(dict)@[i].1 == final(dict)@[j].1),
{
    let ghost es = dict_entries_model(old(dict)@);
    proof {
        lemma_dict_entries_model(dict@);
    }
    let n = dict.len();
    let mut i: usize = 0;
    while i < n
        invariant
            0 <= i <= n,
            n == dict@.len(),
            dict == old(dict),
            es == dict_entries_model(dict@),
            dict_model_sorted(es),
            es.len() == n,
            forall|j: int| 0 <= j < es.len() ==> #[trigger] es[j] == (dict@[j].0@, dict@[j].1@),
            forall|j: int| 0 <= j < i ==> spec_cmp_key(#[trigger] es[j].0, key@) == Ordering::Less,
        ensures
            0 <= i <= n,
            dict == old(dict),
            i == n || spec_cmp_key(es[i as int].0, key@) == Ordering::Greater,
            forall|j: int| 0 <= j < i ==> spec_cmp_key(#[trigger] es[j].0, key@) == Ordering::Less,
        decreases n - i,
    {
        let c = compare_key(&dict[i].0, &key);
        match c {
            Ordering::Less => {
                i = i + 1;
            },
            Ordering::Equal => {
                proof {
                    lemma_dict_insert_position(es, key@, value@, i as int);
                    lemma_cmp_key_eq(es[i as int].0, key@);
                    lemma_dict_insert_sorted(es, key@, value@);
                }
                let old_entry = dict.remove(i);
                dict.insert(i, (key, value));
                proof {
                    lemma_dict_entries_model(dict@);
                    assert(dict_entries_model(dict@) =~= spec_dict_insert(es, key@, value@));
                    assert forall|j: int| 0 <= j < dict@.len() implies (
                    #[trigger] dict@[j].1 == value || exists|m: int|
                        0 <= m < old(dict)@.len() && old(dict)@[m].1 == dict@[j].1) by {
                        if j < i {
                            assert(old(dict)@[j].1 == dict@[j].1);
                        } else if j > i {
                            assert(old(dict)@[j].1 == dict@[j].1);
                        }
                    }
                }
                return Some(old_entry.1);
            },
            Ordering::Greater => {
                break ;
            },
        }
    }
    proof {
        lemma_dict_insert_position(es, key@, value@, i as int);
        lemma_dict_insert_sorted(es, key@, value@);
        lemma_cmp_key_eq(es[i as int].0, key@);
        if spec_dict_contains(es, key@) {
            let m = choose|m: int| 0 <= m < es.len() && es[m].0 == key@;
            lemma_cmp_key_eq(es[m].0, key@);
            if m < i {
                assert(spec_cmp_key(es[m].0, key@) == Ordering::Less);
                assert(false);
            } else if m > i {
                assert(spec_cmp_key(es[i as int].0, es[m].0) == Ordering::Less);
                lemma_cmp_key_antisym(es[i as int].0, key@);
                lemma_cmp_key_trans(key@, es[i as int].0, es[m].0);
                lemma_cmp_key_eq(key@, es[m].0);
                assert(false);
            } else {
                assert(false);
            }
        }
    }
    dict.insert(i, (key, value));
    proof {
        lemma_dict_entries_model(dict@);
        assert(dict_entries_model(dict@) =~= spec_dict_insert(es, key@, value@));
        assert forall|j: int| 0 <= j < dict@.len() implies (#[trigger] dict@[j].1 == value
            || exists|m: int| 0 <= m < old(dict)@.len() && old(dict)@[m].1 == dict@[j].1) by {
            if j < i {
                assert(old(dict)@[j].1 == dict@[j].1);
            } else if j > i {
                assert(old(dict)@[j - 1].1 == dict@[j].1);
            }
        }
    }
    None
}

/// When the first `i` keys are less than `k` and the key at `i` (if any)
/// is not, insertion lands exactly at position `i`.
proof fn lemma_dict_insert_position(
    es: Seq<(KeyModel, ValueModel)>,
    k: KeyModel,
    v: ValueModel,
    i: int,
)
    requires
        0 <= i <= es.len(),
        forall|j: int| 0 <= j < i ==> spec_cmp_key(#[trigger] es[j].0, k) == Ordering::Less,
        i < es.len() ==> spec_cmp_key(es[i].0, k) != Ordering::Less,
    ensures
        i < es.len() && spec_cmp_key(es[i].0, k) == Ordering::Equal ==> spec_dict_insert(es, k, v)
            =~= es.subrange(0, i).add(seq![(k, v)]).add(es.subrange(i + 1, es.len() as int)),
        !(i < es.len() && spec_cmp_key(es[i].0, k) == Ordering::Equal) ==> spec_dict_insert(
            es,
            k,
            v,
        ) =~= es.subrange(0, i).add(seq![(k, v)]).add(es.subrange(i, es.len() as int)),
    decreases i,
{
    if i == 0 {
    } else {
        let rest = es.drop_first();
        assert forall|j: int| 0 <= j < i - 1 implies spec_cmp_key(
            #[trigger] rest[j].0,
            k,
        ) == Ordering::Less by {
            assert(rest[j] == es[j + 1]);
        }
        assert(i - 1 < rest.len() ==> rest[i - 1] == es[i]);
        lemma_dict_insert_position(rest, k, v, i - 1);
        assert(spec_cmp_key(es[0].0, k) == Ordering::Less);
        assert(spec_dict_insert(es, k, v) == seq![es[0]].add(spec_dict_insert(rest, k, v)));
    }
}

} // verus!
