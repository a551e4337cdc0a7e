//! The canonical total order over dictionary keys: a `Binary` key sorts
//! before every `Text` key, and keys of one kind compare by byte-wise
//! lexicographic order of their raw bytes (for text, of their UTF-8
//! encoding). Both the encoder and the dictionary representation use this
//! one comparator.

use crate::codec::types::{BencodexKey, KeyModel};
use core::cmp::Ordering;
use vstd::prelude::*;
use vstd::utf8::encode_utf8;

verus! {

/// Three-way byte-wise lexicographic comparison: a strict prefix is less
/// than the longer sequence.
pub open spec fn spec_cmp_bytes(x: Seq<u8>, y: Seq<u8>) -> Ordering
    decreases x.len(),
{
    if x.len() == 0 && y.len() == 0 {
        Ordering::Equal
    } else if x.len() == 0 {
        Ordering::Less
    } else if y.len() == 0 {
        Ordering::Greater
    } else if x[0] < y[0] {
        Ordering::Less
    } else if x[0] > y[0] {
        Ordering::Greater
    } else {
        spec_cmp_bytes(x.drop_first(), y.drop_first())
    }
}

/// The bytes a key compares by: the raw bytes of a binary key, the UTF-8
/// encoding of a text key.
pub open spec fn key_model_bytes(k: KeyModel) -> Seq<u8> {
    match k {
        KeyModel::Binary(b) => b,
        KeyModel::Text(t) => encode_utf8(t),
    }
}

/// The canonical three-way order over keys.
pub open spec fn spec_cmp_key(x: KeyModel, y: KeyModel) -> Ordering {
    match (x, y) {
        (KeyModel::Binary(_), KeyModel::Text(_)) => Ordering::Less,
        (KeyModel::Text(_), KeyModel::Binary(_)) => Ordering::Greater,
        _ => spec_cmp_bytes(key_model_bytes(x), key_model_bytes(y)),
    }
}

/// Byte comparison returns `Equal` exactly on equal sequences.
pub proof fn lemma_cmp_bytes_eq(x: Seq<u8>, y: Seq<u8>)
    ensures
        spec_cmp_bytes(x, y) == Ordering::Equal <==> x == y,
    decreases x.len(),
{
    if x.len() > 0 && y.len() > 0 && x[0] == y[0] {
        lemma_cmp_bytes_eq(x.drop_first(), y.drop_first());
        if spec_cmp_bytes(x, y) == Ordering::Equal {
            assert(x =~= seq![x[0]].add(x.drop_first()));
            assert(y =~= seq![y[0]].add(y.drop_first()));
        }
        if x == y {
            assert(x.drop_first() =~= y.drop_first());
        }
    } else {
        if x.len() == 0 && y.len() == 0 {
            assert(x =~= y);
        }
        if x == y {
            assert(x.len() == y.len());
            if x.len() > 0 {
                assert(x[0] == y[0]);
            }
        }
    }
}

/// Byte comparison is antisymmetric: swapping the arguments swaps
/// `Less` and `Greater`.
pub proof fn lemma_cmp_bytes_antisym(x: Seq<u8>, y: Seq<u8>)
    ensures
        spec_cmp_bytes(x, y) == Ordering::Less <==> spec_cmp_bytes(y, x) == Ordering::Greater,
        spec_cmp_bytes(x, y) == Ordering::Equal <==> spec_cmp_bytes(y, x) == Ordering::Equal,
    decreases x.len(),
{
    if x.len() > 0 && y.len() > 0 && x[0] == y[0] {
        lemma_cmp_bytes_antisym(x.drop_first(), y.drop_first());
    }
}

/// Byte comparison is transitive in `Less`.
pub proof fn lemma_cmp_bytes_trans(x: Seq<u8>, y: Seq<u8>, z: Seq<u8>)
    requires
        spec_cmp_bytes(x, y) == Ordering::Less,
        spec_cmp_bytes(y, z) == Ordering::Less,
    ensures
        spec_cmp_bytes(x, z) == Ordering::Less,
    decreases x.len() + y.len() + z.len(),
{
    if x.len() > 0 && y.len() > 0 && z.len() > 0 {
        if x[0] == y[0] && y[0] == z[0] {
            lemma_cmp_bytes_trans(x.drop_first(), y.drop_first(), z.drop_first());
        }
    }
}

/// Key comparison returns `Equal` exactly on equal key models.
pub proof fn lemma_cmp_key_eq(x: KeyModel, y: KeyModel)
    ensures
        spec_cmp_key(x, y) == Ordering::Equal <==> x == y,
{
    lemma_cmp_bytes_eq(key_model_bytes(x), key_model_bytes(y));
    if spec_cmp_key(x, y) == Ordering::Equal {
        match (x, y) {
            (KeyModel::Text(tx), KeyModel::Text(ty)) => {
                vstd::utf8::encode_utf8_decode_utf8(tx);
                vstd::utf8::encode_utf8_decode_utf8(ty);
            },
            _ => {},
        }
    }
}

/// Key comparison is antisymmetric.
pub proof fn lemma_cmp_key_antisym(x: KeyModel, y: KeyModel)
    ensures
        spec_cmp_key(x, y) == Ordering::Less <==> spec_cmp_key(y, x) == Ordering::Greater,
        spec_cmp_key(x, y) == Ordering::Equal <==> spec_cmp_key(y, x) == Ordering::Equal,
{
    lemma_cmp_bytes_antisym(key_model_bytes(x), key_model_bytes(y));
}

/// Key comparison is transitive in `Less`.
pub proof fn lemma_cmp_key_trans(x: KeyModel, y: KeyModel, z: KeyModel)
    requires
        spec_cmp_key(x, y) == Ordering::Less,
        spec_cmp_key(y, z) == Ordering::Less,
    ensures
        spec_cmp_key(x, z) == Ordering::Less,
{
    match (x, y, z) {
        (KeyModel::Binary(_), KeyModel::Binary(_), KeyModel::Binary(_)) => {
            lemma_cmp_bytes_trans(key_model_bytes(x), key_model_bytes(y), key_model_bytes(z));
        },
        (KeyModel::Text(_), KeyModel::Text(_), KeyModel::Text(_)) => {
            lemma_cmp_bytes_trans(key_model_bytes(x), key_model_bytes(y), key_model_bytes(z));
        },
        _ => {},
    }
}

/// Equal leading bytes leave the comparison to the remainders.
proof fn lemma_cmp_bytes_skip(x: Seq<u8>, y: Seq<u8>, i: int)
    requires
        0 <= i <= x.len(),
        i <= y.len(),
        forall|k: int| 0 <= k < i ==> x[k] == y[k],
    ensures
        spec_cmp_bytes(x, y) == spec_cmp_bytes(x.skip(i), y.skip(i)),
    decreases i,
{
    if i > 0 {
        assert(x.len() > 0 && y.len() > 0 && x[0] == y[0]);
        assert(spec_cmp_bytes(x, y) == spec_cmp_bytes(x.drop_first(), y.drop_first()));
        lemma_cmp_bytes_skip(x.drop_first(), y.drop_first(), i - 1);
        assert(x.drop_first().skip(i - 1) =~= x.skip(i));
        assert(y.drop_first().skip(i - 1) =~= y.skip(i));
    } else {
        assert(x.skip(0) =~= x);
        assert(y.skip(0) =~= y);
    }
}

/// Compares two byte slices in the canonical byte-wise lexicographic
/// order, shorter prefixes first.
pub fn compare_vector(xs: &[u8], ys: &[u8]) -> (r: Ordering)
    ensures
        r == spec_cmp_bytes(xs@, ys@),
{
    let mut i: usize = 0;
    let xn = xs.len();
    let yn = ys.len();
    loop
        invariant
            0 <= i <= xn,
            i <= yn,
            xn == xs@.len(),
            yn == ys@.len(),
            forall|k: int| 0 <= k < i ==> xs@[k] == ys@[k],
        ensures
            spec_cmp_bytes(xs@, ys@) == if xn < yn {
                Ordering::Less
            } else if xn > yn {
                Ordering::Greater
            } else {
                Ordering::Equal
            },
        decreases xn - i,
    {
        if i >= xn || i >= yn {
            proof {
                lemma_cmp_bytes_skip(xs@, ys@, i as int);
                if i >= xn && i >= yn {
                    assert(xs@.skip(i as int).len() == 0 && ys@.skip(i as int).len() == 0);
                } else if i >= xn {
                    assert(xs@.skip(i as int).len() == 0 && ys@.skip(i as int).len() > 0);
                } else {
                    assert(xs@.skip(i as int).len() > 0 && ys@.skip(i as int).len() == 0);
                }
            }
            break ;
        }
        let x = xs[i];
        let y = ys[i];
        if x < y {
            proof {
                lemma_cmp_bytes_skip(xs@, ys@, i as int);
                assert(xs@.skip(i as int)[0] == xs@[i as int]);
                assert(ys@.skip(i as int)[0] == ys@[i as int]);
            }
            return Ordering::Less;
        } else if x > y {
            proof {
                lemma_cmp_bytes_skip(xs@, ys@, i as int);
                assert(xs@.skip(i as int)[0] == xs@[i as int]);
                assert(ys@.skip(i as int)[0] == ys@[i as int]);
            }
            return Ordering::Greater;
        }
        i = i + 1;
    }
    if xn < yn {
        Ordering::Less
    } else if xn > yn {
        Ordering::Greater
    } else {
        Ordering::Equal
    }
}

/// Compares two keys in the canonical key order: `Binary` before `Text`,
/// then byte-wise lexicographic order within a kind.
pub fn compare_key(x: &BencodexKey, y: &BencodexKey) -> (r: Ordering)
    ensures
        r == spec_cmp_key(x@, y@),
{
    match (x, y) {
        (BencodexKey::Text(tx), BencodexKey::Text(ty)) => compare_vector(
            tx.as_str().as_bytes(),
            ty.as_str().as_bytes(),
        ),
        (BencodexKey::Binary(bx), BencodexKey::Binary(by)) => compare_vector(
            bx.as_slice(),
            by.as_slice(),
        ),
        (BencodexKey::Text(_), BencodexKey::Binary(_)) => Ordering::Greater,
        (BencodexKey::Binary(_), BencodexKey::Text(_)) => Ordering::Less,
    }
}

/// The canonical key-ordering law: a binary key sorts strictly before
/// every text key, whatever their contents; two binary keys compare
/// exactly by the byte-wise lexicographic order of their raw bytes; two
/// text keys compare exactly by the byte-wise order of their UTF-8
/// encodings.
pub proof fn lemma_key_order_law(b1: Seq<u8>, b2: Seq<u8>, t1: Seq<char>, t2: Seq<char>)
    ensures
        spec_cmp_key(KeyModel::Binary(b1), KeyModel::Text(t1)) == Ordering::Less,
        spec_cmp_key(KeyModel::Text(t1), KeyModel::Binary(b1)) == Ordering::Greater,
        spec_cmp_key(KeyModel::Binary(b1), KeyModel::Binary(b2)) == spec_cmp_bytes(b1, b2),
        spec_cmp_key(KeyModel::Text(t1), KeyModel::Text(t2)) == spec_cmp_bytes(
            encode_utf8(t1),
            encode_utf8(t2),
        ),
{
}

} // verus!
