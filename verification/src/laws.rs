//! Whole-table laws of the index, stated and proved over the same model the
//! executable contracts use: buckets as `Seq<Seq<Data>>`, a mask, and the
//! `table_insert` / `table_lookup` / `table_remove` functions.

use vstd::prelude::*;

use crate::relation::Relation;
use crate::relation::bucket_of;
use crate::relation::lemma_bucket_of_bound;
use crate::relation::table_insert;
use crate::relation::table_lookup;
use crate::relation::table_remove;
use crate::relation::total_len;
use crate::row::Data;
use crate::row::count_key;
use crate::row::find_first;
use crate::row::has_key;
use crate::row::lemma_count_key_spec;
use crate::row::lemma_find_first_spec;
use crate::row::lemma_remove_first_absent;
use crate::row::lemma_remove_first_present;
use crate::row::remove_first;

verus! {

/// Insert–lookup: right after `d` is inserted, a lookup of its key yields `d`
/// itself — key and payload — whatever the table held before.
pub proof fn lemma_insert_lookup(bs: Seq<Seq<Data>>, mask: usize, d: Data)
    requires
        bucket_of(d.a, mask) < bs.len(),
    ensures
        table_lookup(table_insert(bs, mask, d), mask, d.a) == Some(d),
        total_len(table_insert(bs, mask, d)) == total_len(bs) + 1,
{
    let h = bucket_of(d.a, mask);
    let b = seq![d] + bs[h];
    assert(table_insert(bs, mask, d)[h] == b);
    assert(b[0] == d);
    crate::relation::lemma_total_len_update(bs, h, b);
}

/// Remove effectiveness: removing a present key takes out exactly one record
/// with that key — the key's count and the table total each fall by one (the
/// size counter falls with the total).
pub proof fn lemma_remove_effectiveness(bs: Seq<Seq<Data>>, mask: usize, a: usize)
    requires
        bucket_of(a, mask) < bs.len(),
        has_key(bs[bucket_of(a, mask)], a),
    ensures
        count_key(table_remove(bs, mask, a)[bucket_of(a, mask)], a) == count_key(
            bs[bucket_of(a, mask)],
            a,
        ) - 1,
        total_len(table_remove(bs, mask, a)) == total_len(bs) - 1,
{
    let h = bucket_of(a, mask);
    lemma_remove_first_present(bs[h], a);
    crate::relation::lemma_total_len_update(bs, h, remove_first(bs[h], a));
}

/// After removing the only record carrying key `a`, a lookup of `a` misses.
pub proof fn lemma_remove_last_lookup(bs: Seq<Seq<Data>>, mask: usize, a: usize)
    requires
        bucket_of(a, mask) < bs.len(),
        count_key(bs[bucket_of(a, mask)], a) == 1,
    ensures
        table_lookup(table_remove(bs, mask, a), mask, a) is None,
{
    let h = bucket_of(a, mask);
    let b = bs[h];
    lemma_count_key_spec(b, a);
    lemma_remove_first_present(b, a);
    lemma_count_key_spec(remove_first(b, a), a);
    lemma_find_first_spec(remove_first(b, a), a);
}

/// Idempotent absence: removing a key that is not present leaves the table —
/// hence its size and every lookup — unchanged.
pub proof fn lemma_remove_absent(bs: Seq<Seq<Data>>, mask: usize, a: usize)
    requires
        bucket_of(a, mask) < bs.len(),
        !has_key(bs[bucket_of(a, mask)], a),
    ensures
        table_remove(bs, mask, a) == bs,
{
    let h = bucket_of(a, mask);
    lemma_remove_first_absent(bs[h], a);
    assert(table_remove(bs, mask, a) =~= bs);
}

/// Bucket isolation: when two keys mask to different buckets, removing one
/// never changes what a lookup of the other returns.
pub proof fn lemma_bucket_isolation(bs: Seq<Seq<Data>>, mask: usize, a: usize, a2: usize)
    requires
        bucket_of(a, mask) < bs.len(),
        bucket_of(a2, mask) < bs.len(),
        bucket_of(a, mask) != bucket_of(a2, mask),
    ensures
        table_lookup(table_remove(bs, mask, a), mask, a2) == table_lookup(bs, mask, a2),
{
    assert(table_remove(bs, mask, a)[bucket_of(a2, mask)] == bs[bucket_of(a2, mask)]);
}

/// In a well-formed table a record can sit only in the bucket its key masks
/// to, so a missed lookup means no live record anywhere carries the key.
pub proof fn lemma_lookup_global(r: Relation, a: usize)
    requires
        r.wf(),
    ensures
        (table_lookup(r.buckets(), r.mask(), a) is None) <==> (forall|i: int, j: int|
            0 <= i < r.buckets().len() && 0 <= j < r.buckets()[i].len()
                ==> (#[trigger] r.buckets()[i][j]).a != a),
{
    let bs = r.buckets();
    let m = r.mask();
    let h = bucket_of(a, m);
    r.lemma_wf_facts();
    lemma_bucket_of_bound(a, m);
    lemma_find_first_spec(bs[h], a);
    if table_lookup(bs, m, a) is None {
        assert forall|i: int, j: int|
            0 <= i < bs.len() && 0 <= j < bs[i].len() implies (#[trigger] bs[i][j]).a != a by {
            if bs[i][j].a == a {
                assert(bucket_of(bs[i][j].a, m) == i);
                assert(has_key(bs[h], a));
            }
        }
    } else {
        let d = find_first(bs[h], a).unwrap();
        let k = choose|k: int| 0 <= k < bs[h].len() && bs[h][k] == d;
        assert(bs[h][k].a == a);
    }
}

/// Duplicate keys coexist: inserting two records with one key grows the table
/// by two; a lookup finds the newer; one removal takes out only the newer,
/// after which a lookup still finds the older.
pub proof fn lemma_duplicate_keys(bs: Seq<Seq<Data>>, mask: usize, d1: Data, d2: Data)
    requires
        d1.a == d2.a,
        bucket_of(d1.a, mask) < bs.len(),
    ensures
        ({
            let bs2 = table_insert(table_insert(bs, mask, d1), mask, d2);
            &&& total_len(bs2) == total_len(bs) + 2
            &&& table_lookup(bs2, mask, d2.a) == Some(d2)
            &&& total_len(table_remove(bs2, mask, d2.a)) == total_len(bs) + 1
            &&& table_lookup(table_remove(bs2, mask, d2.a), mask, d1.a) == Some(d1)
        }),
{
    let h = bucket_of(d1.a, mask);
    let b1 = seq![d1] + bs[h];
    let bs1 = table_insert(bs, mask, d1);
    let b2 = seq![d2] + b1;
    let bs2 = table_insert(bs1, mask, d2);
    assert(bs1[h] == b1);
    assert(bs2[h] == b2);
    crate::relation::lemma_total_len_update(bs, h, b1);
    crate::relation::lemma_total_len_update(bs1, h, b2);
    assert(b2[0] == d2);
    let b3 = remove_first(b2, d2.a);
    assert(b3 =~= b1);
    let bs3 = table_remove(bs2, mask, d2.a);
    assert(bs3[h] == b1);
    crate::relation::lemma_total_len_update(bs2, h, b3);
    assert(b1[0] == d1);
}

} // verus!
