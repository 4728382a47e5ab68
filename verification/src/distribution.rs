//! Distributions as files: the entries of a table in ascending order of
//! their keys, written as text and read back.

use crate::sorting::sorted_keys;
use crate::table::lists;
use crate::table::row_entries;
use crate::table::row_get;
use crate::table::row_new;
use crate::table::row_slot;
use crate::table::Row;
use crate::text::lemma_text_round_trip;
use crate::text::parse_pairs;
use crate::text::parsed;
use crate::text::render_pairs;
use crate::text::rendered;
use crate::text::InputError;
use vstd::prelude::*;

verus! {

/// Some entry has the key `k`.
pub open spec fn names(entries: Seq<(usize, usize)>, k: usize) -> bool {
    exists|i: int| 0 <= i < entries.len() && (#[trigger] entries[i]).0 == k
}

/// `entries` are the entries of the mapping `m`, each once, in ascending
/// order of the keys.
pub open spec fn describes(entries: Seq<(usize, usize)>, m: Map<usize, usize>) -> bool {
    &&& forall|i: int, j: int|
        0 <= i < j < entries.len() ==> (#[trigger] entries[i]).0 < (#[trigger] entries[j]).0
    &&& forall|k: usize| m.dom().contains(k) <==> names(entries, k)
    &&& forall|i: int|
        0 <= i < entries.len() ==> m.dom().contains((#[trigger] entries[i]).0) && entries[i].1
            == m[entries[i].0]
}

/// The mapping that the first `n` entries build, a later entry replacing an
/// earlier one of the same key.
pub open spec fn as_map_upto(entries: Seq<(usize, usize)>, n: int) -> Map<usize, usize>
    decreases n,
{
    if n <= 0 {
        Map::empty()
    } else {
        as_map_upto(entries, n - 1).insert(entries[n - 1].0, entries[n - 1].1)
    }
}

/// The mapping that the entries build.
pub open spec fn as_map(entries: Seq<(usize, usize)>) -> Map<usize, usize> {
    as_map_upto(entries, entries.len() as int)
}

/// `text` is the file of the mapping `m`: its entries in ascending order of
/// the keys, one on each line.
pub open spec fn is_distribution_text(text: Seq<u8>, m: Map<usize, usize>) -> bool {
    exists|entries: Seq<(usize, usize)>| #[trigger]
        describes(entries, m) && text == rendered(entries)
}

/// The entries of a table in ascending order of their keys.
pub fn sorted_entries(table: &Row) -> (entries: Vec<(usize, usize)>)
    ensures
        describes(entries@, row_entries(*table)),
{
    let keys = sorted_keys(table);
    let n = keys.len();
    let mut entries: Vec<(usize, usize)> = Vec::new();
    for i in 0..n
        invariant
            n == keys@.len(),
            lists(keys@, row_entries(*table).dom()),
            entries@.len() == i,
            forall|j: int|
                0 <= j < i ==> (#[trigger] entries@[j]) == (
                    keys@[j],
                    row_entries(*table)[keys@[j]],
                ),
    {
        assert(keys@.to_set().contains(keys@[i as int]));
        match row_get(table, keys[i]) {
            Some(value) => {
                entries.push((keys[i], value));
            },
            None => {
                assert(false);
            },
        }
    }
    proof {
        let m = row_entries(*table);
        assert forall|k: usize| m.dom().contains(k) <==> names(entries@, k) by {
            if m.dom().contains(k) {
                assert(keys@.to_set().contains(k));
                let i = choose|i: int| 0 <= i < keys@.len() && keys@[i] == k;
                assert(entries@[i].0 == k);
            }
            if names(entries@, k) {
                let i = choose|i: int| 0 <= i < entries@.len() && (#[trigger] entries@[i]).0 == k;
                assert(keys@.to_set().contains(keys@[i]));
            }
        }
        assert forall|i: int| 0 <= i < entries@.len() implies m.dom().contains(
            (#[trigger] entries@[i]).0,
        ) && entries@[i].1 == m[entries@[i].0] by {
            assert(keys@.to_set().contains(keys@[i]));
        }
        assert forall|i: int, j: int| 0 <= i < j < entries@.len() implies (#[trigger] entries@[i]).0
            < (#[trigger] entries@[j]).0 by {
            assert(keys@[i] < keys@[j]);
        }
    }
    entries
}

/// The table that the entries build, a later entry replacing an earlier one
/// of the same key.
pub fn table_of(entries: &Vec<(usize, usize)>) -> (table: Row)
    ensures
        row_entries(table) == as_map(entries@),
{
    let n = entries.len();
    let mut table = row_new();
    assert(row_entries(table) =~= Map::<usize, usize>::empty());
    for i in 0..n
        invariant
            n == entries@.len(),
            row_entries(table) == as_map_upto(entries@, i as int),
    {
        let slot = row_slot(&mut table, entries[i].0, 0);
        *slot = entries[i].1;
    }
    table
}

/// The mapping that the first entries build holds exactly those entries,
/// where no key occurs twice.
pub proof fn lemma_as_map_of_distinct(entries: Seq<(usize, usize)>, n: int)
    requires
        0 <= n <= entries.len(),
        forall|i: int, j: int|
            0 <= i < j < entries.len() ==> (#[trigger] entries[i]).0 != (#[trigger] entries[j]).0,
    ensures
        forall|k: usize|
            as_map_upto(entries, n).dom().contains(k) <==> exists|i: int|
                0 <= i < n && (#[trigger] entries[i]).0 == k,
        forall|i: int|
            0 <= i < n ==> as_map_upto(entries, n)[(#[trigger] entries[i]).0] == entries[i].1,
    decreases n,
{
    if n > 0 {
        lemma_as_map_of_distinct(entries, n - 1);
        let before = as_map_upto(entries, n - 1);
        let now = as_map_upto(entries, n);
        assert forall|k: usize|
            now.dom().contains(k) <==> exists|i: int|
                0 <= i < n && (#[trigger] entries[i]).0 == k by {
            if now.dom().contains(k) {
                if k == entries[n - 1].0 {
                    assert(0 <= n - 1 < n && entries[n - 1].0 == k);
                } else {
                    let i = choose|i: int| 0 <= i < n - 1 && (#[trigger] entries[i]).0 == k;
                    assert(0 <= i < n && entries[i].0 == k);
                }
            }
            if exists|i: int| 0 <= i < n && (#[trigger] entries[i]).0 == k {
                let i = choose|i: int| 0 <= i < n && (#[trigger] entries[i]).0 == k;
                if i < n - 1 {
                    assert(0 <= i < n - 1 && entries[i].0 == k);
                }
            }
        }
        assert forall|i: int| 0 <= i < n implies now[(#[trigger] entries[i]).0]
            == entries[i].1 by {
            if i < n - 1 {
                assert(entries[i].0 != entries[n - 1].0);
            }
        }
    }
}

/// The entries of a mapping build that mapping.
pub proof fn lemma_described_map(entries: Seq<(usize, usize)>, m: Map<usize, usize>)
    requires
        describes(entries, m),
    ensures
        as_map(entries) == m,
{
    let n = entries.len() as int;
    lemma_as_map_of_distinct(entries, n);
    let built = as_map(entries);
    assert forall|k: usize| built.dom().contains(k) <==> m.dom().contains(k) by {
        if built.dom().contains(k) {
            let i = choose|i: int| 0 <= i < n && (#[trigger] entries[i]).0 == k;
            assert(names(entries, k));
        }
        if m.dom().contains(k) {
            assert(names(entries, k));
            let i = choose|i: int| 0 <= i < entries.len() && (#[trigger] entries[i]).0 == k;
            assert(0 <= i < n && entries[i].0 == k);
        }
    }
    assert forall|k: usize| built.dom().contains(k) implies built[k] == m[k] by {
        let i = choose|i: int| 0 <= i < n && (#[trigger] entries[i]).0 == k;
        assert(built[entries[i].0] == entries[i].1);
    }
    assert(built =~= m);
}

/// Round trip: a distribution that is written to its file and read back is
/// the distribution that was written.
pub proof fn lemma_distribution_round_trip(m: Map<usize, usize>, text: Seq<u8>)
    requires
        is_distribution_text(text, m),
    ensures
        parsed(text) matches Ok(entries) && as_map(entries) == m,
{
    let entries = choose|entries: Seq<(usize, usize)>| #[trigger]
        describes(entries, m) && text == rendered(entries);
    lemma_text_round_trip(entries);
    lemma_described_map(entries, m);
}

/// The file of a distribution: its entries in ascending order of the keys,
/// as `key value` lines.
pub fn write_distribution(table: &Row) -> (text: Vec<u8>)
    ensures
        is_distribution_text(text@, row_entries(*table)),
{
    let entries = sorted_entries(table);
    let text = render_pairs(&entries);
    assert(describes(entries@, row_entries(*table)) && text@ == rendered(entries@));
    text
}

/// The distribution that a file holds, or the index of the first line that
/// is no `key value` record.
pub fn read_distribution(text: &[u8]) -> (table: Result<Row, InputError>)
    ensures
        match parsed(text@) {
            Ok(entries) => table matches Ok(t) && row_entries(t) == as_map(entries),
            Err(e) => table matches Err(f) && f == e,
        },
{
    match parse_pairs(text) {
        Ok(entries) => Ok(table_of(&entries)),
        Err(e) => Err(e),
    }
}

} // verus!
