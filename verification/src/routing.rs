//! Shard routing: which shard owns a column, and which shards a query must
//! probe.

use vstd::prelude::*;
use crate::grid::{cell_text, CellCoord};
use crate::strmap::StrMap;

verus! {

/// The value `finish` gives after a fresh `DefaultHasher` has hashed the
/// string `s` through `Hash for str`.
pub uninterp spec fn default_str_hash(s: Seq<char>) -> u64;

/// Hashes a string with a fresh `std::collections::hash_map::DefaultHasher`
/// (`Hash::hash` for `str`, then `Hasher::finish`). The contract only names
/// the result: it depends on the string alone.
#[verifier::external_body]
fn str_hash(s: &str) -> (r: u64)
    ensures
        r == default_str_hash(s@),
{
    let mut h = std::collections::hash_map::DefaultHasher::new();
    std::hash::Hash::hash(s, &mut h);
    std::hash::Hasher::finish(&h)
}

/// The shard of a hash: 0 with one shard or none, else the hash (as a
/// `usize`) modulo the number of shards.
pub open spec fn hash_shard(hash: u64, num_shards: usize) -> usize {
    if num_shards <= 1 {
        0
    } else {
        ((hash as usize) % num_shards) as usize
    }
}

/// The shard that owns the column with text key `key`.
pub open spec fn key_shard(key: Seq<char>, num_shards: usize) -> usize {
    hash_shard(default_str_hash(key), num_shards)
}

/// Maps a column key's hash to a shard.
pub fn shard_for_hash(hash: u64, num_shards: usize) -> (r: usize)
    ensures
        r == hash_shard(hash, num_shards),
        num_shards > 1 ==> r < num_shards,
{
    if num_shards <= 1 {
        0
    } else {
        (hash as usize) % num_shards
    }
}

/// Maps a fractal column key to a shard id (the partition primitive).
pub fn shard_id_for_column_key(column_key: &str, num_shards: usize) -> (r: usize)
    ensures
        r == key_shard(column_key@, num_shards),
        num_shards > 1 ==> r < num_shards,
{
    if num_shards <= 1 {
        return 0;
    }
    let h = str_hash(column_key);
    shard_for_hash(h, num_shards)
}

/// A column's shard is its key's hash modulo the number of shards, when
/// there are several (so it is one of them); with one shard or none it is
/// shard 0.
pub proof fn law_key_shard_is_hash_mod(key: Seq<char>, num_shards: usize)
    ensures
        num_shards > 1 ==> key_shard(key, num_shards) == (default_str_hash(key) as usize) % num_shards,
        num_shards > 1 ==> key_shard(key, num_shards) < num_shards,
        num_shards <= 1 ==> key_shard(key, num_shards) == 0,
{
}

/// The shard of a cell: its recorded placement if there is one, else the
/// shard its key hashes to.
pub open spec fn cell_shard(placements: Map<Seq<char>, u8>, c: CellCoord, num_shards: usize) -> usize {
    if placements.contains_key(cell_text(c)) {
        placements[cell_text(c)] as usize
    } else {
        key_shard(cell_text(c), num_shards)
    }
}

pub open spec fn strictly_increasing(s: Seq<usize>) -> bool {
    forall|i: int, j: int| 0 <= i < j < s.len() ==> s[i] < s[j]
}

/// Adds `x` to a strictly increasing vector, keeping it so.
fn insert_sorted(v: &mut Vec<usize>, x: usize)
    requires
        strictly_increasing(old(v)@),
    ensures
        strictly_increasing(final(v)@),
        forall|s: usize| final(v)@.contains(s) <==> (old(v)@.contains(s) || s == x),
{
    let mut i: usize = 0;
    while i < v.len() && v[i] < x
        invariant
            v@ == old(v)@,
            strictly_increasing(v@),
            i <= v@.len(),
            forall|j: int| 0 <= j < i ==> v@[j] < x,
        decreases v@.len() - i,
    {
        i = i + 1;
    }
    if i < v.len() && v[i] == x {
        assert(v@.contains(x));
        return;
    }
    let ghost before = v@;
    v.insert(i, x);
    proof {
        assert(v@ =~= before.insert(i as int, x));
        assert forall|a: int, b: int| 0 <= a < b < v@.len() implies v@[a] < v@[b] by {
            if a < i && b > i {
                assert(v@[b] == before[b - 1]);
                assert(before[b - 1] >= before[i as int]);
            }
        }
        assert forall|s: usize| v@.contains(s) <==> (before.contains(s) || s == x) by {
            if v@.contains(s) {
                let k = choose|k: int| 0 <= k < v@.len() && v@[k] == s;
                if k < i {
                    assert(before[k] == s);
                } else if k > i {
                    assert(before[k - 1] == s);
                }
            }
            if before.contains(s) {
                let k = choose|k: int| 0 <= k < before.len() && before[k] == s;
                if k < i {
                    assert(v@[k] == s);
                } else {
                    assert(v@[k + 1] == s);
                }
            }
            if s == x {
                assert(v@[i as int] == x);
            }
        }
        assert(before == old(v)@);
        assert(forall|s: usize| v@.contains(s) <==> (old(v)@.contains(s) || s == x));
    }
}

/// The shards to probe for a query: the primary shard together with the
/// shard of every cell of the beam neighbourhood, each once, in increasing
/// order.
pub fn shard_ids_for_cells(
    primary: usize,
    cells: &Vec<CellCoord>,
    placements: &StrMap<u8>,
    num_shards: usize,
) -> (r: Vec<usize>)
    ensures
        strictly_increasing(r@),
        forall|s: usize|
            r@.contains(s) <==> (s == primary || exists|i: int|
                0 <= i < cells@.len() && s == cell_shard(placements@, #[trigger] cells@[i], num_shards)),
{
    let mut out: Vec<usize> = Vec::new();
    out.push(primary);
    proof {
        assert forall|s: usize| out@.contains(s) <==> s == primary by {
            if s == primary {
                assert(out@[0] == primary);
            }
        }
    }
    let mut i: usize = 0;
    while i < cells.len()
        invariant
            i <= cells@.len(),
            strictly_increasing(out@),
            forall|s: usize|
                out@.contains(s) <==> (s == primary || exists|j: int|
                    0 <= j < i && s == cell_shard(placements@, #[trigger] cells@[j], num_shards)),
        decreases cells@.len() - i,
    {
        let key = cells[i].to_string();
        let shard = match placements.get(key.as_str()) {
            Some(p) => *p as usize,
            None => shard_id_for_column_key(key.as_str(), num_shards),
        };
        assert(shard == cell_shard(placements@, cells@[i as int], num_shards));
        insert_sorted(&mut out, shard);
        proof {
            assert forall|s: usize|
                out@.contains(s) <==> (s == primary || exists|j: int|
                    0 <= j < i + 1 && s == cell_shard(placements@, #[trigger] cells@[j], num_shards)) by {
                if s == shard {
                    assert(0 <= i < i + 1 && s == cell_shard(placements@, cells@[i as int], num_shards));
                }
            }
        }
        i = i + 1;
    }
    out
}

} // verus!
