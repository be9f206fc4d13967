//! CHD-style perfect-hash construction: a seeded FNV digest split into three
//! bit fields, bucketed by one field, and resolved into a collision-free slot
//! array by a per-bucket displacement search.

use vstd::prelude::*;

verus! {

/// Seeded FNV basis.
pub const FNV_BASIS: u64 = 0xcbf29ce484222325;

/// FNV prime.
pub const FNV_PRIME: u64 = 0x100000001b3;

/// One FNV accumulation step: xor the byte in, then a wrapping multiply by
/// the prime.
pub open spec fn fnv_step(acc: u64, b: u8) -> u64 {
    vstd::wrapping::u64_specs::wrapping_mul(acc ^ (b as u64), FNV_PRIME)
}

/// Folds `fnv_step` over the bytes, front to back.
pub open spec fn fnv_accum(acc: u64, bytes: Seq<u8>) -> u64
    decreases bytes.len(),
{
    if bytes.len() == 0 {
        acc
    } else {
        fnv_accum(fnv_step(acc, bytes[0]), bytes.drop_first())
    }
}

/// The order-sensitive, seed-salted digest of a byte string.
pub open spec fn fnv_hash(bytes: Seq<u8>, seed: u64) -> u64 {
    fnv_accum(FNV_BASIS ^ seed, bytes)
}

/// Seeded FNV digest of `s`.
pub fn hash(s: &Vec<u8>, h: u64) -> (r: u64)
    ensures
        r == fnv_hash(s@, h),
{
    let mut g: u64 = FNV_BASIS ^ h;
    proof {
        assert(s@.skip(0) =~= s@);
    }
    for i in 0..s.len()
        invariant
            fnv_accum(g, s@.skip(i as int)) == fnv_hash(s@, h),
    {
        proof {
            assert(s@.skip(i as int).drop_first() =~= s@.skip(i + 1));
        }
        g = (g ^ (s[i] as u64)).wrapping_mul(FNV_PRIME);
    }
    proof {
        assert(s@.skip(s@.len() as int) =~= Seq::<u8>::empty());
    }
    g
}

/// Width of each of the three fields cut from the digest.
pub const FIELD_BITS: u64 = 21;

/// Mask selecting one field.
pub const FIELD_MASK: u64 = 0x1FFFFF;

/// The digest's three disjoint 21-bit fields, from least significant upward:
/// `g` selects the bucket, `f1` and `f2` feed the displacement.
#[derive(Copy, Clone, PartialEq, Eq, Structural)]
pub struct Hash {
    pub g: u32,
    pub f1: u32,
    pub f2: u32,
}

/// How a digest is split into its three fields.
pub open spec fn spec_split(h: u64) -> Hash {
    Hash {
        g: (h & FIELD_MASK) as u32,
        f1: ((h >> FIELD_BITS) & FIELD_MASK) as u32,
        f2: ((h >> (2 * FIELD_BITS)) & FIELD_MASK) as u32,
    }
}

/// Cuts a digest into its three bit fields.
pub fn split(hash: u64) -> (r: Hash)
    ensures
        r == spec_split(hash),
{
    Hash {
        g: (hash & FIELD_MASK) as u32,
        f1: ((hash >> FIELD_BITS) & FIELD_MASK) as u32,
        f2: ((hash >> (2 * FIELD_BITS)) & FIELD_MASK) as u32,
    }
}

/// Combines a displacement pair with an entry's hash fields, with wrapping
/// 32-bit arithmetic.
pub open spec fn spec_displace(f1: u32, f2: u32, d1: u32, d2: u32) -> u32 {
    vstd::wrapping::u32_specs::wrapping_add(
        vstd::wrapping::u32_specs::wrapping_add(
            d2,
            vstd::wrapping::u32_specs::wrapping_mul(f1, d1),
        ),
        f2,
    )
}

/// Adjusts an entry's hash fields by a displacement pair.
pub fn displace(f1: u32, f2: u32, d1: u32, d2: u32) -> (r: u32)
    ensures
        r == spec_displace(f1, f2, d1, d2),
{
    d2.wrapping_add(f1.wrapping_mul(d1)).wrapping_add(f2)
}

/// The hash an entry's name gets under `seed`.
pub open spec fn entry_hash(name: Seq<u8>, seed: u64) -> Hash {
    spec_split(fnv_hash(name, seed))
}

/// Number of buckets for `n` entries at load factor `lambda`.
pub open spec fn spec_buckets_len(n: int, lambda: int) -> int {
    (n + lambda - 1) / lambda
}

/// The slot a hash's fields land in under the pair `(d1, d2)`, in a table of
/// `n` slots.
pub open spec fn cslot(h: Hash, d1: u32, d2: u32, n: int) -> int {
    spec_displace(h.f1, h.f2, d1, d2) as int % n
}

/// The slot the emitted structures assign to `name`: recompute the hash from
/// the stored seed, fetch the bucket's displacement pair, and reduce the
/// displaced value modulo the table length.
pub open spec fn slot_of(name: Seq<u8>, seed: u64, disps: Seq<(u32, u32)>, n: int) -> int {
    let h = entry_hash(name, seed);
    let d = disps[h.g as int % disps.len() as int];
    cslot(h, d.0, d.1, n)
}

/// What a successful construction guarantees: the displacement table has one
/// pair per bucket, the slot array has one slot per entry, every entry's
/// recomputed slot holds exactly that entry's value, distinct entries occupy
/// distinct slots, and a slot reads as the empty marker exactly when no entry
/// maps to it (hence, here, never).
pub open spec fn phf_ok(
    values: Seq<(char, Vec<u8>)>,
    lambda: int,
    seed: u64,
    disps: Seq<(u32, u32)>,
    map: Seq<char>,
) -> bool {
    &&& map.len() == values.len()
    &&& disps.len() == spec_buckets_len(values.len() as int, lambda)
    &&& forall|i: int|
        0 <= i < values.len() ==> map[slot_of(#[trigger] values[i].1@, seed, disps, map.len() as int)]
            == values[i].0
    &&& forall|i: int, j: int|
        0 <= i < j < values.len() ==> slot_of(#[trigger] values[i].1@, seed, disps, map.len() as int)
            != slot_of(#[trigger] values[j].1@, seed, disps, map.len() as int)
    &&& forall|s: int|
        0 <= s < map.len() ==> ((#[trigger] map[s] == '\0') <==> !(exists|i: int|
            0 <= i < values.len() && slot_of(#[trigger] values[i].1@, seed, disps, map.len() as int)
                == s))
}

/// The slot bucket member `m` would land in under the pair `(d1, d2)`.
pub open spec fn mslot(
    hashes: Seq<Hash>,
    members: Seq<usize>,
    m: int,
    d1: u32,
    d2: u32,
    n: int,
) -> int {
    cslot(hashes[members[m] as int], d1, d2, n)
}

/// A displacement pair fits a bucket when every member lands in an empty
/// slot and no two members land in the same slot.
pub open spec fn fits(
    map: Seq<char>,
    hashes: Seq<Hash>,
    members: Seq<usize>,
    d1: u32,
    d2: u32,
) -> bool {
    &&& forall|m: int|
        0 <= m < members.len() ==> map[#[trigger] mslot(hashes, members, m, d1, d2, map.len() as int)]
            == '\0'
    &&& forall|m1: int, m2: int|
        #![trigger mslot(hashes, members, m1, d1, d2, map.len() as int), mslot(hashes, members, m2, d1, d2, map.len() as int)]
        0 <= m1 < m2 < members.len() ==> mslot(hashes, members, m1, d1, d2, map.len() as int)
            != mslot(hashes, members, m2, d1, d2, map.len() as int)
}

/// Searches the candidate orders for the first displacement pair that fits
/// `members`, using the generation-stamped scratch array `try_map` to detect,
/// without clearing it between trials, slots claimed earlier in the same
/// trial. Returns the pair and the members' slots, or `None` exactly when no
/// candidate pair fits.
#[verifier::loop_isolation(false)]
fn find_disp_pair(
    members: &Vec<usize>,
    hashes: &Vec<Hash>,
    map: &Vec<char>,
    try_map: &mut Vec<u64>,
    generation: &mut u64,
    d1s: &Vec<u32>,
    d2s: &Vec<u32>,
) -> (r: Option<(u32, u32, Vec<usize>)>)
    requires
        1 <= map@.len() <= 0xFFFF_FFFF,
        old(try_map)@.len() == map@.len(),
        forall|i: int| 0 <= i < old(try_map)@.len() ==> old(try_map)@[i] <= *old(generation),
        forall|m: int| 0 <= m < members@.len() ==> #[trigger] members@[m] < hashes@.len(),
    ensures
        final(try_map)@.len() == map@.len(),
        forall|i: int| 0 <= i < final(try_map)@.len() ==> final(try_map)@[i] <= *final(generation),
        match r {
            Some(t) => {
                &&& fits(map@, hashes@, members@, t.0, t.1)
                &&& t.2@.len() == members@.len()
                &&& forall|m: int|
                    0 <= m < members@.len() ==> #[trigger] t.2@[m] == mslot(
                        hashes@,
                        members@,
                        m,
                        t.0,
                        t.1,
                        map@.len() as int,
                    )
            },
            None => forall|a: int, b: int|
                0 <= a < d1s@.len() && 0 <= b < d2s@.len() ==> !fits(
                    map@,
                    hashes@,
                    members@,
                    #[trigger] d1s@[a],
                    #[trigger] d2s@[b],
                ),
        },
{
    let n = map.len();
    let ghost gn = n as int;
    for a in 0..d1s.len()
        invariant
            1 <= n <= 0xFFFF_FFFF,
            n == map@.len(),
            try_map@.len() == n,
            forall|i: int| 0 <= i < try_map@.len() ==> try_map@[i] <= *generation,
            forall|m: int| 0 <= m < members@.len() ==> #[trigger] members@[m] < hashes@.len(),
            forall|a2: int, b2: int|
                0 <= a2 < a && 0 <= b2 < d2s@.len() ==> !fits(
                    map@,
                    hashes@,
                    members@,
                    #[trigger] d1s@[a2],
                    #[trigger] d2s@[b2],
                ),
    {
        let d1 = d1s[a];
        for b in 0..d2s.len()
            invariant
                1 <= n <= 0xFFFF_FFFF,
                n == map@.len(),
                d1 == d1s@[a as int],
                a < d1s@.len(),
                try_map@.len() == n,
                forall|i: int| 0 <= i < try_map@.len() ==> try_map@[i] <= *generation,
                forall|m: int| 0 <= m < members@.len() ==> #[trigger] members@[m] < hashes@.len(),
                forall|a2: int, b2: int|
                    0 <= a2 < a && 0 <= b2 < d2s@.len() ==> !fits(
                        map@,
                        hashes@,
                        members@,
                        #[trigger] d1s@[a2],
                        #[trigger] d2s@[b2],
                    ),
                forall|b2: int|
                    0 <= b2 < b ==> !fits(map@, hashes@, members@, d1, #[trigger] d2s@[b2]),
        {
            let d2 = d2s[b];
            if *generation == u64::MAX {
                let mut i: usize = 0;
                while i < try_map.len()
                    invariant
                        try_map@.len() == n,
                        i <= n,
                        forall|j: int| 0 <= j < i ==> try_map@[j] == 0,
                    decreases n - i,
                {
                    try_map[i] = 0;
                    i = i + 1;
                }
                *generation = 0;
            }
            *generation = *generation + 1;
            let g = *generation;
            let mut slots: Vec<usize> = Vec::new();
            let mut ok = true;
            let mut m: usize = 0;
            while ok && m < members.len()
                invariant
                    1 <= n <= 0xFFFF_FFFF,
                    n == map@.len(),
                    g == *generation,
                    try_map@.len() == n,
                    forall|i: int| 0 <= i < try_map@.len() ==> try_map@[i] <= g,
                    forall|m2: int| 0 <= m2 < members@.len() ==> #[trigger] members@[m2] < hashes@.len(),
                    m <= members@.len(),
                    ok ==> slots@.len() == m as int,
                    ok ==> forall|m2: int|
                        0 <= m2 < m as int ==> #[trigger] slots@[m2] == mslot(
                            hashes@,
                            members@,
                            m2,
                            d1,
                            d2,
                            gn,
                        ),
                    ok ==> forall|m2: int|
                        0 <= m2 < m as int ==> map@[#[trigger] mslot(
                            hashes@,
                            members@,
                            m2,
                            d1,
                            d2,
                            gn,
                        )] == '\0',
                    ok ==> forall|m1: int, m2: int|
                        #![trigger mslot(hashes@, members@, m1, d1, d2, gn), mslot(hashes@, members@, m2, d1, d2, gn)]
                        0 <= m1 < m2 < m as int ==> mslot(hashes@, members@, m1, d1, d2, gn)
                            != mslot(hashes@, members@, m2, d1, d2, gn),
                    ok ==> forall|s: int|
                        0 <= s < n ==> ((#[trigger] try_map@[s] == g) <==> (exists|m2: int|
                            0 <= m2 < m as int && #[trigger] mslot(hashes@, members@, m2, d1, d2, gn)
                                == s)),
                    !ok ==> !fits(map@, hashes@, members@, d1, d2),
                decreases (if ok { 1int } else { 0int }), members@.len() - m,
            {
                let e = members[m];
                let h = hashes[e];
                let idx = (displace(h.f1, h.f2, d1, d2) as usize) % n;
                proof {
                    assert(h == hashes@[members@[m as int] as int]);
                    assert(idx as int == mslot(hashes@, members@, m as int, d1, d2, gn));
                }
                if map[idx] != '\0' {
                    proof {
                        assert(map@[mslot(hashes@, members@, m as int, d1, d2, gn)] != '\0');
                    }
                    ok = false;
                } else if try_map[idx] == g {
                    proof {
                        let m1 = choose|m2: int|
                            0 <= m2 < m as int && #[trigger] mslot(hashes@, members@, m2, d1, d2, gn)
                                == idx as int;
                        assert(mslot(hashes@, members@, m1, d1, d2, gn) == mslot(
                            hashes@,
                            members@,
                            m as int,
                            d1,
                            d2,
                            gn,
                        ));
                    }
                    ok = false;
                } else {
                    try_map[idx] = g;
                    slots.push(idx);
                    m = m + 1;
                }
            }
            if ok {
                return Some((d1, d2, slots));
            }
        }
    }
    None
}

/// The slot entry `e` lands in under the current displacement table.
pub open spec fn eslot(hashes: Seq<Hash>, disps: Seq<(u32, u32)>, e: int, n: int) -> int {
    let h = hashes[e];
    let d = disps[h.g as int % disps.len() as int];
    cslot(h, d.0, d.1, n)
}

/// Entry `e` stands somewhere in the buckets.
pub open spec fn in_some_bucket(buckets: Seq<Vec<usize>>, e: int) -> bool {
    exists|k: int, m: int|
        #![trigger buckets[k]@[m]]
        0 <= k < buckets.len() && 0 <= m < buckets[k]@.len() && buckets[k]@[m] == e
}

/// The buckets hold exactly the entry indices, each grouped by its `g` field
/// reduced modulo the bucket count.
pub open spec fn buckets_ok(n: int, hashes: Seq<Hash>, buckets: Seq<Vec<usize>>) -> bool {
    &&& forall|k: int, m: int|
        #![trigger buckets[k]@[m]]
        0 <= k < buckets.len() && 0 <= m < buckets[k]@.len() ==> buckets[k]@[m] < n
            && hashes[buckets[k]@[m] as int].g as int % buckets.len() as int == k
    &&& forall|e: int| 0 <= e < n ==> in_some_bucket(buckets, e)
}

/// Some member of an already-placed bucket lands in slot `s`.
pub open spec fn slot_used(
    hashes: Seq<Hash>,
    buckets: Seq<Vec<usize>>,
    seen: Seq<bool>,
    disps: Seq<(u32, u32)>,
    s: int,
    n: int,
) -> bool {
    exists|k: int, m: int|
        #![trigger buckets[k]@[m]]
        0 <= k < buckets.len() && seen[k] && 0 <= m < buckets[k]@.len() && eslot(
            hashes,
            disps,
            buckets[k]@[m] as int,
            n,
        ) == s
}

/// What holds after any set of buckets has been committed: each member of a
/// committed bucket is stored at its slot, no two committed members share a
/// slot, and a slot holds the empty marker exactly when no committed member
/// lands there.
pub open spec fn placed_ok(
    values: Seq<(char, Vec<u8>)>,
    hashes: Seq<Hash>,
    buckets: Seq<Vec<usize>>,
    seen: Seq<bool>,
    disps: Seq<(u32, u32)>,
    map: Seq<char>,
) -> bool {
    let n = map.len() as int;
    &&& forall|k: int, m: int|
        #![trigger buckets[k]@[m]]
        0 <= k < buckets.len() && seen[k] && 0 <= m < buckets[k]@.len() ==> map[eslot(
            hashes,
            disps,
            buckets[k]@[m] as int,
            n,
        )] == values[buckets[k]@[m] as int].0
    &&& forall|k1: int, m1: int, k2: int, m2: int|
        #![trigger buckets[k1]@[m1], buckets[k2]@[m2]]
        0 <= k1 < buckets.len() && seen[k1] && 0 <= m1 < buckets[k1]@.len() && 0 <= k2
            < buckets.len() && seen[k2] && 0 <= m2 < buckets[k2]@.len() && (k1 != k2 || m1 != m2)
            ==> eslot(hashes, disps, buckets[k1]@[m1] as int, n) != eslot(
            hashes,
            disps,
            buckets[k2]@[m2] as int,
            n,
        )
    &&& forall|s: int|
        0 <= s < n ==> (((#[trigger] map[s]) == '\0') <==> !slot_used(
            hashes,
            buckets,
            seen,
            disps,
            s,
            n,
        ))
}

/// Committing a fitting bucket preserves the placement invariant: the new
/// members land on previously empty, pairwise distinct slots, and every
/// earlier bucket's slots and displacement pair are untouched.
proof fn lemma_commit_ok(
    values: Seq<(char, Vec<u8>)>,
    hashes: Seq<Hash>,
    buckets: Seq<Vec<usize>>,
    seen: Seq<bool>,
    disps0: Seq<(u32, u32)>,
    map0: Seq<char>,
    map1: Seq<char>,
    k: int,
    d1: u32,
    d2: u32,
    slots: Seq<usize>,
)
    requires
        1 <= map0.len(),
        map0.len() == values.len(),
        hashes.len() == values.len(),
        forall|e: int| 0 <= e < values.len() ==> (#[trigger] values[e].0) != '\0',
        buckets_ok(values.len() as int, hashes, buckets),
        seen.len() == buckets.len(),
        disps0.len() == buckets.len(),
        0 <= k < buckets.len(),
        !seen[k],
        placed_ok(values, hashes, buckets, seen, disps0, map0),
        fits(map0, hashes, buckets[k]@, d1, d2),
        slots.len() == buckets[k]@.len(),
        forall|m: int|
            0 <= m < slots.len() ==> (#[trigger] slots[m]) as int == mslot(
                hashes,
                buckets[k]@,
                m,
                d1,
                d2,
                map0.len() as int,
            ),
        map1.len() == map0.len(),
        forall|m: int|
            0 <= m < slots.len() ==> map1[(#[trigger] slots[m]) as int] == values[buckets[k]@[m] as int].0,
        forall|s: int|
            0 <= s < map0.len() && (#[trigger] map1[s]) != map0[s] ==> exists|m: int|
                0 <= m < slots.len() && (#[trigger] slots[m]) as int == s,
    ensures
        placed_ok(
            values,
            hashes,
            buckets,
            seen.update(k, true),
            disps0.update(k, (d1, d2)),
            map1,
        ),
{
    let n = map0.len() as int;
    let bl = buckets.len() as int;
    let seen1 = seen.update(k, true);
    let disps1 = disps0.update(k, (d1, d2));
    let mem = buckets[k]@;

    // Members of bucket k land exactly on the recorded slots under the new
    // displacement table.
    assert forall|m: int| 0 <= m < mem.len() implies eslot(
        hashes,
        disps1,
        #[trigger] mem[m] as int,
        n,
    ) == slots[m] as int && map0[slots[m] as int] == '\0' by {
        assert(hashes[mem[m] as int].g as int % bl == k);
        assert(mslot(hashes, mem, m, d1, d2, n) == cslot(hashes[mem[m] as int], d1, d2, n));
        assert(map0[mslot(hashes, mem, m, d1, d2, n)] == '\0');
    }

    // Slots of other buckets are unaffected by the new pair.
    assert forall|k2: int, m2: int|
        0 <= k2 < bl && k2 != k && 0 <= m2 < buckets[k2]@.len() implies eslot(
        hashes,
        disps1,
        (#[trigger] buckets[k2]@[m2]) as int,
        n,
    ) == eslot(hashes, disps0, buckets[k2]@[m2] as int, n) by {
        assert(hashes[buckets[k2]@[m2] as int].g as int % bl == k2);
    }

    // A slot whose old value was occupied is untouched by the commit.
    assert forall|s: int| 0 <= s < n && map0[s] != '\0' implies (#[trigger] map1[s]) == map0[s] by {
        if map1[s] != map0[s] {
            let m = choose|m: int| 0 <= m < slots.len() && (#[trigger] slots[m]) as int == s;
            assert(map0[slots[m] as int] == '\0');
        }
    }

    // Clause 1: every committed member is stored at its slot.
    assert forall|k2: int, m2: int|
        #![trigger buckets[k2]@[m2]]
        0 <= k2 < bl && seen1[k2] && 0 <= m2 < buckets[k2]@.len() implies map1[eslot(
        hashes,
        disps1,
        buckets[k2]@[m2] as int,
        n,
    )] == values[buckets[k2]@[m2] as int].0 by {
        if k2 == k {
            assert(map1[slots[m2] as int] == values[mem[m2] as int].0);
        } else {
            let e = buckets[k2]@[m2] as int;
            assert(map0[eslot(hashes, disps0, e, n)] == values[e].0);
            assert(values[e].0 != '\0');
        }
    }

    // Clause 2: committed members' slots stay pairwise distinct.
    assert forall|k1: int, m1: int, k2: int, m2: int|
        #![trigger buckets[k1]@[m1], buckets[k2]@[m2]]
        0 <= k1 < bl && seen1[k1] && 0 <= m1 < buckets[k1]@.len() && 0 <= k2 < bl && seen1[k2] && 0
            <= m2 < buckets[k2]@.len() && (k1 != k2 || m1 != m2) implies eslot(
        hashes,
        disps1,
        buckets[k1]@[m1] as int,
        n,
    ) != eslot(hashes, disps1, buckets[k2]@[m2] as int, n) by {
        let e1 = buckets[k1]@[m1] as int;
        let e2 = buckets[k2]@[m2] as int;
        if k1 == k && k2 == k {
            if m1 < m2 {
                assert(mslot(hashes, mem, m1, d1, d2, n) != mslot(hashes, mem, m2, d1, d2, n));
            } else {
                assert(mslot(hashes, mem, m2, d1, d2, n) != mslot(hashes, mem, m1, d1, d2, n));
            }
        } else if k1 == k {
            assert(map0[eslot(hashes, disps0, e2, n)] == values[e2].0);
            assert(map0[slots[m1] as int] == '\0');
        } else if k2 == k {
            assert(map0[eslot(hashes, disps0, e1, n)] == values[e1].0);
            assert(map0[slots[m2] as int] == '\0');
        } else {
            assert(eslot(hashes, disps0, e1, n) != eslot(hashes, disps0, e2, n));
        }
    }

    // Clause 3: a slot is empty exactly when no committed member lands there.
    assert forall|s: int| 0 <= s < n implies ((#[trigger] map1[s]) == '\0' <==> !slot_used(
        hashes,
        buckets,
        seen1,
        disps1,
        s,
        n,
    )) by {
        if map1[s] == '\0' {
            // No new slot equals s, and no old bucket used s.
            if slot_used(hashes, buckets, seen1, disps1, s, n) {
                let (k2, m2) = choose|k2: int, m2: int|
                    #![trigger buckets[k2]@[m2]]
                    0 <= k2 < bl && seen1[k2] && 0 <= m2 < buckets[k2]@.len() && eslot(
                        hashes,
                        disps1,
                        buckets[k2]@[m2] as int,
                        n,
                    ) == s;
                if k2 == k {
                    assert(map1[slots[m2] as int] == values[mem[m2] as int].0);
                } else {
                    assert(map0[eslot(hashes, disps0, buckets[k2]@[m2] as int, n)]
                        == values[buckets[k2]@[m2] as int].0);
                }
            }
        } else {
            // Occupied: either untouched and occupied before, or newly written.
            if map1[s] == map0[s] {
                assert(map0[s] != '\0');
                assert(slot_used(hashes, buckets, seen, disps0, s, n));
                let (k2, m2) = choose|k2: int, m2: int|
                    #![trigger buckets[k2]@[m2]]
                    0 <= k2 < bl && seen[k2] && 0 <= m2 < buckets[k2]@.len() && eslot(
                        hashes,
                        disps0,
                        buckets[k2]@[m2] as int,
                        n,
                    ) == s;
                assert(seen1[k2] && eslot(hashes, disps1, buckets[k2]@[m2] as int, n) == s);
            } else {
                let m = choose|m: int| 0 <= m < slots.len() && (#[trigger] slots[m]) as int == s;
                assert(seen1[k] && eslot(hashes, disps1, mem[m] as int, n) == s);
                assert(buckets[k]@[m] == mem[m]);
            }
        }
    }
}

/// Commits one unplaced bucket: finds a fitting displacement pair, records it
/// in the displacement table, and writes every member's value into its slot.
/// Fails exactly when no candidate pair fits the bucket against the current
/// slot array.
#[verifier::loop_isolation(false)]
fn place_bucket(
    k: usize,
    values: &Vec<(char, Vec<u8>)>,
    hashes: &Vec<Hash>,
    buckets: &Vec<Vec<usize>>,
    seen: &mut Vec<bool>,
    disps: &mut Vec<(u32, u32)>,
    map: &mut Vec<char>,
    try_map: &mut Vec<u64>,
    generation: &mut u64,
    d1s: &Vec<u32>,
    d2s: &Vec<u32>,
) -> (ok: bool)
    requires
        1 <= old(map)@.len() <= 0xFFFF_FFFF,
        old(map)@.len() == values@.len(),
        hashes@.len() == values@.len(),
        forall|e: int| 0 <= e < values@.len() ==> (#[trigger] values@[e].0) != '\0',
        buckets_ok(values@.len() as int, hashes@, buckets@),
        old(seen)@.len() == buckets@.len(),
        old(disps)@.len() == buckets@.len(),
        old(try_map)@.len() == old(map)@.len(),
        forall|i: int| 0 <= i < old(try_map)@.len() ==> old(try_map)@[i] <= *old(generation),
        k < buckets@.len(),
        !old(seen)@[k as int],
        placed_ok(values@, hashes@, buckets@, old(seen)@, old(disps)@, old(map)@),
    ensures
        final(seen)@.len() == buckets@.len(),
        final(disps)@.len() == buckets@.len(),
        final(map)@.len() == old(map)@.len(),
        final(try_map)@.len() == old(map)@.len(),
        forall|i: int| 0 <= i < final(try_map)@.len() ==> final(try_map)@[i] <= *final(generation),
        ok ==> final(seen)@ == old(seen)@.update(k as int, true),
        ok ==> placed_ok(values@, hashes@, buckets@, final(seen)@, final(disps)@, final(map)@),
        !ok ==> forall|a: int, b: int|
            0 <= a < d1s@.len() && 0 <= b < d2s@.len() ==> !fits(
                old(map)@,
                hashes@,
                buckets@[k as int]@,
                #[trigger] d1s@[a],
                #[trigger] d2s@[b],
            ),
{
    let ghost n = map@.len() as int;
    let members = &buckets[k];
    let r = find_disp_pair(members, hashes, map, try_map, generation, d1s, d2s);
    match r {
        None => false,
        Some((d1, d2, slots)) => {
            let ghost map0 = map@;
            let ghost seen0 = seen@;
            disps[k] = (d1, d2);
            let ghost disps1 = disps@;
            let len = members.len();
            for m in 0..len
                invariant
                    map@.len() == map0.len(),
                    forall|m2: int|
                        0 <= m2 < m as int ==> map@[#[trigger] slots@[m2] as int] == values@[members@[m2] as int].0,
                    forall|s: int|
                        0 <= s < n && (#[trigger] map@[s]) != map0[s] ==> exists|m2: int|
                            0 <= m2 < m as int && (#[trigger] slots@[m2]) as int == s,
            {
                let s = slots[m];
                let e = members[m];
                proof {
                    assert(slots@[m as int] as int == mslot(hashes@, members@, m as int, d1, d2, n));
                }
                map[s] = values[e].0;
            }
            seen[k] = true;
            proof {
                lemma_commit_ok(
                    values@,
                    hashes@,
                    buckets@,
                    seen0,
                    disps1,
                    map0,
                    map@,
                    k as int,
                    d1,
                    d2,
                    slots@,
                );
                assert(seen@ =~= seen0.update(k as int, true));
            }
            true
        }
    }
}

/// With a single entry there is one bucket, one slot, and every candidate
/// displacement pair fits: the only member's slot is 0 modulo a table of
/// length one, and that slot is still empty while its bucket is unplaced.
/// So the search can never fail on a one-entry corpus.
proof fn lemma_single_entry_always_fits(
    values: Seq<(char, Vec<u8>)>,
    hashes: Seq<Hash>,
    buckets: Seq<Vec<usize>>,
    seen: Seq<bool>,
    disps: Seq<(u32, u32)>,
    map: Seq<char>,
    d1: u32,
    d2: u32,
)
    requires
        values.len() == 1,
        map.len() == 1,
        hashes.len() == 1,
        buckets.len() == 1,
        seen.len() == 1,
        buckets_ok(1, hashes, buckets),
        buckets[0]@.len() <= 1,
        !seen[0],
        placed_ok(values, hashes, buckets, seen, disps, map),
    ensures
        fits(map, hashes, buckets[0]@, d1, d2),
{
    let mem = buckets[0]@;
    assert(in_some_bucket(buckets, 0));
    let (k2, m2) = choose|k2: int, m2: int|
        #![trigger buckets[k2]@[m2]]
        0 <= k2 < buckets.len() && 0 <= m2 < buckets[k2]@.len() && buckets[k2]@[m2] == 0;
    assert(mem.len() == 1);
    // The single slot is still empty: no placed bucket exists.
    assert(map[0] == '\0') by {
        if slot_used(hashes, buckets, seen, disps, 0, 1) {
            let (k3, m3) = choose|k3: int, m3: int|
                #![trigger buckets[k3]@[m3]]
                0 <= k3 < buckets.len() && seen[k3] && 0 <= m3 < buckets[k3]@.len() && eslot(
                    hashes,
                    disps,
                    buckets[k3]@[m3] as int,
                    1,
                ) == 0;
            assert(!seen[k3]);
        }
    }
    assert forall|m: int| 0 <= m < mem.len() implies map[#[trigger] mslot(
        hashes,
        mem,
        m,
        d1,
        d2,
        1,
    )] == '\0' by {
        assert(mslot(hashes, mem, m, d1, d2, 1) == 0);
    }
}

/// One construction attempt under `seed`: hash every entry, group the
/// entries into buckets by the `g` field, and commit the buckets
/// largest-first, searching shuffled candidate orders for a displacement
/// pair per bucket. Returns the displacement table and the slot array, or
/// `None` when some bucket exhausted every candidate pair; a one-entry
/// corpus always succeeds.
#[verifier::loop_isolation(false)]
pub fn try_phf_table(
    values: &Vec<(char, Vec<u8>)>,
    lambda: usize,
    seed: u64,
    rng: &mut rand::rngs::StdRng,
) -> (r: Option<(Vec<(u32, u32)>, Vec<char>)>)
    requires
        1 <= values@.len() <= 0xFFFF_FFFF,
        1 <= lambda,
        values@.len() + lambda <= usize::MAX,
        forall|e: int| 0 <= e < values@.len() ==> (#[trigger] values@[e].0) != '\0',
    ensures
        r matches Some(t) ==> phf_ok(values@, lambda as int, seed, t.0@, t.1@),
        values@.len() == 1 ==> r is Some,
{
    let n = values.len();
    let mut hashes: Vec<Hash> = Vec::new();
    for e in 0..n
        invariant
            hashes@.len() == e as int,
            forall|i: int|
                0 <= i < e as int ==> #[trigger] hashes@[i] == entry_hash(values@[i].1@, seed),
    {
        let hv = split(hash(&values[e].1, seed));
        hashes.push(hv);
    }
    let bl = (n + lambda - 1) / lambda;
    assert(1 <= bl) by {
        assert((n as int + lambda as int - 1) / lambda as int >= 1) by (nonlinear_arith)
            requires
                n >= 1 && lambda >= 1,
        ;
    }
    let mut buckets: Vec<Vec<usize>> = Vec::new();
    for k in 0..bl
        invariant
            buckets@.len() == k as int,
            forall|k2: int| 0 <= k2 < k as int ==> (#[trigger] buckets@[k2]@).len() == 0,
    {
        buckets.push(Vec::new());
    }
    for e in 0..n
        invariant
            buckets@.len() == bl as int,
            forall|k: int, m: int|
                #![trigger buckets@[k]@[m]]
                0 <= k < bl as int && 0 <= m < buckets@[k]@.len() ==> buckets@[k]@[m] < e
                    && hashes@[buckets@[k]@[m] as int].g as int % (bl as int) == k,
            forall|e2: int| 0 <= e2 < e as int ==> in_some_bucket(buckets@, e2),
            forall|k: int| 0 <= k < bl as int ==> (#[trigger] buckets@[k]@).len() <= e as int,
    {
        let kb = (hashes[e].g as usize) % bl;
        let ghost before = buckets@;
        let ghost pm = buckets@[kb as int]@.len() as int;
        buckets[kb].push(e);
        proof {
            assert(buckets@[kb as int]@ =~= before[kb as int]@.push(e as usize));
            assert(buckets@[kb as int]@[pm] == e);
            assert forall|e2: int| 0 <= e2 < e as int + 1 implies in_some_bucket(
                buckets@,
                e2,
            ) by {
                if e2 == e as int {
                    assert(buckets@[kb as int]@[pm] == e2);
                } else {
                    assert(in_some_bucket(before, e2));
                    let (k2, m2) = choose|k2: int, m2: int|
                        #![trigger before[k2]@[m2]]
                        0 <= k2 < before.len() && 0 <= m2 < before[k2]@.len() && before[k2]@[m2]
                            == e2;
                    assert(buckets@[k2]@[m2] == e2);
                }
            }
        }
    }
    // The slot array, displacement table, scratch array, and commit marks.
    let mut map: Vec<char> = Vec::new();
    for i in 0..n
        invariant
            map@.len() == i as int,
            forall|j: int| 0 <= j < i as int ==> #[trigger] map@[j] == '\0',
    {
        map.push('\0');
    }
    let mut disps: Vec<(u32, u32)> = Vec::new();
    for k in 0..bl
        invariant
            disps@.len() == k as int,
    {
        disps.push((0, 0));
    }
    let mut try_map: Vec<u64> = Vec::new();
    for i in 0..n
        invariant
            try_map@.len() == i as int,
            forall|j: int| 0 <= j < i as int ==> #[trigger] try_map@[j] == 0,
    {
        try_map.push(0);
    }
    let mut generation: u64 = 0;
    let mut seen: Vec<bool> = Vec::new();
    for k in 0..bl
        invariant
            seen@.len() == k as int,
            forall|k2: int| 0 <= k2 < k as int ==> !(#[trigger] seen@[k2]),
    {
        seen.push(false);
    }
    proof {
        assert forall|s: int| 0 <= s < n as int implies ((#[trigger] map@[s]) == '\0' <==> !slot_used(
            hashes@,
            buckets@,
            seen@,
            disps@,
            s,
            n as int,
        )) by {
            if slot_used(hashes@, buckets@, seen@, disps@, s, n as int) {
                let (k2, m2) = choose|k2: int, m2: int|
                    #![trigger buckets@[k2]@[m2]]
                    0 <= k2 < buckets@.len() && seen@[k2] && 0 <= m2 < buckets@[k2]@.len() && eslot(
                        hashes@,
                        disps@,
                        buckets@[k2]@[m2] as int,
                        n as int,
                    ) == s;
                assert(!seen@[k2]);
            }
        }
    }
    // Shuffled candidate orders for the displacement pairs.
    let mut d1s: Vec<u32> = Vec::new();
    for i in 0..n
        invariant
            d1s@.len() == i as int,
    {
        d1s.push(i as u32);
    }
    let mut d2s: Vec<u32> = Vec::new();
    for i in 0..n
        invariant
            d2s@.len() == i as int,
    {
        d2s.push(i as u32);
    }
    crate::rng::shuffle(&mut d1s, rng);
    crate::rng::shuffle(&mut d2s, rng);
    // Group the bucket indices by member count, so buckets can be committed
    // largest-first (ties by ascending index) while the slot array is still
    // mostly empty.
    let mut groups: Vec<Vec<usize>> = Vec::new();
    for s in 0..(n + 1)
        invariant
            groups@.len() == s as int,
            forall|g: int, p: int|
                #![trigger groups@[g]@[p]]
                0 <= g < s as int && 0 <= p < groups@[g]@.len() ==> groups@[g]@[p] < bl,
    {
        groups.push(Vec::new());
    }
    for k in 0..bl
        invariant
            groups@.len() == n as int + 1,
            forall|g: int, p: int|
                #![trigger groups@[g]@[p]]
                0 <= g < n as int + 1 && 0 <= p < groups@[g]@.len() ==> groups@[g]@[p] < bl,
    {
        let sz = buckets[k].len();
        groups[sz].push(k);
    }
    let mut order: Vec<usize> = Vec::new();
    let mut s = n + 1;
    while s > 0
        invariant
            s <= n + 1,
            forall|p: int| 0 <= p < order@.len() ==> (#[trigger] order@[p]) < bl,
        decreases s,
    {
        s = s - 1;
        let glen = groups[s].len();
        for p in 0..glen
            invariant
                glen == groups@[s as int]@.len(),
                forall|p2: int| 0 <= p2 < order@.len() ==> (#[trigger] order@[p2]) < bl,
        {
            let k = groups[s][p];
            order.push(k);
        }
    }
    // Commit the buckets in the planned order; the sweep afterwards picks up
    // any bucket the order missed, so every bucket is committed exactly once.
    let mut pos: usize = 0;
    while pos < order.len()
        invariant
            pos <= order@.len(),
            seen@.len() == bl as int,
            disps@.len() == bl as int,
            map@.len() == n as int,
            try_map@.len() == n as int,
            forall|i: int| 0 <= i < try_map@.len() ==> try_map@[i] <= generation,
            placed_ok(values@, hashes@, buckets@, seen@, disps@, map@),
        decreases order@.len() - pos,
    {
        let k = order[pos];
        if !seen[k] {
            let ghost m0 = map@;
            let ghost s0 = seen@;
            let ghost dp0 = disps@;
            let ok = place_bucket(
                k,
                values,
                &hashes,
                &buckets,
                &mut seen,
                &mut disps,
                &mut map,
                &mut try_map,
                &mut generation,
                &d1s,
                &d2s,
            );
            if !ok {
                proof {
                    if n == 1 {
                        assert(lambda as int / lambda as int == 1) by (nonlinear_arith)
                            requires
                                lambda >= 1,
                        ;
                        assert(bl == 1);
                        lemma_single_entry_always_fits(
                            values@,
                            hashes@,
                            buckets@,
                            s0,
                            dp0,
                            m0,
                            d1s@[0],
                            d2s@[0],
                        );
                        assert(!fits(m0, hashes@, buckets@[k as int]@, d1s@[0], d2s@[0]));
                        assert(false);
                    }
                }
                return None;
            }
        }
        pos = pos + 1;
    }
    for k in 0..bl
        invariant
            seen@.len() == bl as int,
            disps@.len() == bl as int,
            map@.len() == n as int,
            try_map@.len() == n as int,
            forall|i: int| 0 <= i < try_map@.len() ==> try_map@[i] <= generation,
            placed_ok(values@, hashes@, buckets@, seen@, disps@, map@),
            forall|k2: int| 0 <= k2 < k as int ==> #[trigger] seen@[k2],
    {
        if !seen[k] {
            let ghost m0 = map@;
            let ghost s0 = seen@;
            let ghost dp0 = disps@;
            let ok = place_bucket(
                k,
                values,
                &hashes,
                &buckets,
                &mut seen,
                &mut disps,
                &mut map,
                &mut try_map,
                &mut generation,
                &d1s,
                &d2s,
            );
            if !ok {
                proof {
                    if n == 1 {
                        assert(lambda as int / lambda as int == 1) by (nonlinear_arith)
                            requires
                                lambda >= 1,
                        ;
                        assert(bl == 1);
                        lemma_single_entry_always_fits(
                            values@,
                            hashes@,
                            buckets@,
                            s0,
                            dp0,
                            m0,
                            d1s@[0],
                            d2s@[0],
                        );
                        assert(!fits(m0, hashes@, buckets@[k as int]@, d1s@[0], d2s@[0]));
                        assert(false);
                    }
                }
                return None;
            }
        }
    }
    proof {
        let gn = n as int;
        // Every entry is stored at the slot the emitted structures assign it.
        assert forall|i: int| 0 <= i < gn implies map@[slot_of(
            #[trigger] values@[i].1@,
            seed,
            disps@,
            gn,
        )] == values@[i].0 && eslot(hashes@, disps@, i, gn) == slot_of(
            values@[i].1@,
            seed,
            disps@,
            gn,
        ) by {
            assert(in_some_bucket(buckets@, i));
            let (k, m) = choose|k: int, m: int|
                #![trigger buckets@[k]@[m]]
                0 <= k < buckets@.len() && 0 <= m < buckets@[k]@.len() && buckets@[k]@[m] == i;
            assert(seen@[k]);
            assert(map@[eslot(hashes@, disps@, buckets@[k]@[m] as int, gn)] == values@[buckets@[k]@[m] as int].0);
            assert(hashes@[i] == entry_hash(values@[i].1@, seed));
        }
        // Distinct entries occupy distinct slots.
        assert forall|i: int, j: int| 0 <= i < j < gn implies slot_of(
            #[trigger] values@[i].1@,
            seed,
            disps@,
            gn,
        ) != slot_of(#[trigger] values@[j].1@, seed, disps@, gn) by {
            assert(in_some_bucket(buckets@, i));
            assert(in_some_bucket(buckets@, j));
            let (k1, m1) = choose|k1: int, m1: int|
                #![trigger buckets@[k1]@[m1]]
                0 <= k1 < buckets@.len() && 0 <= m1 < buckets@[k1]@.len() && buckets@[k1]@[m1] == i;
            let (k2, m2) = choose|k2: int, m2: int|
                #![trigger buckets@[k2]@[m2]]
                0 <= k2 < buckets@.len() && 0 <= m2 < buckets@[k2]@.len() && buckets@[k2]@[m2] == j;
            assert(buckets@[k1]@[m1] == i && buckets@[k2]@[m2] == j);
            assert(eslot(hashes@, disps@, i, gn) != eslot(hashes@, disps@, j, gn));
        }
        // A slot reads as the empty marker exactly when no entry maps to it.
        assert forall|s: int| 0 <= s < gn implies ((#[trigger] map@[s]) == '\0' <==> !(exists|i: int|
            0 <= i < gn && slot_of(#[trigger] values@[i].1@, seed, disps@, gn) == s)) by {
            if map@[s] == '\0' {
                if exists|i: int|
                    0 <= i < gn && slot_of(#[trigger] values@[i].1@, seed, disps@, gn) == s {
                    let i = choose|i: int|
                        0 <= i < gn && slot_of(#[trigger] values@[i].1@, seed, disps@, gn) == s;
                    assert(in_some_bucket(buckets@, i));
                    let (k, m) = choose|k: int, m: int|
                        #![trigger buckets@[k]@[m]]
                        0 <= k < buckets@.len() && 0 <= m < buckets@[k]@.len() && buckets@[k]@[m]
                            == i;
                    assert(slot_used(hashes@, buckets@, seen@, disps@, s, gn));
                }
            } else {
                assert(slot_used(hashes@, buckets@, seen@, disps@, s, gn));
                let (k, m) = choose|k: int, m: int|
                    #![trigger buckets@[k]@[m]]
                    0 <= k < buckets@.len() && seen@[k] && 0 <= m < buckets@[k]@.len() && eslot(
                        hashes@,
                        disps@,
                        buckets@[k]@[m] as int,
                        gn,
                    ) == s;
                let i = buckets@[k]@[m] as int;
                assert(slot_of(values@[i].1@, seed, disps@, gn) == s);
            }
        }
    }
    Some((disps, map))
}

/// Exhaustion of the construction retry budget; carries the corpus size,
/// the load factor and the budget the construction was attempted with.
#[derive(Clone, Copy, PartialEq, Eq, Structural, Debug)]
pub struct PhfError {
    pub table_len: usize,
    pub lambda: usize,
    pub max_tries: usize,
}

/// Fixed seed of the stream that draws the per-attempt hash seeds, so that
/// repeated runs over the same corpus and parameters reproduce the same
/// output.
pub const INITIAL_RNG_SEED: u64 = 0xf0f0f0f0;

/// Builds a perfect hash table for the corpus: draws a fresh seed from a
/// deterministically seeded stream for each attempt, and returns the first
/// attempt's result that satisfies `phf_ok`. Exhausting the retry budget is
/// reported with the corpus size and load factor; the error is the only
/// outcome besides a table that satisfies `phf_ok`. A zero budget always
/// exhausts, and a one-entry corpus succeeds whenever the budget allows an
/// attempt: there no random draw can decide the outcome.
#[verifier::loop_isolation(false)]
pub fn create_phf(
    data: &Vec<(char, Vec<u8>)>,
    lambda: usize,
    max_tries: usize,
) -> (r: Result<(u64, Vec<(u32, u32)>, Vec<char>), PhfError>)
    requires
        1 <= data@.len() <= 0xFFFF_FFFF,
        1 <= lambda,
        data@.len() + lambda <= usize::MAX,
        forall|e: int| 0 <= e < data@.len() ==> (#[trigger] data@[e].0) != '\0',
    ensures
        r matches Ok(t) ==> phf_ok(data@, lambda as int, t.0, t.1@, t.2@),
        r matches Err(e) ==> e.table_len == data@.len() && e.lambda == lambda && e.max_tries
            == max_tries,
        max_tries == 0 ==> r is Err,
        data@.len() == 1 && max_tries >= 1 ==> r is Ok,
{
    let mut rng = crate::rng::rng_from_seed(INITIAL_RNG_SEED);
    for i in 0..max_tries
        invariant
            data@.len() == 1 ==> i == 0,
    {
        let seed = crate::rng::next_u64(&mut rng);
        match try_phf_table(data, lambda, seed, &mut rng) {
            Some(t) => {
                return Ok((seed, t.0, t.1));
            },
            None => {
                proof {
                    assert(data@.len() != 1);
                }
            },
        }
    }
    Err(PhfError { table_len: data.len(), lambda, max_tries })
}

} // verus!
