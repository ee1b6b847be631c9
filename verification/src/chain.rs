//! Cluster chains in the allocation table: following a file's chain,
//! freeing it, and allocating and linking a new one.
use vstd::prelude::*;
use crate::fat_table::{law_fat_read_after_write, law_fat_write_keeps_others, FAT12_EOF, FAT12_BAD_CLUSTER, FAT12_FREE_CLUSTER, entry_in_table, fat_entry, fat_with_entry, get_fat_entry, set_fat_entry};

verus! {

/// How many links a chain may have before it is taken to loop: more than
/// there are 12-bit cluster numbers.
pub const CHAIN_LIMIT: u64 = 4096;

/// First cluster number past the range that the free-cluster scan covers.
pub const SCAN_END: u16 = 0xFF0;

/// A cluster that holds data: 2 or more and below the bad-cluster mark.
pub open spec fn data_cluster(c: int) -> bool {
    2 <= c < FAT12_BAD_CLUSTER
}

/// The clusters of the chain that starts at `c`, in order, each followed by
/// the entry the table holds for it until a value that is not a data cluster;
/// nothing where the chain leaves the table or has more than `fuel` links.
pub open spec fn chain_from(fat: Seq<u8>, c: int, fuel: nat) -> Option<Seq<u16>>
    decreases fuel,
{
    if !data_cluster(c) {
        Some(seq![])
    } else if fuel == 0 || !entry_in_table(fat.len() as int, c) {
        None
    } else {
        match chain_from(fat, fat_entry(fat, c) as int, (fuel - 1) as nat) {
            Some(rest) => Some(seq![c as u16] + rest),
            None => None,
        }
    }
}

/// The chain of a file, within the chain limit.
pub open spec fn file_chain(fat: Seq<u8>, first: int) -> Option<Seq<u16>> {
    chain_from(fat, first, CHAIN_LIMIT as nat)
}

/// The table after freeing the chain from `c`, entry by entry, and whether
/// the walk ended normally (rather than leaving the table or running out of
/// fuel, where the table is as far as the walk got).
pub open spec fn freed_from(fat: Seq<u8>, c: int, fuel: nat) -> (Seq<u8>, bool)
    decreases fuel,
{
    if !data_cluster(c) {
        (fat, true)
    } else if fuel == 0 || !entry_in_table(fat.len() as int, c) {
        (fat, false)
    } else {
        freed_from(fat_with_entry(fat, c, FAT12_FREE_CLUSTER), fat_entry(fat, c) as int, (fuel - 1) as nat)
    }
}

/// The table after freeing a file's chain.
pub open spec fn freed_chain(fat: Seq<u8>, first: int) -> (Seq<u8>, bool) {
    freed_from(fat, first, CHAIN_LIMIT as nat)
}

/// The first free cluster from `c` on, below 0xFF0, whose entry lies in the
/// table; the scan stops where entries leave the table.
pub open spec fn first_free_from(fat: Seq<u8>, c: int) -> Option<u16>
    decreases SCAN_END - c,
{
    if c < 2 || c >= SCAN_END || !entry_in_table(fat.len() as int, c) {
        None
    } else if fat_entry(fat, c) == FAT12_FREE_CLUSTER {
        Some(c as u16)
    } else {
        first_free_from(fat, c + 1)
    }
}

/// The first free cluster of the table.
pub open spec fn first_free(fat: Seq<u8>) -> Option<u16> {
    first_free_from(fat, 2)
}

/// Allocating `n` clusters one after the other, each the first free one and
/// marked end-of-chain at once: the clusters taken, the table after, and
/// whether all `n` were found.
pub open spec fn allocated(fat: Seq<u8>, n: nat) -> (Seq<u16>, Seq<u8>, bool)
    decreases n,
{
    if n == 0 {
        (seq![], fat, true)
    } else {
        let (cs, f, ok) = allocated(fat, (n - 1) as nat);
        if !ok {
            (cs, f, false)
        } else {
            match first_free(f) {
                None => (cs, f, false),
                Some(c) => (cs.push(c), fat_with_entry(f, c as int, FAT12_EOF), true),
            }
        }
    }
}

/// The table with each of the first `k` clusters pointing at the next one.
pub open spec fn linked_upto(fat: Seq<u8>, cs: Seq<u16>, k: int) -> Seq<u8>
    decreases k,
{
    if k <= 0 {
        fat
    } else {
        fat_with_entry(linked_upto(fat, cs, k - 1), cs[k - 1] as int, cs[k])
    }
}

/// The table with the clusters linked in order and the last one marked
/// end-of-chain.
pub open spec fn linked(fat: Seq<u8>, cs: Seq<u16>) -> Seq<u8> {
    fat_with_entry(linked_upto(fat, cs, cs.len() - 1), cs[cs.len() - 1] as int, FAT12_EOF)
}

pub open spec fn prepend(p: Seq<u16>, o: Option<Seq<u16>>) -> Option<Seq<u16>> {
    match o {
        Some(r) => Some(p + r),
        None => None,
    }
}

/// The clusters of a file's chain, in order; an error where the chain leaves
/// the table or loops.
pub fn file_clusters(fat: &[u8], first: u16) -> (r: Result<Vec<u16>, &'static str>)
    ensures
        match r {
            Ok(cs) => file_chain(fat@, first as int) == Some(cs@),
            Err(m) => file_chain(fat@, first as int) is None && m == "Corrupt cluster chain",
        },
{
    let mut out: Vec<u16> = Vec::new();
    let mut c = first;
    let mut fuel: u64 = CHAIN_LIMIT;
    while c >= 2 && c < FAT12_BAD_CLUSTER
        invariant
            file_chain(fat@, first as int) == prepend(out@, chain_from(fat@, c as int, fuel as nat)),
        decreases fuel,
    {
        if fuel == 0 || !((c as usize * 3) / 2 + 1 < fat.len()) {
            return Err("Corrupt cluster chain");
        }
        let next = get_fat_entry(fat, c);
        let ghost before = out@;
        out.push(c);
        proof {
            let tail = chain_from(fat@, next as int, (fuel - 1) as nat);
            match tail {
                Some(t) => assert(before + (seq![c] + t) =~= out@ + t),
                None => {},
            }
        }
        c = next;
        fuel = fuel - 1;
    }
    assert(out@ + Seq::<u16>::empty() =~= out@);
    Ok(out)
}

/// Frees the chain that starts at `first`, setting each entry to free until
/// the chain ends; false where the chain leaves the table or loops, with the
/// entries freed so far.
pub fn free_cluster_chain(fat: &mut Vec<u8>, first: u16) -> (ok: bool)
    ensures
        (final(fat)@, ok) == freed_chain(old(fat)@, first as int),
        final(fat)@.len() == old(fat)@.len(),
{
    let mut c = first;
    let mut fuel: u64 = CHAIN_LIMIT;
    while c >= 2 && c < FAT12_BAD_CLUSTER
        invariant
            freed_chain(old(fat)@, first as int) == freed_from(fat@, c as int, fuel as nat),
            fat@.len() == old(fat)@.len(),
        decreases fuel,
    {
        if fuel == 0 || !((c as usize * 3) / 2 + 1 < fat.len()) {
            return false;
        }
        let next = get_fat_entry(fat.as_slice(), c);
        set_fat_entry(fat, c, FAT12_FREE_CLUSTER);
        c = next;
        fuel = fuel - 1;
        if next >= FAT12_EOF {
            assert(freed_from(fat@, c as int, fuel as nat) == (fat@, true));
            return true;
        }
    }
    true
}

/// The first free cluster between 2 and 0xFF0 whose entry lies in the table.
pub fn find_free_cluster(fat: &[u8]) -> (r: Option<u16>)
    ensures
        r == first_free(fat@),
        r matches Some(c) ==> 2 <= c < SCAN_END && entry_in_table(fat@.len() as int, c as int),
{
    let mut c: u16 = 2;
    while c < SCAN_END
        invariant
            2 <= c <= SCAN_END,
            first_free(fat@) == first_free_from(fat@, c as int),
        decreases SCAN_END - c,
    {
        if !((c as usize * 3) / 2 + 1 < fat.len()) {
            return None;
        }
        if get_fat_entry(fat, c) == FAT12_FREE_CLUSTER {
            return Some(c);
        }
        c = c + 1;
    }
    None
}

proof fn lemma_first_free_in_table(fat: Seq<u8>, c: int)
    ensures
        first_free_from(fat, c) matches Some(x) ==> 2 <= x < SCAN_END && entry_in_table(fat.len() as int, x as int)
            && fat_entry(fat, x as int) == FAT12_FREE_CLUSTER,
    decreases SCAN_END - c,
{
    if 2 <= c < SCAN_END && entry_in_table(fat.len() as int, c) && fat_entry(fat, c) != FAT12_FREE_CLUSTER {
        lemma_first_free_in_table(fat, c + 1);
    }
}

/// Takes the first free cluster and marks it end-of-chain.
pub fn allocate_cluster(fat: &mut Vec<u8>) -> (r: Result<u16, &'static str>)
    ensures
        match first_free(old(fat)@) {
            Some(c) => r == Ok::<u16, &'static str>(c) && final(fat)@ == fat_with_entry(old(fat)@, c as int, FAT12_EOF),
            None => r == Err::<u16, &'static str>("No free clusters") && final(fat)@ == old(fat)@,
        },
{
    match find_free_cluster(fat.as_slice()) {
        None => Err("No free clusters"),
        Some(c) => {
            set_fat_entry(fat, c, FAT12_EOF);
            Ok(c)
        },
    }
}

/// The clusters an allocation takes all have entries in the table, and the
/// table keeps its length.
pub proof fn lemma_allocated_in_table(fat: Seq<u8>, n: nat)
    ensures
        allocated(fat, n).1.len() == fat.len(),
        allocated(fat, n).0.len() <= n,
        allocated(fat, n).2 ==> allocated(fat, n).0.len() == n,
        forall|i: int| 0 <= i < allocated(fat, n).0.len() ==> #[trigger] entry_in_table(fat.len() as int, allocated(fat, n).0[i] as int),
        forall|i: int| 0 <= i < allocated(fat, n).0.len() ==> 2 <= #[trigger] allocated(fat, n).0[i] < SCAN_END,
    decreases n,
{
    if n > 0 {
        lemma_allocated_in_table(fat, (n - 1) as nat);
        let (cs, f, ok) = allocated(fat, (n - 1) as nat);
        lemma_first_free_in_table(f, 2);
    }
}

/// Allocates `n` clusters, each the first free one, marked end-of-chain at
/// once; stops with an error at the first that cannot be found, keeping the
/// ones taken before.
pub fn allocate_clusters(fat: &mut Vec<u8>, n: usize) -> (r: Result<Vec<u16>, &'static str>)
    ensures
        final(fat)@.len() == old(fat)@.len(),
        r matches Ok(cs) ==> cs@.len() == n && forall|i: int| 0 <= i < cs@.len() ==> #[trigger] entry_in_table(old(fat)@.len() as int, cs@[i] as int),
        r matches Ok(cs) ==> forall|i: int| 0 <= i < cs@.len() ==> 2 <= #[trigger] cs@[i] < SCAN_END,
        final(fat)@ == allocated(old(fat)@, n as nat).1,
        match r {
            Ok(cs) => allocated(old(fat)@, n as nat).2 && cs@ == allocated(old(fat)@, n as nat).0,
            Err(m) => !allocated(old(fat)@, n as nat).2 && m == "No free clusters",
        },
{
    let mut out: Vec<u16> = Vec::new();
    let mut i: usize = 0;
    proof {
        lemma_allocated_in_table(old(fat)@, n as nat);
    }
    while i < n
        invariant
            i <= n,
            (out@, fat@, true) == allocated(old(fat)@, i as nat),
            fat@.len() == old(fat)@.len(),
            out@.len() == i,
            forall|j: int| 0 <= j < out@.len() ==> #[trigger] entry_in_table(old(fat)@.len() as int, out@[j] as int),
            forall|j: int| 0 <= j < out@.len() ==> 2 <= #[trigger] out@[j] < SCAN_END,
        decreases n - i,
    {
        proof {
            assert(allocated(old(fat)@, (i + 1) as nat) == {
                let (cs, f, ok) = allocated(old(fat)@, i as nat);
                match first_free(f) {
                    None => (cs, f, false),
                    Some(c) => (cs.push(c), fat_with_entry(f, c as int, FAT12_EOF), true),
                }
            });
        }
        proof {
            lemma_first_free_in_table(fat@, 2);
        }
        match allocate_cluster(fat) {
            Ok(c) => out.push(c),
            Err(m) => {
                proof {
                    lemma_allocated_stops(old(fat)@, (i + 1) as nat, n as nat);
                }
                return Err(m);
            },
        }
        i = i + 1;
    }
    Ok(out)
}

proof fn lemma_allocated_stops(fat: Seq<u8>, k: nat, n: nat)
    requires
        k <= n,
        !allocated(fat, k).2,
    ensures
        allocated(fat, n) == allocated(fat, k),
    decreases n - k,
{
    if k < n {
        lemma_allocated_stops(fat, k, (n - 1) as nat);
    }
}

/// Links the clusters in order, each entry pointing at the next cluster, and
/// marks the last one end-of-chain.
pub fn link_clusters(fat: &mut Vec<u8>, cs: &Vec<u16>)
    requires
        cs@.len() >= 1,
        forall|i: int| 0 <= i < cs@.len() ==> #[trigger] entry_in_table(old(fat)@.len() as int, cs@[i] as int),
    ensures
        final(fat)@ == linked(old(fat)@, cs@),
        final(fat)@.len() == old(fat)@.len(),
{
    let mut i: usize = 0;
    let last = cs.len() - 1;
    while i < last
        invariant
            i <= last,
            last == cs@.len() - 1,
            fat@ == linked_upto(old(fat)@, cs@, i as int),
            fat@.len() == old(fat)@.len(),
            forall|j: int| 0 <= j < cs@.len() ==> #[trigger] entry_in_table(old(fat)@.len() as int, cs@[j] as int),
        decreases cs.len() - i,
    {
        assert(entry_in_table(old(fat)@.len() as int, cs@[i as int] as int));
        set_fat_entry(fat, cs[i], cs[i + 1]);
        i = i + 1;
    }
    assert(entry_in_table(old(fat)@.len() as int, cs@[last as int] as int));
    set_fat_entry(fat, cs[last], FAT12_EOF);
}

/// Allocating `n` clusters never hands out the same cluster twice: each
/// cluster taken was free before, ends marked end-of-chain, and every other
/// entry of the table is left as it was.
#[verifier::spinoff_prover]
pub proof fn law_allocation_distinct(fat: Seq<u8>, n: nat)
    ensures
        ({
            let (cs, f, ok) = allocated(fat, n);
            &&& forall|i: int, j: int| 0 <= i < j < cs.len() ==> cs[i] != cs[j]
            &&& forall|i: int| 0 <= i < cs.len() ==> fat_entry(fat, #[trigger] cs[i] as int) == FAT12_FREE_CLUSTER
            &&& forall|i: int| 0 <= i < cs.len() ==> fat_entry(f, #[trigger] cs[i] as int) == FAT12_EOF
            &&& forall|d: int| #![trigger fat_entry(f, d)] entry_in_table(fat.len() as int, d)
                && (forall|k: int| 0 <= k < cs.len() ==> cs[k] as int != d) ==> fat_entry(f, d) == fat_entry(fat, d)
        }),
    decreases n,
{
    lemma_allocated_in_table(fat, n);
    if n > 0 {
        law_allocation_distinct(fat, (n - 1) as nat);
        lemma_allocated_in_table(fat, (n - 1) as nat);
        let (cs, f, ok) = allocated(fat, (n - 1) as nat);
        if ok {
            lemma_first_free_in_table(f, 2);
            match first_free(f) {
                None => {},
                Some(c) => {
                    let nf = fat_with_entry(f, c as int, FAT12_EOF);
                    let ncs = cs.push(c);
                    assert(f.len() == fat.len());
                    assert(!cs.contains(c)) by {
                        if cs.contains(c) {
                            let k = choose|k: int| 0 <= k < cs.len() && cs[k] == c;
                            assert(fat_entry(f, cs[k] as int) == FAT12_EOF);
                        }
                    }
                    law_fat_read_after_write(f, c as int, FAT12_EOF);
                    assert forall|i: int| 0 <= i < ncs.len() implies fat_entry(nf, #[trigger] ncs[i] as int) == FAT12_EOF by {
                        if i < cs.len() {
                            assert(cs[i] != c);
                            law_fat_write_keeps_others(f, c as int, cs[i] as int, FAT12_EOF);
                        }
                    }
                    assert forall|i: int| 0 <= i < ncs.len() implies fat_entry(fat, #[trigger] ncs[i] as int) == FAT12_FREE_CLUSTER by {
                        if i == cs.len() {
                            assert(fat_entry(f, c as int) == fat_entry(fat, c as int));
                        }
                    }
                    assert forall|d: int| #![trigger fat_entry(nf, d)] entry_in_table(fat.len() as int, d)
                        && (forall|k: int| 0 <= k < ncs.len() ==> ncs[k] as int != d)
                        implies fat_entry(nf, d) == fat_entry(fat, d) by {
                        assert(ncs[cs.len() as int] as int != d);
                        law_fat_write_keeps_others(f, c as int, d, FAT12_EOF);
                        assert forall|k: int| 0 <= k < cs.len() implies cs[k] as int != d by {
                            assert(ncs[k] == cs[k]);
                        }
                    }
                    assert forall|i: int, j: int| 0 <= i < j < ncs.len() implies ncs[i] != ncs[j] by {
                        if j == cs.len() {
                            assert(cs.contains(ncs[i]));
                        }
                    }
                },
            }
        }
    }
}

/// Distinct data clusters with entries in a table of `len` bytes, fewer than
/// the chain limit.
pub open spec fn chainable(len: int, cs: Seq<u16>) -> bool {
    &&& 1 <= cs.len() < CHAIN_LIMIT
    &&& forall|i: int| 0 <= i < cs.len() ==> entry_in_table(len, #[trigger] cs[i] as int)
    &&& forall|i: int| 0 <= i < cs.len() ==> 2 <= #[trigger] cs[i] < SCAN_END
    &&& forall|i: int, j: int| 0 <= i < j < cs.len() ==> cs[i] != cs[j]
}

#[verifier::spinoff_prover]
#[verifier::rlimit(30)]
proof fn lemma_linked_upto(fat: Seq<u8>, cs: Seq<u16>, m: int)
    requires
        chainable(fat.len() as int, cs),
        0 <= m <= cs.len() - 1,
    ensures
        linked_upto(fat, cs, m).len() == fat.len(),
        forall|j: int| 0 <= j < m ==> fat_entry(linked_upto(fat, cs, m), #[trigger] cs[j] as int) == cs[j + 1],
        forall|j: int| m <= j < cs.len() ==> fat_entry(linked_upto(fat, cs, m), #[trigger] cs[j] as int) == fat_entry(fat, cs[j] as int),
    decreases m,
{
    if m > 0 {
        lemma_linked_upto(fat, cs, m - 1);
        let prev = linked_upto(fat, cs, m - 1);
        let c = cs[m - 1] as int;
        assert(entry_in_table(fat.len() as int, c));
        law_fat_read_after_write(prev, c, cs[m]);
        assert(cs[m] % 4096 == cs[m]);
        assert forall|j: int| 0 <= j < cs.len() && j != m - 1 implies fat_entry(linked_upto(fat, cs, m), #[trigger] cs[j] as int)
            == fat_entry(prev, cs[j] as int) by {
            assert(entry_in_table(fat.len() as int, cs[j] as int));
            if j < m - 1 {
                assert(cs[j] != cs[m - 1]);
            } else {
                assert(cs[m - 1] != cs[j]);
            }
            law_fat_write_keeps_others(prev, c, cs[j] as int, cs[m]);
        }
    }
}

proof fn lemma_chain_tail(l: Seq<u8>, cs: Seq<u16>, k: int, fuel: nat)
    requires
        chainable(l.len() as int, cs),
        0 <= k < cs.len(),
        fuel >= cs.len() - k,
        forall|j: int| 0 <= j < cs.len() - 1 ==> fat_entry(l, #[trigger] cs[j] as int) == cs[j + 1],
        fat_entry(l, cs[cs.len() - 1] as int) == FAT12_EOF,
    ensures
        chain_from(l, cs[k] as int, fuel) == Some(cs.subrange(k, cs.len() as int)),
    decreases cs.len() - k,
{
    assert(entry_in_table(l.len() as int, cs[k] as int));
    assert(2 <= cs[k] < SCAN_END);
    if k < cs.len() - 1 {
        lemma_chain_tail(l, cs, k + 1, (fuel - 1) as nat);
        assert(seq![cs[k]] + cs.subrange(k + 1, cs.len() as int) =~= cs.subrange(k, cs.len() as int));
    } else {
        assert(chain_from(l, FAT12_EOF as int, (fuel - 1) as nat) == Some(Seq::<u16>::empty()));
        assert(seq![cs[k]] + Seq::<u16>::empty() =~= cs.subrange(k, cs.len() as int));
    }
}

/// A chain linked over distinct clusters is followed back, from its first
/// cluster, through exactly those clusters in that order.
#[verifier::spinoff_prover]
pub proof fn law_linked_chain_followed(fat: Seq<u8>, cs: Seq<u16>)
    requires
        chainable(fat.len() as int, cs),
    ensures
        file_chain(linked(fat, cs), cs[0] as int) == Some(cs),
{
    let n = cs.len() as int;
    lemma_linked_upto(fat, cs, n - 1);
    let up = linked_upto(fat, cs, n - 1);
    let l = linked(fat, cs);
    let last = cs[n - 1] as int;
    assert(entry_in_table(fat.len() as int, last));
    law_fat_read_after_write(up, last, FAT12_EOF);
    assert forall|j: int| 0 <= j < n - 1 implies fat_entry(l, #[trigger] cs[j] as int) == cs[j + 1] by {
        assert(entry_in_table(fat.len() as int, cs[j] as int));
        assert(cs[j] != cs[n - 1]);
        law_fat_write_keeps_others(up, last, cs[j] as int, FAT12_EOF);
    }
    lemma_chain_tail(l, cs, 0, CHAIN_LIMIT as nat);
    assert(cs.subrange(0, n) =~= cs);
}

/// The chain that fat12_create_file allocates and links for `n` clusters is
/// followed back through exactly the clusters it took, in order.
pub proof fn law_created_chain_followed(fat: Seq<u8>, n: nat)
    requires
        allocated(fat, n).2,
        1 <= n < CHAIN_LIMIT,
    ensures
        allocated(fat, n).0.len() == n,
        file_chain(linked(allocated(fat, n).1, allocated(fat, n).0), allocated(fat, n).0[0] as int)
            == Some(allocated(fat, n).0),
{
    lemma_allocated_in_table(fat, n);
    law_allocation_distinct(fat, n);
    let (cs, f, ok) = allocated(fat, n);
    assert(chainable(f.len() as int, cs));
    law_linked_chain_followed(f, cs);
}

/// Pairwise distinct.
pub open spec fn distinct(cs: Seq<u16>) -> bool {
    forall|i: int, j: int| 0 <= i < j < cs.len() ==> cs[i] != cs[j]
}

proof fn lemma_chain_unaffected(fat: Seq<u8>, x: int, fuel: nat, t: Seq<u16>, c: int, v: u16)
    requires
        chain_from(fat, x, fuel) == Some(t),
        !t.contains(c as u16),
        entry_in_table(fat.len() as int, c),
        0 <= c < 4096,
    ensures
        chain_from(fat_with_entry(fat, c, v), x, fuel) == Some(t),
    decreases fuel,
{
    let g = fat_with_entry(fat, c, v);
    if data_cluster(x) {
        assert(t[0] == x as u16);
        assert(x != c);
        law_fat_write_keeps_others(fat, c, x, v);
        let next = fat_entry(fat, x) as int;
        let rest = chain_from(fat, next, (fuel - 1) as nat)->Some_0;
        assert(t == seq![x as u16] + rest);
        assert(!rest.contains(c as u16)) by {
            if rest.contains(c as u16) {
                let k = choose|k: int| 0 <= k < rest.len() && rest[k] == c as u16;
                assert(t[k + 1] == c as u16);
            }
        }
        lemma_chain_unaffected(fat, next, (fuel - 1) as nat, rest, c, v);
    }
}

proof fn lemma_chain_clusters_small(fat: Seq<u8>, x: int, fuel: nat, t: Seq<u16>)
    requires
        chain_from(fat, x, fuel) == Some(t),
    ensures
        forall|k: int| 0 <= k < t.len() ==> data_cluster(#[trigger] t[k] as int)
            && entry_in_table(fat.len() as int, t[k] as int),
    decreases fuel,
{
    if data_cluster(x) {
        let rest = chain_from(fat, fat_entry(fat, x) as int, (fuel - 1) as nat)->Some_0;
        lemma_chain_clusters_small(fat, fat_entry(fat, x) as int, (fuel - 1) as nat, rest);
        assert forall|k: int| 0 <= k < t.len() implies data_cluster(#[trigger] t[k] as int)
            && entry_in_table(fat.len() as int, t[k] as int) by {
            if k > 0 {
                assert(t[k] == rest[k - 1]);
            }
        }
    }
}

#[verifier::spinoff_prover]
proof fn lemma_free_followed(fat: Seq<u8>, x: int, fuel: nat, cs: Seq<u16>)
    requires
        chain_from(fat, x, fuel) == Some(cs),
        distinct(cs),
    ensures
        freed_from(fat, x, fuel).1,
        freed_from(fat, x, fuel).0.len() == fat.len(),
        forall|k: int| 0 <= k < cs.len() ==> fat_entry(freed_from(fat, x, fuel).0, #[trigger] cs[k] as int) == FAT12_FREE_CLUSTER,
        forall|d: int| #![trigger fat_entry(freed_from(fat, x, fuel).0, d)] entry_in_table(fat.len() as int, d)
            && (forall|k: int| 0 <= k < cs.len() ==> cs[k] as int != d)
            ==> fat_entry(freed_from(fat, x, fuel).0, d) == fat_entry(fat, d),
    decreases fuel,
{
    if data_cluster(x) {
        lemma_chain_clusters_small(fat, x, fuel, cs);
        let next = fat_entry(fat, x) as int;
        let rest = chain_from(fat, next, (fuel - 1) as nat)->Some_0;
        let g = fat_with_entry(fat, x, FAT12_FREE_CLUSTER);
        assert(cs == seq![x as u16] + rest);
        assert(!rest.contains(x as u16)) by {
            if rest.contains(x as u16) {
                let k = choose|k: int| 0 <= k < rest.len() && rest[k] == x as u16;
                assert(cs[k + 1] == cs[0]);
            }
        }
        lemma_chain_unaffected(fat, next, (fuel - 1) as nat, rest, x, FAT12_FREE_CLUSTER);
        assert(distinct(rest)) by {
            assert forall|i: int, j: int| 0 <= i < j < rest.len() implies rest[i] != rest[j] by {
                assert(cs[i + 1] != cs[j + 1]);
            }
        }
        lemma_free_followed(g, next, (fuel - 1) as nat, rest);
        let f = freed_from(g, next, (fuel - 1) as nat).0;
        law_fat_read_after_write(fat, x, FAT12_FREE_CLUSTER);
        assert(fat_entry(f, x) == FAT12_FREE_CLUSTER) by {
            assert forall|k: int| 0 <= k < rest.len() implies rest[k] as int != x by {
                assert(cs[k + 1] != cs[0]);
            }
        }
        assert forall|k: int| 0 <= k < cs.len() implies fat_entry(f, #[trigger] cs[k] as int) == FAT12_FREE_CLUSTER by {
            if k > 0 {
                assert(cs[k] == rest[k - 1]);
            }
        }
        assert forall|d: int| #![trigger fat_entry(f, d)] entry_in_table(fat.len() as int, d)
            && (forall|k: int| 0 <= k < cs.len() ==> cs[k] as int != d) implies fat_entry(f, d) == fat_entry(fat, d) by {
            assert(cs[0] as int != d);
            law_fat_write_keeps_others(fat, x, d, FAT12_FREE_CLUSTER);
            assert forall|k: int| 0 <= k < rest.len() implies rest[k] as int != d by {
                assert(cs[k + 1] as int != d);
            }
        }
    }
}

/// Freeing the chain of a file whose clusters are all distinct frees exactly
/// those clusters: each of them ends free and every other entry of the table
/// is left as it was.
pub proof fn law_free_chain(fat: Seq<u8>, first: int, cs: Seq<u16>)
    requires
        file_chain(fat, first) == Some(cs),
        distinct(cs),
    ensures
        freed_chain(fat, first).1,
        freed_chain(fat, first).0.len() == fat.len(),
        forall|k: int| 0 <= k < cs.len() ==> fat_entry(freed_chain(fat, first).0, #[trigger] cs[k] as int) == FAT12_FREE_CLUSTER,
        forall|d: int| #![trigger fat_entry(freed_chain(fat, first).0, d)] entry_in_table(fat.len() as int, d)
            && (forall|k: int| 0 <= k < cs.len() ==> cs[k] as int != d)
            ==> fat_entry(freed_chain(fat, first).0, d) == fat_entry(fat, d),
{
    lemma_free_followed(fat, first, CHAIN_LIMIT as nat, cs);
}

} // verus!
