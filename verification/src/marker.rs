//! Gap-based marker list for content-anchored positions.
//!
//! Markers are kept in one sequence alternating with gaps (runs of content
//! bytes), always starting and ending with a gap and never holding two
//! gaps side by side.  A marker's position is the sum of the gap sizes
//! before it, so an insertion moves every marker behind it by growing a
//! single gap.  A derived id-to-slot index is rebuilt on structural change;
//! the sequence itself stays the source of truth.

use vstd::prelude::*;

verus! {

/// Unique identifier for a marker.
#[derive(Debug, Clone, Copy, PartialEq, Eq, Hash, Structural)]
pub struct MarkerId(pub u64);

/// Entry in the marker list: a run of content bytes, or a marker with its
/// insertion affinity (`left_affinity` means the marker stays before text
/// inserted exactly at its position).
#[derive(Debug, Clone, Copy, PartialEq, Eq, Structural)]
pub enum MarkerEntry {
    Gap(usize),
    Marker { id: MarkerId, left_affinity: bool },
}

/// The gap size an entry contributes.
pub open spec fn gap_size_of(e: MarkerEntry) -> int {
    match e {
        MarkerEntry::Gap(s) => s as int,
        MarkerEntry::Marker { .. } => 0,
    }
}

/// Whether an entry is a gap.
pub open spec fn is_gap(e: MarkerEntry) -> bool {
    e matches MarkerEntry::Gap(_)
}

/// The sum of all gap sizes: the buffer size the list describes.
pub open spec fn gaps_total(es: Seq<MarkerEntry>) -> int
    decreases es.len(),
{
    if es.len() == 0 {
        0
    } else {
        gaps_total(es.drop_last()) + gap_size_of(es.last())
    }
}

/// The `(id, slot)` pairs of the markers of `es`, in slot order.
pub open spec fn index_pairs(es: Seq<MarkerEntry>) -> Seq<(u64, int)>
    decreases es.len(),
{
    if es.len() == 0 {
        Seq::<(u64, int)>::empty()
    } else {
        index_pairs(es.drop_last()) + (match es.last() {
            MarkerEntry::Marker { id, .. } => seq![(id.0, es.len() - 1)],
            MarkerEntry::Gap(_) => Seq::<(u64, int)>::empty(),
        })
    }
}

/// The marker ids of `es`, in slot order.
pub open spec fn marker_ids(es: Seq<MarkerEntry>) -> Seq<u64> {
    index_pairs(es).map_values(|p: (u64, int)| p.0)
}

/// Index into `ps` of the pair carrying `id`, or -1.
pub open spec fn pair_index_of(ps: Seq<(u64, int)>, id: u64) -> int
    decreases ps.len(),
{
    if ps.len() == 0 {
        -1
    } else if ps.last().0 == id {
        ps.len() - 1
    } else {
        pair_index_of(ps.drop_last(), id)
    }
}

/// Whether a marker with this id is present.
pub open spec fn id_present(es: Seq<MarkerEntry>, id: MarkerId) -> bool {
    pair_index_of(index_pairs(es), id.0) >= 0
}

/// The slot of the marker with this id.
pub open spec fn slot_of_id(es: Seq<MarkerEntry>, id: MarkerId) -> int {
    index_pairs(es)[pair_index_of(index_pairs(es), id.0)].1
}

/// The byte position of the marker with this id: the sum of the gap sizes
/// before its slot.
pub open spec fn pos_of_id(es: Seq<MarkerEntry>, id: MarkerId) -> int {
    gaps_total(es.subrange(0, slot_of_id(es, id)))
}

/// The affinity of the marker with this id.
pub open spec fn affinity_of_id(es: Seq<MarkerEntry>, id: MarkerId) -> bool {
    match es[slot_of_id(es, id)] {
        MarkerEntry::Marker { left_affinity, .. } => left_affinity,
        MarkerEntry::Gap(_) => false,
    }
}

/// The number of markers.
pub open spec fn num_markers(es: Seq<MarkerEntry>) -> int {
    index_pairs(es).len() as int
}

/// The structural shape every marker list keeps: starts and ends with a
/// gap, and never holds two gaps side by side.
pub open spec fn wf_shape(es: Seq<MarkerEntry>) -> bool {
    &&& es.len() >= 1
    &&& is_gap(es[0])
    &&& is_gap(es.last())
    &&& forall|j: int| 0 <= j < es.len() - 1 ==> !(is_gap(#[trigger] es[j]) && is_gap(es[j + 1]))
}

pub proof fn lemma_gaps_total_concat(a: Seq<MarkerEntry>, b: Seq<MarkerEntry>)
    ensures
        gaps_total(a + b) == gaps_total(a) + gaps_total(b),
    decreases b.len(),
{
    if b.len() == 0 {
        assert(a + b =~= a);
    } else {
        assert((a + b).drop_last() =~= a + b.drop_last());
        lemma_gaps_total_concat(a, b.drop_last());
    }
}

pub proof fn lemma_gaps_total_nonneg(es: Seq<MarkerEntry>)
    ensures
        gaps_total(es) >= 0,
    decreases es.len(),
{
    if es.len() > 0 {
        lemma_gaps_total_nonneg(es.drop_last());
    }
}

/// A prefix of the gaps never sums to more than the whole.
pub proof fn lemma_gaps_prefix_bounds(es: Seq<MarkerEntry>, k: int)
    requires
        0 <= k <= es.len(),
    ensures
        0 <= gaps_total(es.subrange(0, k)) <= gaps_total(es),
{
    let a = es.subrange(0, k);
    let b = es.subrange(k, es.len() as int);
    assert(es =~= a + b);
    lemma_gaps_total_concat(a, b);
    lemma_gaps_total_nonneg(a);
    lemma_gaps_total_nonneg(b);
}

/// Prefix gap totals grow with the prefix.
pub proof fn lemma_gaps_prefix_mono(es: Seq<MarkerEntry>, s0: int, s1: int)
    requires
        0 <= s0 <= s1 <= es.len(),
    ensures
        gaps_total(es.subrange(0, s0)) <= gaps_total(es.subrange(0, s1)),
{
    assert(es.subrange(0, s1) =~= es.subrange(0, s0) + es.subrange(s0, s1));
    lemma_gaps_total_concat(es.subrange(0, s0), es.subrange(s0, s1));
    lemma_gaps_total_nonneg(es.subrange(s0, s1));
}

/// No single gap exceeds the total.
pub proof fn lemma_gap_le_total(es: Seq<MarkerEntry>, t: int)
    requires
        0 <= t < es.len(),
    ensures
        gap_size_of(es[t]) <= gaps_total(es),
{
    assert(es =~= es.subrange(0, t) + seq![es[t]] + es.subrange(t + 1, es.len() as int));
    lemma_gaps_total_concat(es.subrange(0, t) + seq![es[t]], es.subrange(t + 1, es.len() as int));
    lemma_gaps_total_concat(es.subrange(0, t), seq![es[t]]);
    assert(seq![es[t]].drop_last() =~= Seq::<MarkerEntry>::empty());
    assert(gaps_total(Seq::<MarkerEntry>::empty()) == 0);
    lemma_gaps_total_nonneg(es.subrange(0, t));
    lemma_gaps_total_nonneg(es.subrange(t + 1, es.len() as int));
}

/// Shift the slots of index pairs by `d`.
pub open spec fn shift_pairs(ps: Seq<(u64, int)>, d: int) -> Seq<(u64, int)> {
    ps.map_values(|p: (u64, int)| (p.0, p.1 + d))
}

pub proof fn lemma_index_pairs_concat(a: Seq<MarkerEntry>, b: Seq<MarkerEntry>)
    ensures
        index_pairs(a + b) == index_pairs(a) + shift_pairs(index_pairs(b), a.len() as int),
    decreases b.len(),
{
    if b.len() == 0 {
        assert(a + b =~= a);
        assert(index_pairs(a + b) =~= index_pairs(a) + shift_pairs(index_pairs(b), a.len() as int));
    } else {
        assert((a + b).drop_last() =~= a + b.drop_last());
        lemma_index_pairs_concat(a, b.drop_last());
        assert(index_pairs(a + b) =~= index_pairs(a) + shift_pairs(index_pairs(b), a.len() as int));
    }
}

/// Every index pair names a marker slot within bounds, and slots strictly
/// increase.
pub proof fn lemma_index_pairs_valid(es: Seq<MarkerEntry>)
    ensures
        forall|k: int|
            0 <= k < index_pairs(es).len() ==> {
                let pr = #[trigger] index_pairs(es)[k];
                &&& 0 <= pr.1 < es.len()
                &&& es[pr.1] matches MarkerEntry::Marker { id, .. } && id.0 == pr.0
            },
        forall|k1: int, k2: int|
            0 <= k1 < k2 < index_pairs(es).len() ==> index_pairs(es)[k1].1 < index_pairs(
                es,
            )[k2].1,
    decreases es.len(),
{
    if es.len() > 0 {
        lemma_index_pairs_valid(es.drop_last());
        assert(forall|j: int| 0 <= j < es.len() - 1 ==> es.drop_last()[j] == es[j]);
    }
}

/// Every marker slot appears among the index pairs.
pub proof fn lemma_marker_slot_in_pairs(es: Seq<MarkerEntry>, s: int)
    requires
        0 <= s < es.len(),
        es[s] is Marker,
    ensures
        exists|k: int|
            0 <= k < index_pairs(es).len() && #[trigger] index_pairs(es)[k] == (
                match es[s] {
                    MarkerEntry::Marker { id, .. } => id.0,
                    MarkerEntry::Gap(_) => 0,
                },
                s,
            ),
    decreases es.len(),
{
    if s == es.len() - 1 {
        assert(index_pairs(es)[index_pairs(es).len() - 1] == (
            match es[s] {
                MarkerEntry::Marker { id, .. } => id.0,
                MarkerEntry::Gap(_) => 0,
            },
            s,
        ));
    } else {
        lemma_marker_slot_in_pairs(es.drop_last(), s);
        let ps = index_pairs(es.drop_last());
        let k = choose|k: int|
            0 <= k < ps.len() && #[trigger] ps[k] == (
                match es.drop_last()[s] {
                    MarkerEntry::Marker { id, .. } => id.0,
                    MarkerEntry::Gap(_) => 0,
                },
                s,
            );
        assert(index_pairs(es)[k] == ps[k]);
    }
}

/// When no two pairs carry the same id, any pair carrying `id` is the one
/// `pair_index_of` finds.
pub proof fn lemma_pair_index_unique(ps: Seq<(u64, int)>, id: u64, k: int)
    requires
        forall|i: int, j: int| 0 <= i < j < ps.len() ==> ps[i].0 != ps[j].0,
        0 <= k < ps.len(),
        ps[k].0 == id,
    ensures
        pair_index_of(ps, id) == k,
    decreases ps.len(),
{
    if ps.len() > 0 {
        if ps.last().0 == id {
            assert(k == ps.len() - 1);
        } else {
            assert(k < ps.len() - 1);
            let d = ps.drop_last();
            assert(forall|i: int, j: int| 0 <= i < j < d.len() ==> d[i].0 == ps[i].0 && d[j].0
                == ps[j].0);
            lemma_pair_index_unique(d, id, k);
        }
    }
}

/// A found pair index is in bounds and carries the id looked up.
pub proof fn lemma_pair_index_found(ps: Seq<(u64, int)>, id: u64)
    requires
        pair_index_of(ps, id) >= 0,
    ensures
        0 <= pair_index_of(ps, id) < ps.len(),
        ps[pair_index_of(ps, id)].0 == id,
    decreases ps.len(),
{
    if ps.len() > 0 && ps.last().0 != id {
        lemma_pair_index_found(ps.drop_last(), id);
    }
}

/// When no pair carries `id`, `pair_index_of` reports -1.
pub proof fn lemma_pair_index_absent(ps: Seq<(u64, int)>, id: u64)
    requires
        forall|i: int| 0 <= i < ps.len() ==> (#[trigger] ps[i].0) != id,
    ensures
        pair_index_of(ps, id) == -1,
    decreases ps.len(),
{
    if ps.len() > 0 {
        let d = ps.drop_last();
        assert(forall|i: int| 0 <= i < d.len() ==> #[trigger] d[i].0 == ps[i].0);
        lemma_pair_index_absent(d, id);
    }
}

/// Shared decomposition facts for splitting the gap at slot `g` into
/// gap-marker-gap: the totals agree and the index pairs of the new
/// sequence are the old ones with the new marker's pair inserted and the
/// later slots shifted by two.
#[verifier::rlimit(60)]
proof fn lemma_create_decomp(
    old_es: Seq<MarkerEntry>,
    new_es: Seq<MarkerEntry>,
    g: int,
    size: usize,
    before: usize,
    after: usize,
    id: MarkerId,
    aff: bool,
)
    requires
        wf_shape(old_es),
        0 <= g < old_es.len(),
        old_es[g] == MarkerEntry::Gap(size),
        size == before + after,
        new_es == old_es.subrange(0, g) + seq![
            MarkerEntry::Gap(before),
            MarkerEntry::Marker { id, left_affinity: aff },
            MarkerEntry::Gap(after),
        ] + old_es.subrange(g + 1, old_es.len() as int),
    ensures
        new_es.len() == old_es.len() + 2,
        gaps_total(new_es) == gaps_total(old_es),
        index_pairs(old_es) == index_pairs(old_es.subrange(0, g)) + shift_pairs(
            index_pairs(old_es.subrange(g + 1, old_es.len() as int)),
            g + 1,
        ),
        index_pairs(new_es) == index_pairs(old_es.subrange(0, g)) + seq![(id.0, g + 1)]
            + shift_pairs(index_pairs(old_es.subrange(g + 1, old_es.len() as int)), g + 3),
        forall|j: int|
            0 <= j < new_es.len() ==> #[trigger] new_es[j] == (if j < g {
                old_es[j]
            } else if j == g {
                MarkerEntry::Gap(before)
            } else if j == g + 1 {
                MarkerEntry::Marker { id, left_affinity: aff }
            } else if j == g + 2 {
                MarkerEntry::Gap(after)
            } else {
                old_es[j - 2]
            }),
        gaps_total(new_es.subrange(0, g + 1)) == gaps_total(old_es.subrange(0, g)) + before,
{
    let a = old_es.subrange(0, g);
    let b = old_es.subrange(g + 1, old_es.len() as int);
    let mid_old = seq![MarkerEntry::Gap(size)];
    let mid = seq![
        MarkerEntry::Gap(before),
        MarkerEntry::Marker { id, left_affinity: aff },
        MarkerEntry::Gap(after),
    ];
    assert(old_es =~= a + mid_old + b);
    assert(gaps_total(Seq::<MarkerEntry>::empty()) == 0);
    assert(index_pairs(Seq::<MarkerEntry>::empty()) =~= Seq::<(u64, int)>::empty());
    assert(mid_old.drop_last() =~= Seq::<MarkerEntry>::empty());
    assert(gaps_total(mid_old) == size);
    assert(index_pairs(mid_old) =~= Seq::<(u64, int)>::empty());
    let mid2 = mid.drop_last();
    let mid1 = mid2.drop_last();
    assert(mid1.drop_last() =~= Seq::<MarkerEntry>::empty());
    assert(gaps_total(mid1) == before);
    assert(gaps_total(mid2) == before);
    assert(gaps_total(mid) == before + after);
    assert(index_pairs(mid1) =~= Seq::<(u64, int)>::empty());
    assert(index_pairs(mid2) =~= seq![(id.0, 1int)]);
    assert(index_pairs(mid) =~= seq![(id.0, 1int)]);
    lemma_gaps_total_concat(a + mid_old, b);
    lemma_gaps_total_concat(a, mid_old);
    lemma_gaps_total_concat(a + mid, b);
    lemma_gaps_total_concat(a, mid);
    lemma_index_pairs_concat(a + mid_old, b);
    lemma_index_pairs_concat(a, mid_old);
    lemma_index_pairs_concat(a + mid, b);
    lemma_index_pairs_concat(a, mid);
    assert(index_pairs(a + mid_old) =~= index_pairs(a));
    assert(index_pairs(old_es) =~= index_pairs(a) + shift_pairs(index_pairs(b), g + 1));
    assert(shift_pairs(index_pairs(mid), g) =~= seq![(id.0, g + 1)]);
    assert(index_pairs(a + mid) =~= index_pairs(a) + seq![(id.0, g + 1)]);
    assert(shift_pairs(shift_pairs(index_pairs(b), 3), g) =~= shift_pairs(index_pairs(b), g + 3));
    assert(index_pairs(new_es) =~= index_pairs(a) + seq![(id.0, g + 1)] + shift_pairs(
        index_pairs(b),
        g + 3,
    ));
    assert(new_es.subrange(0, g + 1) =~= a + mid1);
    lemma_gaps_total_concat(a, mid1);
}

/// Splitting a gap keeps the alternating shape.
proof fn lemma_create_shape(
    old_es: Seq<MarkerEntry>,
    new_es: Seq<MarkerEntry>,
    g: int,
    size: usize,
    before: usize,
    after: usize,
    id: MarkerId,
    aff: bool,
)
    requires
        wf_shape(old_es),
        0 <= g < old_es.len(),
        old_es[g] == MarkerEntry::Gap(size),
        size == before + after,
        new_es == old_es.subrange(0, g) + seq![
            MarkerEntry::Gap(before),
            MarkerEntry::Marker { id, left_affinity: aff },
            MarkerEntry::Gap(after),
        ] + old_es.subrange(g + 1, old_es.len() as int),
    ensures
        wf_shape(new_es),
{
    lemma_create_decomp(old_es, new_es, g, size, before, after, id, aff);
    assert forall|j: int| 0 <= j < new_es.len() - 1 implies !(is_gap(#[trigger] new_es[j])
        && is_gap(new_es[j + 1])) by {
        if j < g - 1 {
            assert(!(is_gap(old_es[j]) && is_gap(old_es[j + 1])));
        } else if j == g - 1 {
            assert(!(is_gap(old_es[g - 1]) && is_gap(old_es[g])));
        } else if j == g + 2 {
            assert(!(is_gap(old_es[g]) && is_gap(old_es[g + 1])));
        } else if j > g + 2 {
            assert(!(is_gap(old_es[j - 2]) && is_gap(old_es[j - 1])));
        }
    }
    assert(is_gap(new_es[0]));
    assert(is_gap(new_es[new_es.len() - 1]));
}

/// Splitting a gap adds exactly the fresh marker: ids stay distinct and
/// bounded, the new id sits at the split point with its affinity, and the
/// old ids were never equal to it.
#[verifier::rlimit(60)]
proof fn lemma_create_ids(
    old_es: Seq<MarkerEntry>,
    new_es: Seq<MarkerEntry>,
    g: int,
    size: usize,
    before: usize,
    after: usize,
    id: MarkerId,
    aff: bool,
    next_id_new: u64,
)
    requires
        wf_shape(old_es),
        0 <= g < old_es.len(),
        old_es[g] == MarkerEntry::Gap(size),
        size == before + after,
        new_es == old_es.subrange(0, g) + seq![
            MarkerEntry::Gap(before),
            MarkerEntry::Marker { id, left_affinity: aff },
            MarkerEntry::Gap(after),
        ] + old_es.subrange(g + 1, old_es.len() as int),
        forall|k1: int, k2: int|
            0 <= k1 < k2 < index_pairs(old_es).len() ==> index_pairs(old_es)[k1].0 != index_pairs(
                old_es,
            )[k2].0,
        forall|k: int|
            0 <= k < index_pairs(old_es).len() ==> #[trigger] index_pairs(old_es)[k].0 < id.0,
        id.0 < next_id_new,
    ensures
        forall|k1: int, k2: int|
            0 <= k1 < k2 < index_pairs(new_es).len() ==> index_pairs(new_es)[k1].0 != index_pairs(
                new_es,
            )[k2].0,
        forall|k: int|
            0 <= k < index_pairs(new_es).len() ==> #[trigger] index_pairs(new_es)[k].0
                < next_id_new,
        !id_present(old_es, id),
        id_present(new_es, id),
        pos_of_id(new_es, id) == gaps_total(old_es.subrange(0, g)) + before,
        affinity_of_id(new_es, id) == aff,
        num_markers(new_es) == num_markers(old_es) + 1,
{
    lemma_create_decomp(old_es, new_es, g, size, before, after, id, aff);
    let ipa = index_pairs(old_es.subrange(0, g));
    let ipb = index_pairs(old_es.subrange(g + 1, old_es.len() as int));
    let ip_old = index_pairs(old_es);
    let ip_new = index_pairs(new_es);
    let na = ipa.len() as int;
    let nb = ipb.len() as int;
    assert forall|k: int| 0 <= k < na implies #[trigger] ip_new[k] == ip_old[k] by {}
    assert forall|k: int| na <= k < na + nb implies #[trigger] ip_new[k + 1] == (
        ip_old[k].0,
        ip_old[k].1 + 2,
    ) by {
        assert(ip_old[k] == shift_pairs(ipb, g + 1)[k - na]);
        assert(ip_new[k + 1] == shift_pairs(ipb, g + 3)[k - na]);
    }
    assert(ip_new[na] == (id.0, g + 1));
    assert forall|k1: int, k2: int| 0 <= k1 < k2 < ip_new.len() implies ip_new[k1].0
        != ip_new[k2].0 by {
        if k1 == na {
            assert(ip_new[k2] == (ip_old[k2 - 1].0, ip_old[k2 - 1].1 + 2));
            assert(ip_old[k2 - 1].0 < id.0);
        } else if k2 == na {
            assert(ip_new[k1] == ip_old[k1]);
            assert(ip_old[k1].0 < id.0);
        } else {
            let o1 = if k1 < na {
                k1
            } else {
                k1 - 1
            };
            let o2 = if k2 < na {
                k2
            } else {
                k2 - 1
            };
            assert(ip_new[k1].0 == ip_old[o1].0);
            assert(ip_new[k2].0 == ip_old[o2].0);
        }
    }
    assert forall|k: int| 0 <= k < ip_new.len() implies #[trigger] ip_new[k].0 < next_id_new by {
        if k != na {
            let ko = if k < na {
                k
            } else {
                k - 1
            };
            assert(ip_new[k].0 == ip_old[ko].0);
        }
    }
    assert forall|k: int| 0 <= k < ip_old.len() implies (#[trigger] ip_old[k].0) != id.0 by {}
    lemma_pair_index_absent(ip_old, id.0);
    lemma_pair_index_unique(ip_new, id.0, na);
    assert(slot_of_id(new_es, id) == g + 1);
}

/// Splitting a gap leaves every old marker at its old position with its
/// old affinity.
#[verifier::rlimit(60)]
proof fn lemma_create_preserve(
    old_es: Seq<MarkerEntry>,
    new_es: Seq<MarkerEntry>,
    g: int,
    size: usize,
    before: usize,
    after: usize,
    id: MarkerId,
    aff: bool,
)
    requires
        wf_shape(old_es),
        0 <= g < old_es.len(),
        old_es[g] == MarkerEntry::Gap(size),
        size == before + after,
        new_es == old_es.subrange(0, g) + seq![
            MarkerEntry::Gap(before),
            MarkerEntry::Marker { id, left_affinity: aff },
            MarkerEntry::Gap(after),
        ] + old_es.subrange(g + 1, old_es.len() as int),
        forall|k1: int, k2: int|
            0 <= k1 < k2 < index_pairs(old_es).len() ==> index_pairs(old_es)[k1].0 != index_pairs(
                old_es,
            )[k2].0,
        forall|k: int|
            0 <= k < index_pairs(old_es).len() ==> #[trigger] index_pairs(old_es)[k].0 < id.0,
        forall|k1: int, k2: int|
            0 <= k1 < k2 < index_pairs(new_es).len() ==> index_pairs(new_es)[k1].0 != index_pairs(
                new_es,
            )[k2].0,
    ensures
        forall|oid: MarkerId|
            #[trigger] id_present(old_es, oid) ==> {
                &&& id_present(new_es, oid)
                &&& pos_of_id(new_es, oid) == pos_of_id(old_es, oid)
                &&& affinity_of_id(new_es, oid) == affinity_of_id(old_es, oid)
            },
{
    lemma_create_decomp(old_es, new_es, g, size, before, after, id, aff);
    let a = old_es.subrange(0, g);
    let b = old_es.subrange(g + 1, old_es.len() as int);
    let mid_old = seq![MarkerEntry::Gap(size)];
    let mid = seq![
        MarkerEntry::Gap(before),
        MarkerEntry::Marker { id, left_affinity: aff },
        MarkerEntry::Gap(after),
    ];
    let ipa = index_pairs(a);
    let ipb = index_pairs(b);
    let ip_old = index_pairs(old_es);
    let ip_new = index_pairs(new_es);
    let na = ipa.len() as int;
    let nb = ipb.len() as int;
    assert(gaps_total(mid_old) == size) by {
        assert(mid_old.drop_last() =~= Seq::<MarkerEntry>::empty());
        assert(gaps_total(Seq::<MarkerEntry>::empty()) == 0);
    }
    assert(gaps_total(mid) == before + after) by {
        let mid2 = mid.drop_last();
        let mid1 = mid2.drop_last();
        assert(mid1.drop_last() =~= Seq::<MarkerEntry>::empty());
        assert(gaps_total(Seq::<MarkerEntry>::empty()) == 0);
        assert(gaps_total(mid1) == before);
        assert(gaps_total(mid2) == before);
    }
    assert forall|oid: MarkerId| #[trigger] id_present(old_es, oid) implies {
        &&& id_present(new_es, oid)
        &&& pos_of_id(new_es, oid) == pos_of_id(old_es, oid)
        &&& affinity_of_id(new_es, oid) == affinity_of_id(old_es, oid)
    } by {
        let k = pair_index_of(ip_old, oid.0);
        lemma_pair_index_found(ip_old, oid.0);
        lemma_pair_index_unique(ip_old, oid.0, k);
        let s = ip_old[k].1;
        lemma_index_pairs_valid(old_es);
        lemma_index_pairs_valid(a);
        lemma_index_pairs_valid(b);
        if k < na {
            assert(ip_new[k] == ip_old[k]);
            lemma_pair_index_unique(ip_new, oid.0, k);
            assert(slot_of_id(new_es, oid) == s);
            assert(slot_of_id(old_es, oid) == s);
            assert(ipa[k] == ip_old[k]);
            assert(0 <= ipa[k].1 < a.len());
            assert(s < g);
            assert(new_es.subrange(0, s) =~= old_es.subrange(0, s));
            assert(new_es[s] == old_es[s]);
        } else {
            assert(ip_old[k] == shift_pairs(ipb, g + 1)[k - na]);
            assert(0 <= ipb[k - na].1 < b.len());
            assert(s == ipb[k - na].1 + g + 1);
            assert(ip_new[k + 1] == shift_pairs(ipb, g + 3)[k - na]);
            assert(ip_new[k + 1] == (oid.0, s + 2));
            lemma_pair_index_unique(ip_new, oid.0, k + 1);
            assert(slot_of_id(new_es, oid) == s + 2);
            assert(slot_of_id(old_es, oid) == s);
            assert(s >= g + 1);
            let bp = b.subrange(0, s - g - 1);
            assert(old_es.subrange(0, s) =~= a + mid_old + bp);
            assert(new_es.subrange(0, s + 2) =~= a + mid + bp);
            lemma_gaps_total_concat(a + mid_old, bp);
            lemma_gaps_total_concat(a + mid, bp);
            lemma_gaps_total_concat(a, mid_old);
            lemma_gaps_total_concat(a, mid);
            assert(gaps_total(new_es.subrange(0, s + 2)) == gaps_total(old_es.subrange(0, s)));
            assert(new_es[s + 2] == old_es[s]);
        }
    }
}

/// Growing one gap by `add` keeps the shape and the index pairs, adds
/// `add` to the total, and adds `add` to every prefix total past the gap.
#[verifier::rlimit(60)]
proof fn lemma_grow_post(old_es: Seq<MarkerEntry>, new_es: Seq<MarkerEntry>, t: int, add: usize)
    requires
        wf_shape(old_es),
        0 <= t < old_es.len(),
        is_gap(old_es[t]),
        gap_size_of(old_es[t]) + add <= usize::MAX,
        new_es == old_es.update(t, MarkerEntry::Gap((gap_size_of(old_es[t]) + add) as usize)),
    ensures
        wf_shape(new_es),
        gaps_total(new_es) == gaps_total(old_es) + add,
        index_pairs(new_es) == index_pairs(old_es),
        forall|s: int|
            0 <= s <= new_es.len() ==> gaps_total(#[trigger] new_es.subrange(0, s)) == gaps_total(
                old_es.subrange(0, s),
            ) + (if s <= t {
                0int
            } else {
                add as int
            }),
{
    let a = old_es.subrange(0, t);
    let b = old_es.subrange(t + 1, old_es.len() as int);
    let mid_old = seq![old_es[t]];
    let mid = seq![MarkerEntry::Gap((gap_size_of(old_es[t]) + add) as usize)];
    assert(old_es =~= a + mid_old + b);
    assert(new_es =~= a + mid + b);
    assert(gaps_total(Seq::<MarkerEntry>::empty()) == 0);
    assert(index_pairs(Seq::<MarkerEntry>::empty()) =~= Seq::<(u64, int)>::empty());
    assert(mid_old.drop_last() =~= Seq::<MarkerEntry>::empty());
    assert(mid.drop_last() =~= Seq::<MarkerEntry>::empty());
    assert(gaps_total(mid_old) == gap_size_of(old_es[t]));
    assert(gaps_total(mid) == gap_size_of(old_es[t]) + add);
    assert(index_pairs(mid_old) =~= Seq::<(u64, int)>::empty());
    assert(index_pairs(mid) =~= Seq::<(u64, int)>::empty());
    lemma_gaps_total_concat(a + mid_old, b);
    lemma_gaps_total_concat(a, mid_old);
    lemma_gaps_total_concat(a + mid, b);
    lemma_gaps_total_concat(a, mid);
    lemma_index_pairs_concat(a + mid_old, b);
    lemma_index_pairs_concat(a, mid_old);
    lemma_index_pairs_concat(a + mid, b);
    lemma_index_pairs_concat(a, mid);
    assert(index_pairs(new_es) =~= index_pairs(old_es));
    assert forall|j: int| 0 <= j < new_es.len() - 1 implies !(is_gap(#[trigger] new_es[j])
        && is_gap(new_es[j + 1])) by {
        assert(!(is_gap(old_es[j]) && is_gap(old_es[j + 1])));
        assert(is_gap(new_es[j]) == is_gap(old_es[j]));
        assert(is_gap(new_es[j + 1]) == is_gap(old_es[j + 1]));
    }
    assert(is_gap(new_es[0]));
    assert(is_gap(new_es[new_es.len() - 1]));
    assert forall|s: int| 0 <= s <= new_es.len() implies gaps_total(
        #[trigger] new_es.subrange(0, s),
    ) == gaps_total(old_es.subrange(0, s)) + (if s <= t {
        0int
    } else {
        add as int
    }) by {
        if s <= t {
            assert(new_es.subrange(0, s) =~= old_es.subrange(0, s));
        } else {
            let ap = a;
            let bp = b.subrange(0, s - t - 1);
            assert(old_es.subrange(0, s) =~= ap + mid_old + bp);
            assert(new_es.subrange(0, s) =~= ap + mid + bp);
            lemma_gaps_total_concat(ap + mid_old, bp);
            lemma_gaps_total_concat(ap + mid, bp);
        }
    }
}

/// Inserting a fresh gap between two adjacent markers keeps the shape,
/// adds its size to the total, keeps the marker ids in order (slots past
/// the insertion point shift by one), and adds the size to every prefix
/// total past the insertion point.
#[verifier::rlimit(60)]
proof fn lemma_insert_gap_post(
    old_es: Seq<MarkerEntry>,
    new_es: Seq<MarkerEntry>,
    u: int,
    add: usize,
)
    requires
        wf_shape(old_es),
        1 <= u < old_es.len(),
        !is_gap(old_es[u - 1]),
        !is_gap(old_es[u]),
        new_es == old_es.subrange(0, u) + seq![MarkerEntry::Gap(add)] + old_es.subrange(
            u,
            old_es.len() as int,
        ),
    ensures
        wf_shape(new_es),
        gaps_total(new_es) == gaps_total(old_es) + add,
        index_pairs(new_es) == index_pairs(old_es.subrange(0, u)) + shift_pairs(
            index_pairs(old_es.subrange(u, old_es.len() as int)),
            u + 1,
        ),
        index_pairs(old_es) == index_pairs(old_es.subrange(0, u)) + shift_pairs(
            index_pairs(old_es.subrange(u, old_es.len() as int)),
            u,
        ),
        marker_ids(new_es) == marker_ids(old_es),
        index_pairs(new_es).len() == index_pairs(old_es).len(),
        forall|k: int|
            0 <= k < index_pairs(old_es).len() ==> #[trigger] index_pairs(new_es)[k] == (
                index_pairs(old_es)[k].0,
                index_pairs(old_es)[k].1 + (if index_pairs(old_es)[k].1 < u {
                    0int
                } else {
                    1int
                }),
            ),
        forall|s: int|
            0 <= s <= old_es.len() ==> gaps_total(
                #[trigger] old_es.subrange(0, s),
            ) + (if s <= u - 1 || s < u {
                0int
            } else {
                add as int
            }) == (if s < u {
                gaps_total(new_es.subrange(0, s))
            } else {
                gaps_total(new_es.subrange(0, s + 1))
            }),
{
    let a = old_es.subrange(0, u);
    let b = old_es.subrange(u, old_es.len() as int);
    let mid = seq![MarkerEntry::Gap(add)];
    assert(old_es =~= a + b);
    assert(gaps_total(Seq::<MarkerEntry>::empty()) == 0);
    assert(index_pairs(Seq::<MarkerEntry>::empty()) =~= Seq::<(u64, int)>::empty());
    assert(mid.drop_last() =~= Seq::<MarkerEntry>::empty());
    assert(gaps_total(mid) == add);
    assert(index_pairs(mid) =~= Seq::<(u64, int)>::empty());
    lemma_gaps_total_concat(a, b);
    lemma_gaps_total_concat(a + mid, b);
    lemma_gaps_total_concat(a, mid);
    lemma_index_pairs_concat(a, b);
    lemma_index_pairs_concat(a + mid, b);
    lemma_index_pairs_concat(a, mid);
    assert(index_pairs(a + mid) =~= index_pairs(a));
    let ipa = index_pairs(a);
    let ipb = index_pairs(b);
    let na = ipa.len() as int;
    assert(index_pairs(new_es) =~= ipa + shift_pairs(ipb, u + 1));
    lemma_index_pairs_valid(a);
    lemma_index_pairs_valid(b);
    assert forall|k: int| 0 <= k < index_pairs(old_es).len() implies #[trigger] index_pairs(
        new_es,
    )[k] == (
        index_pairs(old_es)[k].0,
        index_pairs(old_es)[k].1 + (if index_pairs(old_es)[k].1 < u {
            0int
        } else {
            1int
        }),
    ) by {
        if k < na {
            assert(index_pairs(old_es)[k] == ipa[k]);
            assert(index_pairs(new_es)[k] == ipa[k]);
            assert(0 <= ipa[k].1 < u);
        } else {
            assert(index_pairs(old_es)[k] == shift_pairs(ipb, u)[k - na]);
            assert(index_pairs(new_es)[k] == shift_pairs(ipb, u + 1)[k - na]);
            assert(0 <= ipb[k - na].1);
        }
    }
    assert(marker_ids(new_es) =~= marker_ids(old_es));
    // Shape: the new gap sits between two markers.
    assert forall|j: int| 0 <= j < new_es.len() implies #[trigger] new_es[j] == (if j < u {
        old_es[j]
    } else if j == u {
        MarkerEntry::Gap(add)
    } else {
        old_es[j - 1]
    }) by {}
    assert forall|j: int| 0 <= j < new_es.len() - 1 implies !(is_gap(#[trigger] new_es[j])
        && is_gap(new_es[j + 1])) by {
        if j < u - 1 {
            assert(!(is_gap(old_es[j]) && is_gap(old_es[j + 1])));
        } else if j == u - 1 {
            assert(!is_gap(old_es[u - 1]));
        } else if j == u {
            assert(!is_gap(old_es[u]));
        } else {
            assert(!(is_gap(old_es[j - 1]) && is_gap(old_es[j])));
        }
    }
    assert(is_gap(new_es[0]));
    assert(is_gap(new_es[new_es.len() - 1]));
    // Prefix totals.
    assert forall|s: int| 0 <= s <= old_es.len() implies gaps_total(
        #[trigger] old_es.subrange(0, s),
    ) + (if s <= u - 1 || s < u {
        0int
    } else {
        add as int
    }) == (if s < u {
        gaps_total(new_es.subrange(0, s))
    } else {
        gaps_total(new_es.subrange(0, s + 1))
    }) by {
        if s < u {
            assert(new_es.subrange(0, s) =~= old_es.subrange(0, s));
        } else {
            let ap = a;
            let bp = b.subrange(0, s - u);
            assert(old_es.subrange(0, s) =~= ap + bp);
            assert(new_es.subrange(0, s + 1) =~= ap + mid + bp);
            lemma_gaps_total_concat(ap, bp);
            lemma_gaps_total_concat(ap + mid, bp);
        }
    }
}

/// The facts the insertion scan has when it stops at gap `g`: every
/// marker before the chosen threshold lies at or before the insertion
/// point (exactly at it only with left affinity), and every marker at or
/// past it lies at or after it (a left-affinity one exactly at it shares
/// the position with another marker).
#[verifier::rlimit(100)]
proof fn lemma_ains_found(
    old_es: Seq<MarkerEntry>,
    p: int,
    g: int,
    cum: int,
    size: usize,
    target: int,
)
    requires
        wf_shape(old_es),
        0 <= g < old_es.len(),
        old_es[g] == MarkerEntry::Gap(size),
        cum == gaps_total(old_es.subrange(0, g)),
        cum <= p <= cum + size,
        forall|s: int|
            0 <= s < g && !is_gap(#[trigger] old_es[s]) ==> marker_pos_at(old_es, s) < p,
        (target == g && (p < cum + size || g == old_es.len() - 1 || (g + 1 < old_es.len()
            && old_es[g + 1] matches MarkerEntry::Marker { left_affinity: false, .. }))) || (target
            == g + 2 && p == cum + size && g + 1 < old_es.len() && old_es[g + 1]
            matches MarkerEntry::Marker { left_affinity: true, .. }),
    ensures
        target <= old_es.len(),
        ains_before_ok(old_es, p, target),
        ains_after_ok(old_es, p, target),
        target == g + 2 ==> target < old_es.len() && (is_gap(old_es[target]) || (!is_gap(
            old_es[target],
        ) && !is_gap(old_es[target - 1]))),
        target == g ==> is_gap(old_es[target]),
{
    assert(old_es.subrange(0, g + 1).drop_last() =~= old_es.subrange(0, g));
    assert(gaps_total(old_es.subrange(0, g + 1)) == cum + size);
    if target == g {
        assert forall|s: int| target <= s < old_es.len() && !is_gap(
            #[trigger] old_es[s],
        ) implies marker_pos_at(old_es, s) >= p && ((marker_pos_at(old_es, s) == p
            && is_left_marker(old_es[s])) ==> exists|s2: int|
            s2 != s && is_marker_at(old_es, s2, p)) by {
            lemma_gaps_prefix_mono(old_es, g + 1, s);
            if marker_pos_at(old_es, s) == p && is_left_marker(old_es[s]) {
                assert(p == cum + size);
                assert(g < old_es.len() - 1) by {
                    assert(is_gap(old_es[old_es.len() - 1]));
                }
                assert(old_es[g + 1] matches MarkerEntry::Marker { left_affinity: false, .. });
                assert(marker_pos_at(old_es, g + 1) == p);
                assert(is_marker_at(old_es, g + 1, p));
                assert(s != g + 1);
            }
        }
    } else {
        assert(marker_pos_at(old_es, g + 1) == p);
        assert(old_es.subrange(0, g + 2).drop_last() =~= old_es.subrange(0, g + 1));
        assert(gaps_total(old_es.subrange(0, g + 2)) == p);
        assert(g + 2 < old_es.len()) by {
            assert(is_gap(old_es[old_es.len() - 1]));
        }
        assert forall|s: int| target <= s < old_es.len() && !is_gap(
            #[trigger] old_es[s],
        ) implies marker_pos_at(old_es, s) >= p && ((marker_pos_at(old_es, s) == p
            && is_left_marker(old_es[s])) ==> exists|s2: int|
            s2 != s && is_marker_at(old_es, s2, p)) by {
            lemma_gaps_prefix_mono(old_es, g + 2, s);
            if marker_pos_at(old_es, s) == p {
                assert(is_marker_at(old_es, g + 1, p));
                assert(g + 1 != s);
            }
        }
    }
}

/// The byte position of the entry at slot `s`.
pub open spec fn marker_pos_at(es: Seq<MarkerEntry>, s: int) -> int {
    gaps_total(es.subrange(0, s))
}

/// A left-affinity marker.
pub open spec fn is_left_marker(e: MarkerEntry) -> bool {
    e matches MarkerEntry::Marker { left_affinity: true, .. }
}

/// Slot `s` holds a marker sitting at byte position `p`.
pub open spec fn is_marker_at(es: Seq<MarkerEntry>, s: int, p: int) -> bool {
    0 <= s < es.len() && !is_gap(es[s]) && marker_pos_at(es, s) == p
}

/// Every marker before slot `t` sits at or before `p`, and one exactly at
/// `p` has left affinity.
spec fn ains_before_ok(es: Seq<MarkerEntry>, p: int, t: int) -> bool {
    forall|s: int|
        0 <= s < t && !is_gap(#[trigger] es[s]) ==> marker_pos_at(es, s) <= p && (marker_pos_at(
            es,
            s,
        ) == p ==> is_left_marker(es[s]))
}

/// Every marker at or past slot `t` sits at or after `p`, and a
/// left-affinity one exactly at `p` shares that position with another
/// marker.
spec fn ains_after_ok(es: Seq<MarkerEntry>, p: int, t: int) -> bool {
    forall|s: int|
        t <= s < es.len() && !is_gap(#[trigger] es[s]) ==> marker_pos_at(es, s) >= p && ((
        marker_pos_at(es, s) == p && is_left_marker(es[s])) ==> exists|s2: int|
            s2 != s && is_marker_at(es, s2, p))
}

/// What adjusting the list for an insertion guarantees, given the slot
/// threshold the scan chose: markers before it stay, markers after it move
/// by the inserted length, and the affinity rule decides the boundary.
#[verifier::rlimit(100)]
proof fn lemma_adjust_insert_post(
    old_es: Seq<MarkerEntry>,
    new_es: Seq<MarkerEntry>,
    p: int,
    length: usize,
    target: int,
    grow: bool,
)
    requires
        wf_shape(old_es),
        gaps_total(old_es) + length <= usize::MAX,
        length > 0,
        0 <= p,
        0 <= target <= old_es.len(),
        ains_before_ok(old_es, p, target),
        ains_after_ok(old_es, p, target),
        forall|k1: int, k2: int|
            0 <= k1 < k2 < index_pairs(old_es).len() ==> index_pairs(old_es)[k1].0 != index_pairs(
                old_es,
            )[k2].0,
        grow ==> target < old_es.len() && is_gap(old_es[target]) && gap_size_of(old_es[target])
            + length <= usize::MAX && new_es == old_es.update(
            target,
            MarkerEntry::Gap((gap_size_of(old_es[target]) + length) as usize),
        ),
        !grow ==> 1 <= target < old_es.len() && !is_gap(old_es[target]) && !is_gap(
            old_es[target - 1],
        ) && new_es == old_es.subrange(0, target) + seq![MarkerEntry::Gap(length)]
            + old_es.subrange(target, old_es.len() as int),
    ensures
        wf_shape(new_es),
        gaps_total(new_es) == gaps_total(old_es) + length,
        marker_ids(new_es) == marker_ids(old_es),
        num_markers(new_es) == num_markers(old_es),
        index_pairs(new_es).len() == index_pairs(old_es).len(),
        forall|k: int|
            0 <= k < index_pairs(new_es).len() ==> #[trigger] index_pairs(new_es)[k].0
                == index_pairs(old_es)[k].0,
        forall|k1: int, k2: int|
            0 <= k1 < k2 < index_pairs(new_es).len() ==> index_pairs(new_es)[k1].0 != index_pairs(
                new_es,
            )[k2].0,
        forall|oid: MarkerId|
            #[trigger] id_present(old_es, oid) ==> {
                let pos0 = pos_of_id(old_es, oid);
                &&& id_present(new_es, oid)
                &&& affinity_of_id(new_es, oid) == affinity_of_id(old_es, oid)
                &&& (pos0 < p ==> pos_of_id(new_es, oid) == pos0)
                &&& (pos0 > p ==> pos_of_id(new_es, oid) == pos0 + length)
                &&& (pos0 == p ==> pos_of_id(new_es, oid) == pos0 || pos_of_id(new_es, oid)
                    == pos0 + length)
                &&& (pos0 == p && pos_of_id(new_es, oid) == p ==> affinity_of_id(old_es, oid))
            },
        forall|oid: MarkerId|
            (#[trigger] id_present(old_es, oid) && pos_of_id(old_es, oid) == p && affinity_of_id(
                old_es,
                oid,
            ) && (forall|oid2: MarkerId|
                id_present(old_es, oid2) && oid2 != oid ==> pos_of_id(old_es, oid2) != p))
                ==> pos_of_id(new_es, oid) == p,
{
    let ip_old = index_pairs(old_es);
    if grow {
        lemma_grow_post(old_es, new_es, target, length);
    } else {
        lemma_insert_gap_post(old_es, new_es, target, length);
    }
    let ip_new = index_pairs(new_es);
    lemma_index_pairs_valid(old_es);
    lemma_index_pairs_valid(new_es);
    assert(marker_ids(new_es) =~= marker_ids(old_es));
    assert forall|k: int| 0 <= k < ip_new.len() implies #[trigger] ip_new[k].0 == ip_old[k].0 by {
        assert(marker_ids(new_es)[k] == marker_ids(old_es)[k]);
    }
    // The slot of a marker in the new sequence, and its new position.
    assert forall|k: int| 0 <= k < ip_old.len() implies {
        let s = #[trigger] ip_old[k].1;
        let s1 = ip_new[k].1;
        &&& (s < target ==> s1 == s && marker_pos_at(new_es, s1) == marker_pos_at(old_es, s)
            && new_es[s1] == old_es[s])
        &&& (s >= target ==> marker_pos_at(new_es, s1) == marker_pos_at(old_es, s) + length
            && new_es[s1] == old_es[s])
    } by {
        let s = ip_old[k].1;
        let s1 = ip_new[k].1;
        if grow {
            assert(ip_new[k] == ip_old[k]);
            assert(s != target);
            if s < target {
                assert(gaps_total(new_es.subrange(0, s)) == gaps_total(old_es.subrange(0, s)));
            } else {
                assert(gaps_total(new_es.subrange(0, s)) == gaps_total(old_es.subrange(0, s))
                    + length);
            }
            assert(new_es[s] == old_es[s]);
        } else {
            assert(ip_new[k] == (ip_old[k].0, s + (if s < target {
                0int
            } else {
                1int
            })));
            if s < target {
                assert(gaps_total(new_es.subrange(0, s)) == gaps_total(old_es.subrange(0, s)));
                assert(new_es[s] == old_es[s]);
            } else {
                assert(gaps_total(new_es.subrange(0, s + 1)) == gaps_total(old_es.subrange(0, s))
                    + length);
                assert(new_es[s + 1] == old_es[s]);
            }
        }
    }
    assert forall|oid: MarkerId| #[trigger] id_present(old_es, oid) implies {
        let pos0 = pos_of_id(old_es, oid);
        &&& id_present(new_es, oid)
        &&& affinity_of_id(new_es, oid) == affinity_of_id(old_es, oid)
        &&& (pos0 < p ==> pos_of_id(new_es, oid) == pos0)
        &&& (pos0 > p ==> pos_of_id(new_es, oid) == pos0 + length)
        &&& (pos0 == p ==> pos_of_id(new_es, oid) == pos0 || pos_of_id(new_es, oid) == pos0
            + length)
        &&& (pos0 == p && pos_of_id(new_es, oid) == p ==> affinity_of_id(old_es, oid))
    } by {
        let k = pair_index_of(ip_old, oid.0);
        lemma_pair_index_found(ip_old, oid.0);
        lemma_pair_index_unique(ip_old, oid.0, k);
        lemma_pair_index_unique(ip_new, oid.0, k);
        let s = ip_old[k].1;
        let s1 = ip_new[k].1;
        assert(slot_of_id(old_es, oid) == s);
        assert(slot_of_id(new_es, oid) == s1);
        assert(!is_gap(old_es[s]));
        if s < target {
            assert(marker_pos_at(old_es, s) <= p);
        } else {
            assert(marker_pos_at(old_es, s) >= p);
        }
    }
    assert forall|oid: MarkerId| (#[trigger] id_present(old_es, oid) && pos_of_id(old_es, oid)
        == p && affinity_of_id(old_es, oid) && (forall|oid2: MarkerId|
        id_present(old_es, oid2) && oid2 != oid ==> pos_of_id(old_es, oid2)
            != p)) implies pos_of_id(new_es, oid) == p by {
        let k = pair_index_of(ip_old, oid.0);
        lemma_pair_index_found(ip_old, oid.0);
        lemma_pair_index_unique(ip_old, oid.0, k);
        lemma_pair_index_unique(ip_new, oid.0, k);
        let s = ip_old[k].1;
        assert(slot_of_id(old_es, oid) == s);
        assert(!is_gap(old_es[s]));
        if s >= target {
            assert(marker_pos_at(old_es, s) == p && is_left_marker(old_es[s]));
            assert(exists|s2: int| s2 != s && is_marker_at(old_es, s2, p));
            let s2 = choose|s2: int| s2 != s && is_marker_at(old_es, s2, p);
            lemma_marker_slot_in_pairs(old_es, s2);
            let k2 = choose|k2: int|
                0 <= k2 < ip_old.len() && #[trigger] ip_old[k2] == (
                    match old_es[s2] {
                        MarkerEntry::Marker { id, .. } => id.0,
                        MarkerEntry::Gap(_) => 0,
                    },
                    s2,
                );
            let oid2 = MarkerId(ip_old[k2].0);
            lemma_pair_index_unique(ip_old, oid2.0, k2);
            assert(id_present(old_es, oid2));
            assert(slot_of_id(old_es, oid2) == s2);
            assert(pos_of_id(old_es, oid2) == p);
            assert(oid2 != oid) by {
                if oid2 == oid {
                    assert(k2 == k);
                }
            }
            assert(false);
        }
    }
}

/// Marker positions are ordered by slot: a marker earlier in the sequence
/// never sits after a later one.  Together with the adjustment contracts,
/// which keep the marker ids in sequence order (insertions) or a
/// subsequence of it (deletions), this is why surviving markers keep
/// their relative order across any run of edits.
pub proof fn lemma_order_preserved(es: Seq<MarkerEntry>, id1: MarkerId, id2: MarkerId)
    requires
        id_present(es, id1),
        id_present(es, id2),
        slot_of_id(es, id1) <= slot_of_id(es, id2),
    ensures
        pos_of_id(es, id1) <= pos_of_id(es, id2),
{
    let k1 = pair_index_of(index_pairs(es), id1.0);
    let k2 = pair_index_of(index_pairs(es), id2.0);
    lemma_pair_index_found(index_pairs(es), id1.0);
    lemma_pair_index_found(index_pairs(es), id2.0);
    lemma_index_pairs_valid(es);
    lemma_gaps_prefix_mono(es, slot_of_id(es, id1), slot_of_id(es, id2));
}

/// The shape of a marker list under reconstruction: gaps at even slots,
/// markers at odd slots, ending after a marker.
spec fn rebuild_shape(es: Seq<MarkerEntry>) -> bool {
    &&& es.len() % 2 == 0
    &&& forall|j: int|
        0 <= j < es.len() ==> (if j % 2 == 0 {
            is_gap(#[trigger] es[j])
        } else {
            !is_gap(es[j])
        })
}

/// How many deleted bytes of `[p, de)` lie before byte position `c`.
pub open spec fn removed_before(p: int, de: int, c: int) -> int {
    vstd::math::min(de, c) - vstd::math::min(p, c)
}

/// Appending a pending gap and one surviving marker to a list under
/// reconstruction: the marker lands at the flushed byte position, and
/// everything already placed is untouched.
#[verifier::rlimit(60)]
proof fn lemma_rebuild_push(
    out0: Seq<MarkerEntry>,
    out1: Seq<MarkerEntry>,
    pending: usize,
    m: MarkerId,
    aff: bool,
)
    requires
        rebuild_shape(out0),
        out1 == out0 + seq![MarkerEntry::Gap(pending), MarkerEntry::Marker {
            id: m,
            left_affinity: aff,
        }],
        forall|k: int| 0 <= k < index_pairs(out0).len() ==> (#[trigger] index_pairs(out0)[k].0)
            != m.0,
        forall|k1: int, k2: int|
            0 <= k1 < k2 < index_pairs(out0).len() ==> index_pairs(out0)[k1].0 != index_pairs(
                out0,
            )[k2].0,
    ensures
        rebuild_shape(out1),
        gaps_total(out1) == gaps_total(out0) + pending,
        index_pairs(out1) == index_pairs(out0).push((m.0, out0.len() as int + 1)),
        id_present(out1, m),
        pos_of_id(out1, m) == gaps_total(out0) + pending,
        affinity_of_id(out1, m) == aff,
        forall|oid: MarkerId|
            oid.0 != m.0 ==> #[trigger] id_present(out1, oid) == id_present(out0, oid),
        forall|oid: MarkerId|
            oid.0 != m.0 && #[trigger] id_present(out0, oid) ==> pos_of_id(out1, oid) == pos_of_id(
                out0,
                oid,
            ) && affinity_of_id(out1, oid) == affinity_of_id(out0, oid),
{
    let g = seq![MarkerEntry::Gap(pending)];
    let gm = seq![MarkerEntry::Gap(pending), MarkerEntry::Marker { id: m, left_affinity: aff }];
    let outg = out0 + g;
    assert(outg =~= out1.drop_last());
    assert(outg.drop_last() =~= out0);
    assert(gaps_total(out1) == gaps_total(outg));
    assert(gaps_total(outg) == gaps_total(out0) + pending);
    assert(index_pairs(outg) =~= index_pairs(out0));
    assert(index_pairs(out1) =~= index_pairs(out0).push((m.0, out0.len() as int + 1)));
    let ip0 = index_pairs(out0);
    let ip1 = index_pairs(out1);
    assert forall|j: int| 0 <= j < out1.len() implies (if j % 2 == 0 {
        is_gap(#[trigger] out1[j])
    } else {
        !is_gap(out1[j])
    }) by {
        if j < out0.len() {
            assert(out1[j] == out0[j]);
        }
    }
    assert forall|k1: int, k2: int| 0 <= k1 < k2 < ip1.len() implies ip1[k1].0 != ip1[k2].0 by {
        if k2 < ip0.len() {
            assert(ip1[k1] == ip0[k1] && ip1[k2] == ip0[k2]);
        } else {
            assert(ip1[k1] == ip0[k1]);
        }
    }
    lemma_pair_index_unique(ip1, m.0, ip0.len() as int);
    assert(id_present(out1, m));
    assert(slot_of_id(out1, m) == out0.len() as int + 1);
    assert(out1[out0.len() as int + 1] == MarkerEntry::Marker { id: m, left_affinity: aff });
    assert(affinity_of_id(out1, m) == aff);
    assert(out1.subrange(0, out0.len() as int + 1) =~= outg);
    lemma_index_pairs_valid(out0);
    assert forall|oid: MarkerId| oid.0 != m.0 implies #[trigger] id_present(out1, oid)
        == id_present(out0, oid) by {
        assert(ip1.last().0 == m.0);
        assert(ip1.drop_last() =~= ip0);
        assert(pair_index_of(ip1, oid.0) == pair_index_of(ip0, oid.0));
    }
    assert forall|oid: MarkerId| oid.0 != m.0 && #[trigger] id_present(out0, oid) implies
        pos_of_id(out1, oid) == pos_of_id(out0, oid) && affinity_of_id(out1, oid)
        == affinity_of_id(out0, oid) by {
        assert(ip1.last().0 == m.0);
        assert(ip1.drop_last() =~= ip0);
        assert(pair_index_of(ip1, oid.0) == pair_index_of(ip0, oid.0));
        if id_present(out0, oid) {
            let k = pair_index_of(ip0, oid.0);
            lemma_pair_index_found(ip0, oid.0);
            let s = ip0[k].1;
            assert(ip1[k] == ip0[k]);
            assert(slot_of_id(out1, oid) == s);
            assert(0 <= s < out0.len());
            assert(out1.subrange(0, s) =~= out0.subrange(0, s));
            assert(out1[s] == out0[s]);
        }
    }
}

/// The ids of the markers that survive deleting the byte range `[p, de)`:
/// those whose position lies outside it, in their original order.
pub open spec fn surviving_ids(es: Seq<MarkerEntry>, p: int, de: int) -> Seq<u64>
    decreases es.len(),
{
    if es.len() == 0 {
        Seq::<u64>::empty()
    } else {
        surviving_ids(es.drop_last(), p, de) + (match es.last() {
            MarkerEntry::Marker { id, .. } => if p <= gaps_total(es.drop_last())
                < de {
                Seq::<u64>::empty()
            } else {
                seq![id.0]
            },
            MarkerEntry::Gap(_) => Seq::<u64>::empty(),
        })
    }
}

/// Extending the scanned prefix by a gap leaves every marker-derived
/// value unchanged and grows the prefix total by the gap.
#[verifier::rlimit(60)]
proof fn lemma_pre_step_gap(old_es: Seq<MarkerEntry>, i: int, p: int, de: int)
    requires
        0 <= i < old_es.len(),
        is_gap(old_es[i]),
    ensures
        index_pairs(old_es.subrange(0, i + 1)) == index_pairs(old_es.subrange(0, i)),
        gaps_total(old_es.subrange(0, i + 1)) == gaps_total(old_es.subrange(0, i)) + gap_size_of(
            old_es[i],
        ),
        surviving_ids(old_es.subrange(0, i + 1), p, de) == surviving_ids(
            old_es.subrange(0, i),
            p,
            de,
        ),
        forall|oid: MarkerId| #[trigger]
            id_present(old_es.subrange(0, i + 1), oid) == id_present(old_es.subrange(0, i), oid),
        forall|oid: MarkerId|
            #[trigger] id_present(old_es.subrange(0, i), oid) ==> pos_of_id(
                old_es.subrange(0, i + 1),
                oid,
            ) == pos_of_id(old_es.subrange(0, i), oid) && affinity_of_id(
                old_es.subrange(0, i + 1),
                oid,
            ) == affinity_of_id(old_es.subrange(0, i), oid),
{
    let pre = old_es.subrange(0, i);
    let pre1 = old_es.subrange(0, i + 1);
    assert(pre1.drop_last() =~= pre);
    assert(index_pairs(pre1) =~= index_pairs(pre));
    assert(surviving_ids(pre1, p, de) =~= surviving_ids(pre, p, de));
    lemma_index_pairs_valid(pre);
    assert forall|oid: MarkerId| #[trigger] id_present(pre, oid) implies pos_of_id(pre1, oid)
        == pos_of_id(pre, oid) && affinity_of_id(pre1, oid) == affinity_of_id(pre, oid) by {
        let k = pair_index_of(index_pairs(pre), oid.0);
        lemma_pair_index_found(index_pairs(pre), oid.0);
        let s = index_pairs(pre)[k].1;
        assert(0 <= s < pre.len());
        assert(pre1.subrange(0, s) =~= pre.subrange(0, s));
        assert(pre1[s] == pre[s]);
    }
}

/// Extending the scanned prefix by a marker appends its pair; every other
/// marker-derived value is unchanged, and the new marker sits at the
/// prefix total.
#[verifier::rlimit(60)]
proof fn lemma_pre_step_marker(old_es: Seq<MarkerEntry>, i: int, p: int, de: int)
    requires
        0 <= i < old_es.len(),
        !is_gap(old_es[i]),
        forall|k1: int, k2: int|
            0 <= k1 < k2 < index_pairs(old_es).len() ==> index_pairs(old_es)[k1].0 != index_pairs(
                old_es,
            )[k2].0,
    ensures
        ({
            let m = match old_es[i] {
                MarkerEntry::Marker { id, .. } => id,
                MarkerEntry::Gap(_) => MarkerId(0),
            };
            let pre = old_es.subrange(0, i);
            let pre1 = old_es.subrange(0, i + 1);
            &&& index_pairs(pre1) == index_pairs(pre).push((m.0, i))
            &&& gaps_total(pre1) == gaps_total(pre)
            &&& (forall|k: int|
                0 <= k < index_pairs(pre).len() ==> (#[trigger] index_pairs(pre)[k].0) != m.0)
            &&& id_present(pre1, m)
            &&& pos_of_id(pre1, m) == gaps_total(pre)
            &&& affinity_of_id(pre1, m) == is_left_marker(old_es[i])
            &&& surviving_ids(pre1, p, de) == surviving_ids(pre, p, de) + (if p <= gaps_total(pre)
                < de {
                Seq::<u64>::empty()
            } else {
                seq![m.0]
            })
            &&& (forall|oid: MarkerId|
                oid.0 != m.0 ==> #[trigger] id_present(pre1, oid) == id_present(pre, oid))
            &&& (forall|oid: MarkerId|
                oid.0 != m.0 && #[trigger] id_present(pre, oid) ==> pos_of_id(pre1, oid)
                    == pos_of_id(pre, oid) && affinity_of_id(pre1, oid) == affinity_of_id(
                    pre,
                    oid,
                ))
            &&& (forall|k1: int, k2: int|
                0 <= k1 < k2 < index_pairs(pre1).len() ==> index_pairs(pre1)[k1].0 != index_pairs(
                    pre1,
                )[k2].0)
        }),
{
    let m = match old_es[i] {
        MarkerEntry::Marker { id, .. } => id,
        MarkerEntry::Gap(_) => MarkerId(0),
    };
    let pre = old_es.subrange(0, i);
    let pre1 = old_es.subrange(0, i + 1);
    assert(pre1.drop_last() =~= pre);
    assert(pre1.last() == old_es[i]);
    assert(index_pairs(pre1) =~= index_pairs(pre).push((m.0, i)));
    assert(surviving_ids(pre1, p, de) =~= surviving_ids(pre, p, de) + (if p <= gaps_total(pre)
        < de {
        Seq::<u64>::empty()
    } else {
        seq![m.0]
    }));
    // The prefix pairs are a prefix of the whole sequence's pairs, so the
    // whole sequence's distinctness carries over to them.
    lemma_index_pairs_concat(pre1, old_es.subrange(i + 1, old_es.len() as int));
    assert(old_es =~= pre1 + old_es.subrange(i + 1, old_es.len() as int));
    let ip1 = index_pairs(pre1);
    let ip0 = index_pairs(pre);
    assert forall|k: int| 0 <= k < ip1.len() implies #[trigger] ip1[k] == index_pairs(
        old_es,
    )[k] by {}
    assert forall|k1: int, k2: int| 0 <= k1 < k2 < ip1.len() implies ip1[k1].0 != ip1[k2].0 by {
        assert(ip1[k1] == index_pairs(old_es)[k1]);
        assert(ip1[k2] == index_pairs(old_es)[k2]);
    }
    assert forall|k: int| 0 <= k < ip0.len() implies (#[trigger] ip0[k].0) != m.0 by {
        assert(ip0[k] == ip1[k]);
        assert(ip1[ip1.len() - 1].0 == m.0);
    }
    lemma_pair_index_unique(ip1, m.0, ip0.len() as int);
    assert(id_present(pre1, m));
    assert(slot_of_id(pre1, m) == i);
    assert(pre1.subrange(0, i) =~= pre);
    lemma_index_pairs_valid(pre);
    assert forall|oid: MarkerId| oid.0 != m.0 implies #[trigger] id_present(pre1, oid)
        == id_present(pre, oid) by {
        assert(ip1.last().0 == m.0);
        assert(ip1.drop_last() =~= ip0);
        assert(pair_index_of(ip1, oid.0) == pair_index_of(ip0, oid.0));
    }
    assert forall|oid: MarkerId| oid.0 != m.0 && #[trigger] id_present(pre, oid) implies
        pos_of_id(pre1, oid) == pos_of_id(pre, oid) && affinity_of_id(pre1, oid)
        == affinity_of_id(pre, oid) by {
        assert(ip1.last().0 == m.0);
        assert(ip1.drop_last() =~= ip0);
        assert(pair_index_of(ip1, oid.0) == pair_index_of(ip0, oid.0));
        let k = pair_index_of(ip0, oid.0);
        lemma_pair_index_found(ip0, oid.0);
        let s = ip0[k].1;
        assert(ip1[k] == ip0[k]);
        assert(0 <= s < pre.len());
        assert(pre1.subrange(0, s) =~= pre.subrange(0, s));
        assert(pre1[s] == pre[s]);
    }
}

/// Closing a list under reconstruction with its final pending gap yields a
/// well-formed alternating list with the same markers.
#[verifier::rlimit(60)]
proof fn lemma_rebuild_finish(out0: Seq<MarkerEntry>, out1: Seq<MarkerEntry>, pending: usize)
    requires
        rebuild_shape(out0),
        out1 == out0.push(MarkerEntry::Gap(pending)),
    ensures
        wf_shape(out1),
        gaps_total(out1) == gaps_total(out0) + pending,
        index_pairs(out1) == index_pairs(out0),
        marker_ids(out1) == marker_ids(out0),
        forall|oid: MarkerId| #[trigger] id_present(out1, oid) == id_present(out0, oid),
        forall|oid: MarkerId|
            #[trigger] id_present(out0, oid) ==> pos_of_id(out1, oid) == pos_of_id(out0, oid)
                && affinity_of_id(out1, oid) == affinity_of_id(out0, oid),
{
    assert(out1.drop_last() =~= out0);
    assert(index_pairs(out1) =~= index_pairs(out0));
    assert(marker_ids(out1) =~= marker_ids(out0));
    assert(is_gap(out1[0]));
    assert forall|j: int| 0 <= j < out1.len() - 1 implies !(is_gap(#[trigger] out1[j]) && is_gap(
        out1[j + 1],
    )) by {
        if j < out0.len() - 1 {
            assert(out1[j] == out0[j] && out1[j + 1] == out0[j + 1]);
            if j % 2 == 0 {
                assert(!is_gap(out0[j + 1]));
            } else {
                assert(!is_gap(out0[j]));
            }
        } else {
            assert(j == out0.len() - 1);
            assert(out1[j] == out0[j]);
            assert(j % 2 == 1);
            assert(!is_gap(out0[j]));
        }
    }
    lemma_index_pairs_valid(out0);
    assert forall|oid: MarkerId| #[trigger] id_present(out0, oid) implies pos_of_id(out1, oid)
        == pos_of_id(out0, oid) && affinity_of_id(out1, oid) == affinity_of_id(out0, oid) by {
        let k = pair_index_of(index_pairs(out0), oid.0);
        lemma_pair_index_found(index_pairs(out0), oid.0);
        let s = index_pairs(out0)[k].1;
        assert(0 <= s < out0.len());
        assert(out1.subrange(0, s) =~= out0.subrange(0, s));
        assert(out1[s] == out0[s]);
    }
}

/// Sequential list of markers and gaps, with a derived id-to-slot index.
pub struct MarkerList {
    entries: Vec<MarkerEntry>,
    marker_index: Vec<(MarkerId, usize)>,
    next_id: u64,
}

impl View for MarkerList {
    type V = Seq<MarkerEntry>;

    closed spec fn view(&self) -> Seq<MarkerEntry> {
        self.entries@
    }
}

impl MarkerList {
    spec fn index_view(&self) -> Seq<(u64, int)> {
        self.marker_index@.map_values(|p: (MarkerId, usize)| (p.0.0, p.1 as int))
    }

    /// The list's internal invariant: the alternating shape holds, the gap
    /// sizes fit a `usize`, ids are distinct and below the allocation
    /// counter, and the id index mirrors the sequence.
    pub closed spec fn wf(&self) -> bool {
        &&& wf_shape(self.entries@)
        &&& gaps_total(self.entries@) <= usize::MAX
        &&& self.index_view() == index_pairs(self.entries@)
        &&& (forall|k1: int, k2: int|
            0 <= k1 < k2 < index_pairs(self.entries@).len() ==> index_pairs(self.entries@)[k1].0
                != index_pairs(self.entries@)[k2].0)
        &&& (forall|k: int|
            0 <= k < index_pairs(self.entries@).len() ==> #[trigger] index_pairs(
                self.entries@,
            )[k].0 < self.next_id)
    }

    /// How many marker ids have been allocated so far.
    pub closed spec fn ids_used(&self) -> int {
        self.next_id as int
    }

    /// What well-formedness gives a caller: the shape invariant, a bounded
    /// total, and distinct ids.
    pub proof fn lemma_wf_public(&self)
        requires
            self.wf(),
        ensures
            wf_shape(self@),
            0 <= gaps_total(self@) <= usize::MAX,
            forall|k1: int, k2: int|
                0 <= k1 < k2 < marker_ids(self@).len() ==> marker_ids(self@)[k1] != marker_ids(
                    self@,
                )[k2],
    {
        lemma_gaps_total_nonneg(self@);
    }

    /// A new empty marker list: one zero-sized gap, no markers.
    pub fn new() -> (r: MarkerList)
        ensures
            r.wf(),
            r@ == seq![MarkerEntry::Gap(0)],
            gaps_total(r@) == 0,
            num_markers(r@) == 0,
            r.ids_used() == 0,
    {
        let mut entries: Vec<MarkerEntry> = Vec::new();
        entries.push(MarkerEntry::Gap(0));
        let r = MarkerList { entries, marker_index: Vec::new(), next_id: 0 };
        proof {
            assert(r@ =~= seq![MarkerEntry::Gap(0)]);
            assert(r@.drop_last() =~= Seq::<MarkerEntry>::empty());
            assert(index_pairs(r@.drop_last()) =~= Seq::<(u64, int)>::empty());
            assert(gaps_total(r@.drop_last()) == 0);
            assert(index_pairs(r@) =~= Seq::<(u64, int)>::empty());
            assert(r.index_view() =~= Seq::<(u64, int)>::empty());
        }
        r
    }

    /// Reset the list to a single gap of the given size, with no markers.
    pub fn set_buffer_size(&mut self, size: usize)
        ensures
            final(self).wf(),
            final(self)@ == seq![MarkerEntry::Gap(size)],
            gaps_total(final(self)@) == size,
            num_markers(final(self)@) == 0,
            final(self).ids_used() == 0,
    {
        let mut entries: Vec<MarkerEntry> = Vec::new();
        entries.push(MarkerEntry::Gap(size));
        self.entries = entries;
        self.marker_index = Vec::new();
        self.next_id = 0;
        proof {
            assert(self@ =~= seq![MarkerEntry::Gap(size)]);
            assert(self@.drop_last() =~= Seq::<MarkerEntry>::empty());
            assert(index_pairs(self@.drop_last()) =~= Seq::<(u64, int)>::empty());
            assert(gaps_total(self@.drop_last()) == 0);
            assert(index_pairs(self@) =~= Seq::<(u64, int)>::empty());
            assert(self.index_view() =~= Seq::<(u64, int)>::empty());
        }
    }

    /// The total buffer size the list describes: the sum of all gaps.
    pub fn buffer_size(&self) -> (r: usize)
        requires
            self.wf(),
        ensures
            r == gaps_total(self@),
    {
        let n = self.entries.len();
        let mut sum: usize = 0;
        let mut i: usize = 0;
        proof {
            assert(self@.subrange(0, 0) =~= Seq::<MarkerEntry>::empty());
        }
        while i < n
            invariant
                i <= n == self@.len(),
                gaps_total(self@) <= usize::MAX,
                sum == gaps_total(self@.subrange(0, i as int)),
            decreases n - i,
        {
            proof {
                assert(self@.subrange(0, i + 1 as int).drop_last() =~= self@.subrange(0, i as int));
                lemma_gaps_prefix_bounds(self@, i + 1);
            }
            match self.entries[i] {
                MarkerEntry::Gap(size) => {
                    sum = sum + size;
                },
                MarkerEntry::Marker { .. } => {},
            }
            i = i + 1;
        }
        proof {
            assert(self@.subrange(0, n as int) =~= self@);
        }
        sum
    }

    /// The number of markers in the list.
    pub fn marker_count(&self) -> (r: usize)
        requires
            self.wf(),
        ensures
            r == num_markers(self@),
    {
        self.marker_index.len()
    }

    /// The entries of the list, gaps and markers in order.
    pub fn entries(&self) -> (r: &Vec<MarkerEntry>)
        ensures
            r@ == self@,
    {
        &self.entries
    }

    /// Rebuild the id-to-slot index from the sequence.
    fn reindex_all(&mut self)
        ensures
            final(self).entries == old(self).entries,
            final(self).next_id == old(self).next_id,
            final(self).index_view() == index_pairs(final(self)@),
    {
        self.marker_index = Vec::new();
        let n = self.entries.len();
        let mut slot: usize = 0;
        proof {
            assert(self@.subrange(0, 0) =~= Seq::<MarkerEntry>::empty());
            assert(self.index_view() =~= index_pairs(self@.subrange(0, 0)));
        }
        while slot < n
            invariant
                slot <= n == self@.len(),
                self.entries == old(self).entries,
                self.next_id == old(self).next_id,
                self.index_view() == index_pairs(self@.subrange(0, slot as int)),
            decreases n - slot,
        {
            proof {
                assert(self@.subrange(0, slot + 1 as int).drop_last() =~= self@.subrange(
                    0,
                    slot as int,
                ));
            }
            let ghost prev = self.index_view();
            match self.entries[slot] {
                MarkerEntry::Marker { id, .. } => {
                    self.marker_index.push((id, slot));
                    proof {
                        assert(self.index_view() =~= prev + seq![(id.0, slot as int)]);
                        assert(self.index_view() =~= index_pairs(
                            self@.subrange(0, slot + 1 as int),
                        ));
                    }
                },
                MarkerEntry::Gap(_) => {
                    proof {
                        assert(self.index_view() =~= index_pairs(
                            self@.subrange(0, slot + 1 as int),
                        ));
                    }
                },
            }
            slot = slot + 1;
        }
        proof {
            assert(self@.subrange(0, n as int) =~= self@);
        }
    }

    /// Create a new marker at `position` (clamped to the buffer size) with
    /// the given affinity.  The marker lands in the first gap whose
    /// inclusive range contains the position; every existing marker keeps
    /// its position and affinity.
    pub fn create(&mut self, position: usize, left_affinity: bool) -> (r: MarkerId)
        requires
            old(self).wf(),
            old(self).ids_used() < u64::MAX,
        ensures
            final(self).wf(),
            final(self).ids_used() == old(self).ids_used() + 1,
            !id_present(old(self)@, r),
            id_present(final(self)@, r),
            pos_of_id(final(self)@, r) == vstd::math::min(
                position as int,
                gaps_total(old(self)@),
            ),
            affinity_of_id(final(self)@, r) == left_affinity,
            gaps_total(final(self)@) == gaps_total(old(self)@),
            num_markers(final(self)@) == num_markers(old(self)@) + 1,
            forall|oid: MarkerId|
                #[trigger] id_present(old(self)@, oid) ==> {
                    &&& id_present(final(self)@, oid)
                    &&& pos_of_id(final(self)@, oid) == pos_of_id(old(self)@, oid)
                    &&& affinity_of_id(final(self)@, oid) == affinity_of_id(old(self)@, oid)
                },
    {
        let id = MarkerId(self.next_id);
        self.next_id = self.next_id + 1;
        proof {
            assert(self.wf());
        }
        let total = self.buffer_size();
        let p = if position < total {
            position
        } else {
            total
        };
        let ghost old_es = self@;
        let n = self.entries.len();
        let mut idx: usize = 0;
        let mut cum: usize = 0;
        let mut found = false;
        let mut g_idx: usize = 0;
        let mut g_cum: usize = 0;
        proof {
            assert(self@.subrange(0, 0) =~= Seq::<MarkerEntry>::empty());
        }
        while idx < n && !found
            invariant
                self@ == old_es,
                n == old_es.len(),
                wf_shape(old_es),
                gaps_total(old_es) <= usize::MAX,
                p <= gaps_total(old_es),
                idx <= n,
                !found ==> cum == gaps_total(old_es.subrange(0, idx as int)),
                !found ==> cum <= p,
                !found ==> forall|j: int|
                    0 <= j < idx && is_gap(#[trigger] old_es[j]) ==> gaps_total(
                        old_es.subrange(0, j + 1),
                    ) < p,
                found ==> {
                    &&& g_idx < n
                    &&& is_gap(old_es[g_idx as int])
                    &&& g_cum == gaps_total(old_es.subrange(0, g_idx as int))
                    &&& g_cum <= p <= g_cum + gap_size_of(old_es[g_idx as int])
                },
            decreases n - idx + (if found {
                0int
            } else {
                1int
            }),
        {
            proof {
                assert(old_es.subrange(0, idx + 1 as int).drop_last() =~= old_es.subrange(
                    0,
                    idx as int,
                ));
                lemma_gaps_prefix_bounds(old_es, idx + 1);
            }
            match self.entries[idx] {
                MarkerEntry::Gap(size) => {
                    if p <= cum + size {
                        g_idx = idx;
                        g_cum = cum;
                        found = true;
                    } else {
                        cum = cum + size;
                        idx = idx + 1;
                    }
                },
                MarkerEntry::Marker { .. } => {
                    idx = idx + 1;
                },
            }
        }
        proof {
            if !found {
                assert(is_gap(old_es.last()));
                assert(old_es.subrange(0, n as int) =~= old_es);
                assert(gaps_total(old_es.subrange(0, (n - 1) + 1)) < p);
                assert(false);
            }
        }
        let size = match self.entries[g_idx] {
            MarkerEntry::Gap(s) => s,
            MarkerEntry::Marker { .. } => vstd::pervasive::unreached(),
        };
        let before = p - g_cum;
        let after = size - before;
        self.entries[g_idx] = MarkerEntry::Gap(before);
        self.entries.insert(g_idx + 1, MarkerEntry::Gap(after));
        self.entries.insert(g_idx + 1, MarkerEntry::Marker { id, left_affinity });
        proof {
            assert(self@ =~= old_es.subrange(0, g_idx as int) + seq![
                MarkerEntry::Gap(before),
                MarkerEntry::Marker { id, left_affinity },
                MarkerEntry::Gap(after),
            ] + old_es.subrange(g_idx + 1, old_es.len() as int));
        }
        self.reindex_all();
        proof {
            lemma_create_shape(old_es, self@, g_idx as int, size, before, after, id, left_affinity);
            lemma_create_decomp(
                old_es,
                self@,
                g_idx as int,
                size,
                before,
                after,
                id,
                left_affinity,
            );
            lemma_create_ids(
                old_es,
                self@,
                g_idx as int,
                size,
                before,
                after,
                id,
                left_affinity,
                self.next_id,
            );
            lemma_create_preserve(
                old_es,
                self@,
                g_idx as int,
                size,
                before,
                after,
                id,
                left_affinity,
            );
        }
        id
    }

    /// Adjust all markers for an insertion of `length` bytes at
    /// `position`: exactly one gap grows (or, between two adjacent markers
    /// at the insertion point, a new gap appears).  Markers before the
    /// point stay, markers after it move, and a marker exactly at the
    /// point follows its affinity: left-affinity stays put, right-affinity
    /// moves.  A position past the buffer changes nothing.
    #[verifier::rlimit(100)]
    pub fn adjust_for_insert(&mut self, position: usize, length: usize)
        requires
            old(self).wf(),
            gaps_total(old(self)@) + length <= usize::MAX,
        ensures
            final(self).wf(),
            final(self).ids_used() == old(self).ids_used(),
            length == 0 ==> *final(self) == *old(self),
            position > gaps_total(old(self)@) ==> *final(self) == *old(self),
            (length > 0 && position <= gaps_total(old(self)@)) ==> {
                let es0 = old(self)@;
                let es1 = final(self)@;
                let p = position as int;
                &&& gaps_total(es1) == gaps_total(es0) + length
                &&& marker_ids(es1) == marker_ids(es0)
                &&& num_markers(es1) == num_markers(es0)
                &&& (forall|oid: MarkerId|
                    #[trigger] id_present(es0, oid) ==> {
                        let pos0 = pos_of_id(es0, oid);
                        &&& id_present(es1, oid)
                        &&& affinity_of_id(es1, oid) == affinity_of_id(es0, oid)
                        &&& (pos0 < p ==> pos_of_id(es1, oid) == pos0)
                        &&& (pos0 > p ==> pos_of_id(es1, oid) == pos0 + length)
                        &&& (pos0 == p ==> pos_of_id(es1, oid) == pos0 || pos_of_id(es1, oid)
                            == pos0 + length)
                        &&& (pos0 == p && pos_of_id(es1, oid) == p ==> affinity_of_id(es0, oid))
                    })
                &&& (forall|oid: MarkerId|
                    (#[trigger] id_present(es0, oid) && pos_of_id(es0, oid) == p
                        && affinity_of_id(es0, oid) && (forall|oid2: MarkerId|
                        id_present(es0, oid2) && oid2 != oid ==> pos_of_id(es0, oid2) != p))
                        ==> pos_of_id(es1, oid) == p)
            },
    {
        if length == 0 {
            return ;
        }
        let total = self.buffer_size();
        if position > total {
            return ;
        }
        let p = position;
        let ghost old_es = self@;
        let n = self.entries.len();
        let mut idx: usize = 0;
        let mut cum: usize = 0;
        let mut found = false;
        let mut target: usize = 0;
        let ghost mut grow = true;
        proof {
            assert(self@.subrange(0, 0) =~= Seq::<MarkerEntry>::empty());
        }
        while idx < n && !found
            invariant
                self@ == old_es,
                n == old_es.len(),
                wf_shape(old_es),
                gaps_total(old_es) + length <= usize::MAX,
                length > 0,
                p <= gaps_total(old_es),
                idx <= n,
                !found ==> cum == gaps_total(old_es.subrange(0, idx as int)),
                !found ==> cum <= p,
                !found ==> (idx == 0 || cum < p),
                !found ==> forall|j: int|
                    0 <= j < idx && is_gap(#[trigger] old_es[j]) ==> gaps_total(
                        old_es.subrange(0, j + 1),
                    ) < p,
                !found ==> forall|s: int|
                    0 <= s < idx && !is_gap(#[trigger] old_es[s]) ==> marker_pos_at(old_es, s) < p,
                found ==> {
                    &&& target <= n
                    &&& ains_before_ok(old_es, p as int, target as int)
                    &&& ains_after_ok(old_es, p as int, target as int)
                    &&& (grow ==> target < n && is_gap(old_es[target as int]))
                    &&& (!grow ==> 1 <= target < n && !is_gap(old_es[target as int]) && !is_gap(
                        old_es[target - 1],
                    ))
                },
            decreases n - idx + (if found {
                0int
            } else {
                1int
            }),
        {
            proof {
                assert(old_es.subrange(0, idx + 1 as int).drop_last() =~= old_es.subrange(
                    0,
                    idx as int,
                ));
                lemma_gaps_prefix_bounds(old_es, idx + 1);
            }
            match self.entries[idx] {
                MarkerEntry::Gap(size) => {
                    if p < cum + size {
                        // The insertion lands strictly inside this gap.
                        target = idx;
                        proof {
                            grow = true;
                            lemma_ains_found(
                                old_es,
                                p as int,
                                idx as int,
                                cum as int,
                                size,
                                idx as int,
                            );
                        }
                        found = true;
                    } else if p == cum + size {
                        // The insertion sits exactly at this gap's end.
                        if idx + 1 < n {
                            match self.entries[idx + 1] {
                                MarkerEntry::Marker { left_affinity: la, .. } => {
                                    if la {
                                        // Left affinity: the insertion goes after
                                        // the marker.
                                        target = idx + 2;
                                        proof {
                                            lemma_ains_found(
                                                old_es,
                                                p as int,
                                                idx as int,
                                                cum as int,
                                                size,
                                                idx + 2 as int,
                                            );
                                            grow = is_gap(old_es[idx + 2 as int]);
                                        }
                                        found = true;
                                    } else {
                                        // Right affinity: the insertion goes
                                        // before the marker.
                                        target = idx;
                                        proof {
                                            grow = true;
                                            lemma_ains_found(
                                                old_es,
                                                p as int,
                                                idx as int,
                                                cum as int,
                                                size,
                                                idx as int,
                                            );
                                        }
                                        found = true;
                                    }
                                },
                                MarkerEntry::Gap(_) => {
                                    // Two adjacent gaps cannot occur.
                                    proof {
                                        assert(false);
                                    }
                                    target = idx;
                                    found = true;
                                },
                            }
                        } else {
                            // The gap is the last entry: extend it.
                            target = idx;
                            proof {
                                grow = true;
                                lemma_ains_found(
                                    old_es,
                                    p as int,
                                    idx as int,
                                    cum as int,
                                    size,
                                    idx as int,
                                );
                            }
                            found = true;
                        }
                    } else {
                        cum = cum + size;
                        idx = idx + 1;
                    }
                },
                MarkerEntry::Marker { .. } => {
                    proof {
                        assert(marker_pos_at(old_es, idx as int) == cum);
                        assert(cum < p) by {
                            if idx == 0 {
                                assert(is_gap(old_es[0]));
                            }
                        }
                    }
                    idx = idx + 1;
                },
            }
        }
        proof {
            if !found {
                assert(is_gap(old_es.last()));
                assert(old_es.subrange(0, n as int) =~= old_es);
                assert(gaps_total(old_es.subrange(0, (n - 1) + 1)) < p);
                assert(false);
            }
        }
        match self.entries[target] {
            MarkerEntry::Gap(size) => {
                proof {
                    lemma_gap_le_total(old_es, target as int);
                    lemma_gaps_total_nonneg(old_es);
                }
                self.entries[target] = MarkerEntry::Gap(size + length);
                proof {
                    assert(self@ =~= old_es.update(
                        target as int,
                        MarkerEntry::Gap((gap_size_of(old_es[target as int]) + length) as usize),
                    ));
                }
            },
            MarkerEntry::Marker { .. } => {
                self.entries.insert(target, MarkerEntry::Gap(length));
                proof {
                    assert(self@ =~= old_es.subrange(0, target as int) + seq![
                        MarkerEntry::Gap(length),
                    ] + old_es.subrange(target as int, old_es.len() as int));
                }
            },
        }
        self.reindex_all();
        proof {
            lemma_adjust_insert_post(
                old_es,
                self@,
                p as int,
                length,
                target as int,
                is_gap(old_es[target as int]),
            );
        }
    }

    /// Adjust all markers for a deletion of `length` bytes at `position`:
    /// gaps lose their overlap with the deleted range, markers whose
    /// position lies inside `[position, position + length)` are removed,
    /// the survivors keep their relative order, and gaps left adjacent by
    /// a removal are merged.
    #[verifier::rlimit(100)]
    pub fn adjust_for_delete(&mut self, position: usize, length: usize)
        requires
            old(self).wf(),
            position + length <= usize::MAX,
        ensures
            final(self).wf(),
            final(self).ids_used() == old(self).ids_used(),
            length == 0 ==> *final(self) == *old(self),
            length > 0 ==> {
                let es0 = old(self)@;
                let es1 = final(self)@;
                let p = position as int;
                let de = p + length;
                let total = gaps_total(es0);
                &&& gaps_total(es1) == total - removed_before(p, de, total)
                &&& marker_ids(es1) == surviving_ids(es0, p, de)
                &&& (forall|oid: MarkerId|
                    #[trigger] id_present(es0, oid) ==> {
                        let pos0 = pos_of_id(es0, oid);
                        if p <= pos0 < de {
                            !id_present(es1, oid)
                        } else {
                            &&& id_present(es1, oid)
                            &&& affinity_of_id(es1, oid) == affinity_of_id(es0, oid)
                            &&& pos_of_id(es1, oid) == pos0 - removed_before(p, de, pos0)
                        }
                    })
                &&& (forall|oid: MarkerId|
                    #[trigger] id_present(es1, oid) ==> id_present(es0, oid))
            },
    {
        if length == 0 {
            return ;
        }
        let delete_end = position + length;
        let ghost old_es = self@;
        let ghost p = position as int;
        let ghost de = delete_end as int;
        proof {
            lemma_gaps_total_nonneg(old_es);
        }
        let n = self.entries.len();
        let mut out: Vec<MarkerEntry> = Vec::new();
        let mut pending: usize = 0;
        let mut cum: usize = 0;
        let mut i: usize = 0;
        proof {
            assert(old_es.subrange(0, 0) =~= Seq::<MarkerEntry>::empty());
            assert(index_pairs(out@) =~= Seq::<(u64, int)>::empty());
            assert(surviving_ids(old_es.subrange(0, 0), p, de) =~= Seq::<u64>::empty());
            assert(marker_ids(out@) =~= Seq::<u64>::empty());
        }
        while i < n
            invariant
                self@ == old_es,
                n == old_es.len(),
                wf_shape(old_es),
                gaps_total(old_es) <= usize::MAX,
                p == position as int,
                de == delete_end as int,
                p >= 0,
                de == p + length,
                length > 0,
                i <= n,
                forall|k1: int, k2: int|
                    0 <= k1 < k2 < index_pairs(old_es).len() ==> index_pairs(old_es)[k1].0
                        != index_pairs(old_es)[k2].0,
                cum == gaps_total(old_es.subrange(0, i as int)),
                cum <= gaps_total(old_es),
                rebuild_shape(out@),
                forall|k1: int, k2: int|
                    0 <= k1 < k2 < index_pairs(out@).len() ==> index_pairs(out@)[k1].0
                        != index_pairs(out@)[k2].0,
                gaps_total(out@) + pending == gaps_total(old_es.subrange(0, i as int))
                    - removed_before(p, de, gaps_total(old_es.subrange(0, i as int))),
                marker_ids(out@) == surviving_ids(old_es.subrange(0, i as int), p, de),
                forall|oid: MarkerId| #[trigger]
                    id_present(out@, oid) == (id_present(old_es.subrange(0, i as int), oid) && !(p
                        <= pos_of_id(old_es.subrange(0, i as int), oid) < de)),
                forall|oid: MarkerId|
                    #[trigger] id_present(out@, oid) ==> pos_of_id(out@, oid) == pos_of_id(
                        old_es.subrange(0, i as int),
                        oid,
                    ) - removed_before(p, de, pos_of_id(old_es.subrange(0, i as int), oid))
                        && affinity_of_id(out@, oid) == affinity_of_id(
                        old_es.subrange(0, i as int),
                        oid,
                    ),
            decreases n - i,
        {
            proof {
                lemma_gaps_prefix_bounds(old_es, i + 1);
            }
            let ghost pre = old_es.subrange(0, i as int);
            let ghost pre1 = old_es.subrange(0, i + 1 as int);
            match self.entries[i] {
                MarkerEntry::Gap(size) => {
                    proof {
                        lemma_pre_step_gap(old_es, i as int, p, de);
                    }
                    let gap_start = cum;
                    let gap_end = cum + size;
                    let ov_lo = if position > gap_start {
                        position
                    } else {
                        gap_start
                    };
                    let ov_hi = if delete_end < gap_end {
                        delete_end
                    } else {
                        gap_end
                    };
                    let kept = if ov_hi > ov_lo {
                        size - (ov_hi - ov_lo)
                    } else {
                        size
                    };
                    proof {
                        assert(old_es[i as int] == MarkerEntry::Gap(size));
                        assert(gaps_total(pre1) == cum + size);
                        lemma_gaps_total_nonneg(out@);
                        assert(removed_before(p, de, cum + size) - removed_before(p, de, cum as int)
                            == size - kept) by {
                            if delete_end <= gap_start {
                                assert(vstd::math::min(de, cum + size) == de);
                                assert(vstd::math::min(p, cum + size) == p);
                            } else if position >= gap_end {
                            } else {
                            }
                        }
                        assert(gaps_total(out@) + pending + kept == gaps_total(pre1)
                            - removed_before(p, de, gaps_total(pre1)));
                        assert(removed_before(p, de, gaps_total(pre1)) >= 0);
                        assert(gaps_total(pre1) <= gaps_total(old_es));
                        assert forall|oid: MarkerId| #[trigger]
                            id_present(out@, oid) == (id_present(pre1, oid) && !(p <= pos_of_id(
                                pre1,
                                oid,
                            ) < de)) by {
                            assert(id_present(pre1, oid) == id_present(pre, oid));
                            if id_present(pre, oid) {
                                assert(pos_of_id(pre1, oid) == pos_of_id(pre, oid));
                            }
                        }
                        assert forall|oid: MarkerId| #[trigger] id_present(out@, oid) implies
                            pos_of_id(out@, oid) == pos_of_id(pre1, oid) - removed_before(
                            p,
                            de,
                            pos_of_id(pre1, oid),
                        ) && affinity_of_id(out@, oid) == affinity_of_id(pre1, oid) by {
                            assert(id_present(pre, oid));
                            assert(pos_of_id(pre1, oid) == pos_of_id(pre, oid));
                            assert(affinity_of_id(pre1, oid) == affinity_of_id(pre, oid));
                        }
                    }
                    pending = pending + kept;
                    cum = gap_end;
                },
                MarkerEntry::Marker { id, left_affinity } => {
                    proof {
                        assert(old_es[i as int] == MarkerEntry::Marker { id, left_affinity });
                        lemma_pre_step_marker(old_es, i as int, p, de);
                        lemma_pair_index_absent(index_pairs(pre), id.0);
                        assert(!id_present(pre, id));
                    }
                    if position <= cum && cum < delete_end {
                        // The marker lies inside the deleted range: drop it.
                        proof {
                            assert(pos_of_id(pre1, id) == cum);
                            assert forall|oid: MarkerId| #[trigger]
                                id_present(out@, oid) == (id_present(pre1, oid) && !(p
                                    <= pos_of_id(pre1, oid) < de)) by {
                                if oid.0 == id.0 {
                                    assert(oid == id);
                                    assert(!id_present(out@, oid)) by {
                                        if id_present(out@, oid) {
                                            assert(id_present(pre, oid));
                                        }
                                    }
                                } else {
                                    assert(id_present(pre1, oid) == id_present(pre, oid));
                                    if id_present(pre, oid) {
                                        assert(pos_of_id(pre1, oid) == pos_of_id(pre, oid));
                                    }
                                }
                            }
                            assert forall|oid: MarkerId| #[trigger] id_present(out@, oid) implies
                                pos_of_id(out@, oid) == pos_of_id(pre1, oid) - removed_before(
                                p,
                                de,
                                pos_of_id(pre1, oid),
                            ) && affinity_of_id(out@, oid) == affinity_of_id(pre1, oid) by {
                                assert(id_present(pre, oid));
                                assert(oid.0 != id.0);
                                assert(pos_of_id(pre1, oid) == pos_of_id(pre, oid));
                                assert(affinity_of_id(pre1, oid) == affinity_of_id(pre, oid));
                            }
                            assert(surviving_ids(pre1, p, de) =~= surviving_ids(pre, p, de));
                            assert(marker_ids(out@) =~= surviving_ids(pre1, p, de));
                        }
                    } else {
                        let ghost out0 = out@;
                        let flushed = pending;
                        proof {
                            assert forall|k: int|
                                0 <= k < index_pairs(out0).len() implies (#[trigger] index_pairs(
                                out0,
                            )[k].0) != id.0 by {
                                if index_pairs(out0)[k].0 == id.0 {
                                    lemma_pair_index_unique(index_pairs(out0), id.0, k);
                                    assert(id_present(out0, MarkerId(id.0)));
                                    assert(MarkerId(id.0) == id);
                                    assert(id_present(pre, id));
                                    assert(false);
                                }
                            }
                        }
                        out.push(MarkerEntry::Gap(flushed));
                        out.push(MarkerEntry::Marker { id, left_affinity });
                        pending = 0;
                        proof {
                            assert(out@ =~= out0 + seq![MarkerEntry::Gap(flushed), MarkerEntry::Marker {
                                id,
                                left_affinity,
                            }]);
                            lemma_rebuild_push(out0, out@, flushed, id, left_affinity);
                            let ip1 = index_pairs(out@);
                            let ip0 = index_pairs(out0);
                            assert forall|k1: int, k2: int|
                                0 <= k1 < k2 < ip1.len() implies ip1[k1].0 != ip1[k2].0 by {
                                if k2 < ip0.len() {
                                    assert(ip1[k1] == ip0[k1] && ip1[k2] == ip0[k2]);
                                } else {
                                    assert(ip1[k1] == ip0[k1]);
                                }
                            }
                            assert(marker_ids(out@) =~= marker_ids(out0).push(id.0));
                            assert(surviving_ids(pre1, p, de) =~= surviving_ids(pre, p, de)
                                + seq![id.0]);
                            assert(marker_ids(out0).push(id.0) =~= surviving_ids(pre, p, de)
                                + seq![id.0]);
                            assert(marker_ids(out@) =~= surviving_ids(pre1, p, de));
                            assert forall|oid: MarkerId| #[trigger]
                                id_present(out@, oid) == (id_present(pre1, oid) && !(p
                                    <= pos_of_id(pre1, oid) < de)) by {
                                if oid.0 == id.0 {
                                    assert(oid == id);
                                    assert(id_present(out@, id));
                                    assert(id_present(pre1, id));
                                    assert(pos_of_id(pre1, id) == cum);
                                } else {
                                    assert(id_present(out@, oid) == id_present(out0, oid));
                                    assert(id_present(pre1, oid) == id_present(pre, oid));
                                    if id_present(pre, oid) {
                                        assert(pos_of_id(pre1, oid) == pos_of_id(pre, oid));
                                    }
                                }
                            }
                            assert forall|oid: MarkerId|
                                #[trigger] id_present(out@, oid) implies pos_of_id(out@, oid)
                                == pos_of_id(pre1, oid) - removed_before(
                                p,
                                de,
                                pos_of_id(pre1, oid),
                            ) && affinity_of_id(out@, oid) == affinity_of_id(pre1, oid) by {
                                if oid.0 == id.0 {
                                    assert(oid == id);
                                    assert(pos_of_id(pre1, id) == cum);
                                    assert(pos_of_id(out@, id) == gaps_total(out0) + flushed);
                                } else {
                                    assert(id_present(out0, oid));
                                }
                            }
                        }
                    }
                },
            }
            i = i + 1;
        }
        proof {
            assert(old_es.subrange(0, n as int) =~= old_es);
        }
        let ghost out0 = out@;
        out.push(MarkerEntry::Gap(pending));
        proof {
            lemma_rebuild_finish(out0, out@, pending);
        }
        self.entries = out;
        self.reindex_all();
        proof {
            let es1 = self@;
            assert(old_es.subrange(0, n as int) =~= old_es);
            assert forall|oid: MarkerId| #[trigger] id_present(es1, oid) == id_present(
                out0,
                oid,
            ) by {}
            let ip1 = index_pairs(es1);
            assert forall|k: int| 0 <= k < ip1.len() implies #[trigger] ip1[k].0
                < self.next_id by {
                lemma_pair_index_unique(ip1, ip1[k].0, k);
                assert(id_present(es1, MarkerId(ip1[k].0)));
                assert(id_present(old_es, MarkerId(ip1[k].0)));
                let ko = pair_index_of(index_pairs(old_es), ip1[k].0);
                lemma_pair_index_found(index_pairs(old_es), ip1[k].0);
            }
            assert forall|oid: MarkerId| #[trigger] id_present(old_es, oid) implies {
                let pos0 = pos_of_id(old_es, oid);
                if p <= pos0 < de {
                    !id_present(es1, oid)
                } else {
                    &&& id_present(es1, oid)
                    &&& affinity_of_id(es1, oid) == affinity_of_id(old_es, oid)
                    &&& pos_of_id(es1, oid) == pos0 - removed_before(p, de, pos0)
                }
            } by {
                if !(p <= pos_of_id(old_es, oid) < de) {
                    assert(id_present(out0, oid));
                    assert(pos_of_id(out0, oid) == pos_of_id(old_es, oid) - removed_before(
                        p,
                        de,
                        pos_of_id(old_es, oid),
                    ));
                }
            }
        }
    }

    /// Delete the marker with this id, merging the gaps around it; an
    /// absent id changes nothing.  Every other marker keeps its position
    /// and affinity.
    #[verifier::rlimit(100)]
    pub fn delete(&mut self, id: MarkerId)
        requires
            old(self).wf(),
        ensures
            final(self).wf(),
            final(self).ids_used() == old(self).ids_used(),
            !id_present(old(self)@, id) ==> *final(self) == *old(self),
            id_present(old(self)@, id) ==> {
                let es0 = old(self)@;
                let es1 = final(self)@;
                &&& !id_present(es1, id)
                &&& gaps_total(es1) == gaps_total(es0)
                &&& num_markers(es1) == num_markers(es0) - 1
                &&& (forall|oid: MarkerId|
                    oid != id ==> #[trigger] id_present(es1, oid) == id_present(es0, oid))
                &&& (forall|oid: MarkerId|
                    oid != id && #[trigger] id_present(es0, oid) ==> pos_of_id(es1, oid)
                        == pos_of_id(es0, oid) && affinity_of_id(es1, oid) == affinity_of_id(
                        es0,
                        oid,
                    ))
            },
    {
        // The id index is the fast path: an absent id is a no-op.
        let m = self.marker_index.len();
        let mut k: usize = 0;
        let mut found = false;
        while k < m && !found
            invariant
                k <= m == self.marker_index@.len(),
                self.wf(),
                found ==> k < m && (#[trigger] self.marker_index@[k as int].0).0 == id.0,
                !found ==> forall|j: int| 0 <= j < k ==> (#[trigger] self.marker_index@[j].0).0
                    != id.0,
            decreases m - k + (if found {
                0int
            } else {
                1int
            }),
        {
            if self.marker_index[k].0.0 == id.0 {
                found = true;
            } else {
                proof {
                    assert(self.index_view()[k as int].0 == self.marker_index@[k as int].0.0);
                }
                k = k + 1;
            }
        }
        if !found {
            proof {
                assert(forall|j: int|
                    0 <= j < index_pairs(self@).len() ==> (#[trigger] index_pairs(self@)[j].0)
                        != id.0);
                lemma_pair_index_absent(index_pairs(self@), id.0);
            }
            return ;
        }
        proof {
            assert(self.index_view()[k as int].0 == id.0);
            lemma_pair_index_unique(index_pairs(self@), id.0, k as int);
            assert(id_present(self@, id));
        }
        let ghost old_es = self@;
        let n = self.entries.len();
        let mut out: Vec<MarkerEntry> = Vec::new();
        let mut pending: usize = 0;
        let mut i: usize = 0;
        proof {
            lemma_gaps_total_nonneg(old_es);
            assert(old_es.subrange(0, 0) =~= Seq::<MarkerEntry>::empty());
            assert(index_pairs(out@) =~= Seq::<(u64, int)>::empty());
        }
        while i < n
            invariant
                self@ == old_es,
                n == old_es.len(),
                wf_shape(old_es),
                gaps_total(old_es) <= usize::MAX,
                i <= n,
                forall|k1: int, k2: int|
                    0 <= k1 < k2 < index_pairs(old_es).len() ==> index_pairs(old_es)[k1].0
                        != index_pairs(old_es)[k2].0,
                rebuild_shape(out@),
                forall|k1: int, k2: int|
                    0 <= k1 < k2 < index_pairs(out@).len() ==> index_pairs(out@)[k1].0
                        != index_pairs(out@)[k2].0,
                gaps_total(out@) + pending == gaps_total(old_es.subrange(0, i as int)),
                !id_present(out@, id),
                index_pairs(out@).len() == index_pairs(old_es.subrange(0, i as int)).len() - (
                if id_present(old_es.subrange(0, i as int), id) {
                    1int
                } else {
                    0int
                }),
                forall|oid: MarkerId|
                    oid != id ==> #[trigger] id_present(out@, oid) == id_present(
                        old_es.subrange(0, i as int),
                        oid,
                    ),
                forall|oid: MarkerId|
                    #[trigger] id_present(out@, oid) ==> pos_of_id(out@, oid) == pos_of_id(
                        old_es.subrange(0, i as int),
                        oid,
                    ) && affinity_of_id(out@, oid) == affinity_of_id(
                        old_es.subrange(0, i as int),
                        oid,
                    ),
            decreases n - i,
        {
            proof {
                lemma_gaps_prefix_bounds(old_es, i + 1);
            }
            let ghost pre = old_es.subrange(0, i as int);
            let ghost pre1 = old_es.subrange(0, i + 1 as int);
            match self.entries[i] {
                MarkerEntry::Gap(size) => {
                    proof {
                        lemma_pre_step_gap(old_es, i as int, 0, 0);
                        lemma_gaps_total_nonneg(out@);
                    }
                    pending = pending + size;
                },
                MarkerEntry::Marker { id: mid, left_affinity } => {
                    proof {
                        assert(old_es[i as int] == MarkerEntry::Marker {
                            id: mid,
                            left_affinity,
                        });
                        lemma_pre_step_marker(old_es, i as int, 0, 0);
                        lemma_pair_index_absent(index_pairs(pre), mid.0);
                        assert(!id_present(pre, mid));
                    }
                    if mid.0 == id.0 {
                        proof {
                            assert(mid == id);
                            assert forall|oid: MarkerId| oid != id implies #[trigger] id_present(
                                out@,
                                oid,
                            ) == id_present(pre1, oid) by {
                                assert(id_present(pre1, oid) == id_present(pre, oid));
                            }
                            assert forall|oid: MarkerId| #[trigger]
                                id_present(out@, oid) implies pos_of_id(out@, oid) == pos_of_id(
                                pre1,
                                oid,
                            ) && affinity_of_id(out@, oid) == affinity_of_id(pre1, oid) by {
                                assert(oid != id);
                                assert(id_present(pre, oid));
                                assert(pos_of_id(pre1, oid) == pos_of_id(pre, oid));
                                assert(affinity_of_id(pre1, oid) == affinity_of_id(pre, oid));
                            }
                        }
                    } else {
                        let ghost out0 = out@;
                        let flushed = pending;
                        proof {
                            assert forall|kk: int|
                                0 <= kk < index_pairs(out0).len() implies (#[trigger] index_pairs(
                                out0,
                            )[kk].0) != mid.0 by {
                                if index_pairs(out0)[kk].0 == mid.0 {
                                    lemma_pair_index_unique(index_pairs(out0), mid.0, kk);
                                    assert(id_present(out0, MarkerId(mid.0)));
                                    assert(MarkerId(mid.0) == mid);
                                    assert(id_present(pre, mid));
                                    assert(false);
                                }
                            }
                        }
                        out.push(MarkerEntry::Gap(flushed));
                        out.push(MarkerEntry::Marker { id: mid, left_affinity });
                        pending = 0;
                        proof {
                            assert(out@ =~= out0 + seq![MarkerEntry::Gap(flushed), MarkerEntry::Marker {
                                id: mid,
                                left_affinity,
                            }]);
                            lemma_rebuild_push(out0, out@, flushed, mid, left_affinity);
                            let ip1 = index_pairs(out@);
                            let ip0 = index_pairs(out0);
                            assert forall|k1: int, k2: int|
                                0 <= k1 < k2 < ip1.len() implies ip1[k1].0 != ip1[k2].0 by {
                                if k2 < ip0.len() {
                                    assert(ip1[k1] == ip0[k1] && ip1[k2] == ip0[k2]);
                                } else {
                                    assert(ip1[k1] == ip0[k1]);
                                }
                            }
                            assert forall|oid: MarkerId| oid != id implies #[trigger] id_present(
                                out@,
                                oid,
                            ) == id_present(pre1, oid) by {
                                if oid.0 == mid.0 {
                                    assert(oid == mid);
                                    assert(id_present(out@, mid));
                                    assert(id_present(pre1, mid));
                                } else {
                                    assert(id_present(out@, oid) == id_present(out0, oid));
                                    assert(id_present(pre1, oid) == id_present(pre, oid));
                                }
                            }
                            assert(!id_present(out@, id)) by {
                                assert(id.0 != mid.0);
                                assert(id_present(out@, id) == id_present(out0, id));
                            }
                            assert forall|oid: MarkerId| #[trigger]
                                id_present(out@, oid) implies pos_of_id(out@, oid) == pos_of_id(
                                pre1,
                                oid,
                            ) && affinity_of_id(out@, oid) == affinity_of_id(pre1, oid) by {
                                if oid.0 == mid.0 {
                                    assert(oid == mid);
                                    assert(pos_of_id(pre1, mid) == gaps_total(pre));
                                    assert(pos_of_id(out@, mid) == gaps_total(out0) + flushed);
                                } else {
                                    assert(id_present(out0, oid));
                                }
                            }
                        }
                    }
                },
            }
            i = i + 1;
        }
        proof {
            assert(old_es.subrange(0, n as int) =~= old_es);
        }
        let ghost out0 = out@;
        out.push(MarkerEntry::Gap(pending));
        proof {
            lemma_rebuild_finish(out0, out@, pending);
        }
        self.entries = out;
        self.reindex_all();
        proof {
            let es1 = self@;
            let ip1 = index_pairs(es1);
            assert forall|kk: int| 0 <= kk < ip1.len() implies #[trigger] ip1[kk].0
                < self.next_id by {
                lemma_pair_index_unique(ip1, ip1[kk].0, kk);
                assert(id_present(es1, MarkerId(ip1[kk].0)));
                assert(MarkerId(ip1[kk].0) != id);
                assert(id_present(old_es, MarkerId(ip1[kk].0)));
                let ko = pair_index_of(index_pairs(old_es), ip1[kk].0);
                lemma_pair_index_found(index_pairs(old_es), ip1[kk].0);
            }
            assert forall|oid: MarkerId| oid != id implies #[trigger] id_present(es1, oid)
                == id_present(old_es, oid) by {}
            assert forall|oid: MarkerId| oid != id && #[trigger] id_present(old_es, oid) implies
                pos_of_id(es1, oid) == pos_of_id(old_es, oid) && affinity_of_id(es1, oid)
                == affinity_of_id(old_es, oid) by {
                assert(id_present(out0, oid));
            }
        }
    }

    /// Check the structural invariants, reporting the first violation;
    /// a well-formed list always passes.
    pub fn check_invariants(&self) -> (r: Result<(), String>)
        requires
            self.wf(),
        ensures
            r is Ok,
    {
        let n = self.entries.len();
        if n == 0 {
            return Err("must start with a Gap".to_owned());
        }
        match self.entries[0] {
            MarkerEntry::Gap(_) => {},
            MarkerEntry::Marker { .. } => {
                return Err("must start with a Gap".to_owned());
            },
        }
        match self.entries[n - 1] {
            MarkerEntry::Gap(_) => {},
            MarkerEntry::Marker { .. } => {
                return Err("must end with a Gap".to_owned());
            },
        }
        let mut j: usize = 0;
        while j < n - 1
            invariant
                self.wf(),
                n == self@.len(),
                n >= 1,
                j <= n,
            decreases n - j,
        {
            let a_gap = match self.entries[j] {
                MarkerEntry::Gap(_) => true,
                MarkerEntry::Marker { .. } => false,
            };
            let b_gap = match self.entries[j + 1] {
                MarkerEntry::Gap(_) => true,
                MarkerEntry::Marker { .. } => false,
            };
            if a_gap && b_gap {
                return Err("adjacent gaps found".to_owned());
            }
            j = j + 1;
        }
        // The id index must point at the markers it names.
        let m = self.marker_index.len();
        let mut k: usize = 0;
        while k < m
            invariant
                self.wf(),
                m == self.marker_index@.len(),
                n == self@.len(),
            decreases m - k,
        {
            let (mid, slot) = self.marker_index[k];
            proof {
                assert(self.index_view()[k as int] == (mid.0, slot as int));
                lemma_index_pairs_valid(self@);
            }
            if slot >= n {
                return Err("marker index out of bounds".to_owned());
            }
            let ok = match self.entries[slot] {
                MarkerEntry::Marker { id, .. } => id.0 == mid.0,
                MarkerEntry::Gap(_) => false,
            };
            if !ok {
                return Err("marker index mismatch".to_owned());
            }
            k = k + 1;
        }
        Ok(())
    }

    /// The current byte position of a marker, or `None` for an id that is
    /// not (or no longer) present.
    pub fn get_position(&self, id: MarkerId) -> (r: Option<usize>)
        requires
            self.wf(),
        ensures
            id_present(self@, id) ==> r == Some(pos_of_id(self@, id) as usize),
            !id_present(self@, id) ==> r is None,
    {
        let m = self.marker_index.len();
        let mut k: usize = 0;
        while k < m
            invariant
                k <= m == self.marker_index@.len(),
                self.wf(),
                forall|j: int| 0 <= j < k ==> (#[trigger] self.marker_index@[j].0).0 != id.0,
            decreases m - k,
        {
            let (mid, slot) = self.marker_index[k];
            if mid.0 == id.0 {
                proof {
                    assert(self.index_view()[k as int] == (mid.0, slot as int));
                    lemma_pair_index_unique(index_pairs(self@), id.0, k as int);
                    assert(slot_of_id(self@, id) == slot);
                    lemma_index_pairs_valid(self@);
                    lemma_gaps_prefix_bounds(self@, slot as int);
                }
                // Sum the gaps before the marker's slot.
                let mut pos: usize = 0;
                let mut i: usize = 0;
                proof {
                    assert(self@.subrange(0, 0) =~= Seq::<MarkerEntry>::empty());
                }
                while i < slot
                    invariant
                        i <= slot < self@.len(),
                        self.wf(),
                        gaps_total(self@) <= usize::MAX,
                        pos == gaps_total(self@.subrange(0, i as int)),
                    decreases slot - i,
                {
                    proof {
                        assert(self@.subrange(0, i + 1 as int).drop_last() =~= self@.subrange(
                            0,
                            i as int,
                        ));
                        lemma_gaps_prefix_bounds(self@, i + 1);
                        lemma_gaps_prefix_bounds(self@, slot as int);
                    }
                    match self.entries[i] {
                        MarkerEntry::Gap(size) => {
                            pos = pos + size;
                        },
                        MarkerEntry::Marker { .. } => {},
                    }
                    i = i + 1;
                }
                return Some(pos);
            }
            proof {
                assert(self.index_view()[k as int].0 == mid.0);
            }
            k = k + 1;
        }
        proof {
            assert(forall|j: int|
                0 <= j < index_pairs(self@).len() ==> (#[trigger] index_pairs(self@)[j].0)
                    != id.0);
            lemma_pair_index_absent(index_pairs(self@), id.0);
        }
        None
    }
}

} // verus!
