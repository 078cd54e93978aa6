//! The storage grid: rows of columns of zones, with capacity bookkeeping,
//! contiguous placement, defragmentation and expiry-ordered removal.
//!
//! Positions are 1-based `(row, column, zone)` triples. Every level keeps a
//! `capacity` and an `available_space` counter; well-formedness
//! ([`Warehouse::wf`]) ties each counter to the zones below it, and every
//! operation preserves it. Contracts speak of the flattened occupancy view
//! ([`Warehouse::flat`]): the zone contents in row-major, column-major,
//! zone-major order.

use crate::date::Date;
use crate::product::ProductItem;
use crate::seqtools::block_of;
use crate::seqtools::block_weights;
use crate::seqtools::cat;
use crate::seqtools::lemma_cat_index;
use crate::seqtools::lemma_cat_update;
use crate::seqtools::lemma_offset_bounds;
use crate::seqtools::lemma_offset_drop_first;
use crate::seqtools::lemma_weight_bound01;
use crate::seqtools::lemma_weight_cat;
use crate::seqtools::lemma_weight_concat;
use crate::seqtools::lemma_weight_pos;
use crate::seqtools::lemma_weight_update;
use crate::seqtools::offset_of;
use crate::seqtools::sum_ints;
use crate::seqtools::weight;
use vstd::prelude::*;

verus! {

/// What one zone holds, as plain content: the occupant's product id and
/// optional expiration date, or nothing.
pub type Occupancy = Option<(u32, Option<Date>)>;

#[derive(Debug)]
pub enum ErrorKind {
    InsufficientSpace,
    NoContiguousSpace,
    NoProductFound,
    ZoneNotFound((usize, usize, usize)),
    ZoneOccupied((usize, usize, usize)),
    ZoneEmpty((usize, usize, usize)),
    ColumnNotFound((usize, usize)),
    RowNotFound(usize),
}

#[derive(Debug, Clone, PartialEq, Eq)]
pub struct Zone {
    pub zone_number: usize,
    pub column_number: usize,
    pub row_number: usize,
    pub item: Option<ProductItem>,
}

#[derive(Debug, Clone, PartialEq, Eq)]
pub struct Column {
    pub column_number: usize,
    pub row_number: usize,
    pub capacity: usize,
    pub available_space: usize,
    pub zones: Vec<Zone>,
}

#[derive(Debug, Clone, PartialEq, Eq)]
pub struct Row {
    pub row_number: usize,
    pub column_count: usize,
    pub capacity: usize,
    pub available_space: usize,
    pub columns: Vec<Column>,
}

#[derive(Debug, Clone, PartialEq, Eq)]
pub struct Warehouse {
    pub row_count: usize,
    pub column_count: usize,
    pub capacity: usize,
    pub available_space: usize,
    pub rows: Vec<Row>,
}

/// How many zones of the view are empty.
pub open spec fn count_empty(s: Seq<Occupancy>) -> int {
    weight(s, |o: Occupancy| if o is None { 1int } else { 0int })
}

/// Whether a zone content belongs to product `id`.
pub open spec fn holds_id(o: Occupancy, id: u32) -> bool {
    match o {
        Some(p) => p.0 == id,
        None => false,
    }
}

/// How many zones of the view hold product `id`.
pub open spec fn count_id(s: Seq<Occupancy>, id: u32) -> int {
    weight(s, |o: Occupancy| if holds_id(o, id) { 1int } else { 0int })
}

/// Whether any zone of the view holds product `id`.
pub open spec fn has_id_in(s: Seq<Occupancy>, id: u32) -> bool {
    exists|k: int| 0 <= k < s.len() && holds_id(#[trigger] s[k], id)
}

/// The positions (0-based, ascending) of the view that hold product `id`.
pub open spec fn hits(s: Seq<Occupancy>, id: u32) -> Seq<int>
    decreases s.len(),
{
    if s.len() == 0 {
        Seq::empty()
    } else if holds_id(s.last(), id) {
        hits(s.drop_last(), id).push(s.len() - 1)
    } else {
        hits(s.drop_last(), id)
    }
}

/// A run of `len` consecutive empty zones starting at `start`, within the
/// view; a zero-length run only counts at a real position.
pub open spec fn run_at(s: Seq<Occupancy>, start: int, len: int) -> bool {
    &&& 0 <= start < s.len()
    &&& start + len <= s.len()
    &&& forall|k: int| start <= k < start + len ==> s[k] is None
}

/// Whether the view holds any run of `len` consecutive empty zones.
pub open spec fn has_empty_run(s: Seq<Occupancy>, len: int) -> bool {
    exists|start: int| run_at(s, start, len)
}

/// A run long enough for `n` zones is long enough for fewer.
pub proof fn lemma_run_shrinks(s: Seq<Occupancy>, n: int, m: int)
    requires
        has_empty_run(s, n),
        0 <= m <= n,
    ensures
        has_empty_run(s, m),
{
    let start = choose|start: int| run_at(s, start, n);
    assert(run_at(s, start, m));
}

/// The view with every zone of product `id` cleared.
pub open spec fn erase_id(s: Seq<Occupancy>, id: u32) -> Seq<Occupancy> {
    s.map_values(|o: Occupancy| if holds_id(o, id) { None } else { o })
}

/// Erasing a product empties exactly its zones.
pub proof fn lemma_erase_id(s: Seq<Occupancy>, id: u32)
    ensures
        erase_id(s, id).len() == s.len(),
        forall|i: int|
            0 <= i < s.len() ==> #[trigger] erase_id(s, id)[i] == (if holds_id(s[i], id) {
                None
            } else {
                s[i]
            }),
        count_id(erase_id(s, id), id) == 0,
        count_empty(erase_id(s, id)) == count_empty(s) + count_id(s, id),
    decreases s.len(),
{
    let fe = |o: Occupancy| if o is None { 1int } else { 0int };
    let fi = |o: Occupancy| if holds_id(o, id) { 1int } else { 0int };
    if s.len() == 0 {
        assert(erase_id(s, id).map_values(fe) =~= Seq::<int>::empty());
        assert(erase_id(s, id).map_values(fi) =~= Seq::<int>::empty());
        assert(s.map_values(fe) =~= Seq::<int>::empty());
        assert(s.map_values(fi) =~= Seq::<int>::empty());
    } else {
        lemma_erase_id(s.drop_last(), id);
        assert(erase_id(s.drop_last(), id) =~= erase_id(s, id).drop_last());
        crate::seqtools::lemma_weight_drop_last(s, fe);
        crate::seqtools::lemma_weight_drop_last(s, fi);
        crate::seqtools::lemma_weight_drop_last(erase_id(s, id), fe);
        crate::seqtools::lemma_weight_drop_last(erase_id(s, id), fi);
        assert(erase_id(s, id).last() == (if holds_id(s.last(), id) {
            None
        } else {
            s.last()
        }));
    }
}

/// The first occurrence position is the first hit.
pub proof fn lemma_first_hit(s: Seq<Occupancy>, id: u32, p: int)
    requires
        0 <= p < s.len(),
        holds_id(s[p], id),
        forall|k: int| 0 <= k < p ==> !holds_id(s[k], id),
    ensures
        hits(s, id).len() >= 1,
        hits(s, id)[0] == p,
{
    lemma_hits(s, id);
    assert(hits(s, id).contains(p));
    let j = choose|j: int| 0 <= j < hits(s, id).len() && hits(s, id)[j] == p;
    if j > 0 {
        assert(hits(s, id)[0] < hits(s, id)[j]);
        assert(holds_id(s[hits(s, id)[0]], id));
        assert(false);
    }
}

/// Extending a window by one zone adds its emptiness.
pub proof fn lemma_count_empty_window_succ(s: Seq<Occupancy>, from: int, i: int)
    requires
        0 <= from <= i < s.len(),
    ensures
        count_empty(s.subrange(from, i + 1)) == count_empty(s.subrange(from, i)) + (if s[i]
            is None {
            1int
        } else {
            0int
        }),
{
    let f = |o: Occupancy| if o is None { 1int } else { 0int };
    crate::seqtools::lemma_weight_drop_last(s.subrange(from, i + 1), f);
    assert(s.subrange(from, i + 1).drop_last() =~= s.subrange(from, i));
    assert(s.subrange(from, i + 1).last() == s[i]);
}

/// A window's emptiness splits at any interior point.
pub proof fn lemma_count_empty_window_split(s: Seq<Occupancy>, from: int, mid: int, to: int)
    requires
        0 <= from <= mid <= to <= s.len(),
    ensures
        count_empty(s.subrange(from, to)) == count_empty(s.subrange(from, mid)) + count_empty(
            s.subrange(mid, to),
        ),
{
    lemma_count_empty_concat(s.subrange(from, mid), s.subrange(mid, to));
    assert(s.subrange(from, mid) + s.subrange(mid, to) =~= s.subrange(from, to));
}

/// The tail emptiness splits off the zone at its head.
pub proof fn lemma_count_empty_skip_succ(s: Seq<Occupancy>, i: int)
    requires
        0 <= i < s.len(),
    ensures
        count_empty(s.skip(i)) == count_empty(s.skip(i + 1)) + (if s[i] is None {
            1int
        } else {
            0int
        }),
{
    let f = |o: Occupancy| if o is None { 1int } else { 0int };
    crate::seqtools::lemma_weight_split(s.skip(i), 0, f);
    assert(s.skip(i).take(0) =~= Seq::<Occupancy>::empty());
    assert(s.skip(i)[0] == s[i]);
    assert(s.skip(i).skip(1) =~= s.skip(i + 1));
    assert(count_empty(Seq::<Occupancy>::empty()) == 0) by {
        assert(Seq::<Occupancy>::empty().map_values(f) =~= Seq::<int>::empty());
    }
}

/// A fully empty window counts its whole length.
pub proof fn lemma_count_empty_full_window(s: Seq<Occupancy>, a: int, b: int)
    requires
        0 <= a <= b <= s.len(),
        forall|k: int| a <= k < b ==> s[k] is None,
    ensures
        count_empty(s.subrange(a, b)) == b - a,
    decreases b - a,
{
    if a == b {
        assert(s.subrange(a, b) =~= Seq::<Occupancy>::empty());
        assert(count_empty(Seq::<Occupancy>::empty()) == 0) by {
            assert(Seq::<Occupancy>::empty().map_values(
                |o: Occupancy| if o is None { 1int } else { 0int },
            ) =~= Seq::<int>::empty());
        }
    } else {
        lemma_count_empty_full_window(s, a, b - 1);
        lemma_count_empty_window_succ(s, a, b - 1);
    }
}

/// A fully occupied window counts no empty zone.
pub proof fn lemma_count_empty_empty_window(s: Seq<Occupancy>, a: int, b: int)
    requires
        0 <= a <= b <= s.len(),
        forall|k: int| a <= k < b ==> s[k] is Some,
    ensures
        count_empty(s.subrange(a, b)) == 0,
    decreases b - a,
{
    if a == b {
        assert(s.subrange(a, b) =~= Seq::<Occupancy>::empty());
        assert(count_empty(Seq::<Occupancy>::empty()) == 0) by {
            assert(Seq::<Occupancy>::empty().map_values(
                |o: Occupancy| if o is None { 1int } else { 0int },
            ) =~= Seq::<int>::empty());
        }
    } else {
        lemma_count_empty_empty_window(s, a, b - 1);
        lemma_count_empty_window_succ(s, a, b - 1);
    }
}

/// A product's zones and the empty zones never overlap.
pub proof fn lemma_count_id_empty_disjoint(s: Seq<Occupancy>, id: u32)
    ensures
        count_id(s, id) + count_empty(s) <= s.len(),
    decreases s.len(),
{
    let fe = |o: Occupancy| if o is None { 1int } else { 0int };
    let fi = |o: Occupancy| if holds_id(o, id) { 1int } else { 0int };
    if s.len() == 0 {
        assert(s.map_values(fe) =~= Seq::<int>::empty());
        assert(s.map_values(fi) =~= Seq::<int>::empty());
    } else {
        lemma_count_id_empty_disjoint(s.drop_last(), id);
        crate::seqtools::lemma_weight_drop_last(s, fe);
        crate::seqtools::lemma_weight_drop_last(s, fi);
    }
}

/// Distinct positions that all hold one product are no more numerous than
/// its count.
pub proof fn lemma_distinct_holders_bound(s: Seq<Occupancy>, id: u32, ps: Seq<int>)
    requires
        forall|a: int, b: int| 0 <= a < b < ps.len() ==> ps[a] != ps[b],
        forall|a: int|
            0 <= a < ps.len() ==> 0 <= #[trigger] ps[a] < s.len() && holds_id(s[ps[a]], id),
    ensures
        ps.len() <= count_id(s, id),
    decreases ps.len(),
{
    lemma_count_id_bounds(s, id);
    if ps.len() > 0 {
        let p0 = ps.last();
        assert(ps[ps.len() - 1] == p0);
        assert(0 <= p0 < s.len() && holds_id(s[p0], id));
        let s2 = s.update(p0, None);
        lemma_count_id_update(s, p0, None, id);
        assert forall|a: int, b: int|
            0 <= a < b < ps.drop_last().len() implies ps.drop_last()[a] != ps.drop_last()[b] by {
            assert(ps[a] != ps[b]);
        }
        assert forall|a: int|
            0 <= a < ps.drop_last().len() implies 0 <= #[trigger] ps.drop_last()[a] < s2.len()
            && holds_id(s2[ps.drop_last()[a]], id) by {
            assert(ps[a] != p0);
        }
        lemma_distinct_holders_bound(s2, id, ps.drop_last());
    }
}

/// A run of `n` empty zones.
pub open spec fn empties(n: int) -> Seq<Occupancy> {
    Seq::new(n as nat, |i: int| None)
}

pub proof fn lemma_count_empty_update(s: Seq<Occupancy>, i: int, v: Occupancy)
    requires
        0 <= i < s.len(),
    ensures
        count_empty(s.update(i, v)) == count_empty(s) + (if v is None { 1int } else { 0int }) - (
        if s[i] is None { 1int } else { 0int }),
{
    lemma_weight_update(s, i, v, |o: Occupancy| if o is None { 1int } else { 0int });
}

pub proof fn lemma_count_empty_bounds(s: Seq<Occupancy>)
    ensures
        0 <= count_empty(s) <= s.len(),
{
    lemma_weight_bound01(s, |o: Occupancy| if o is None { 1int } else { 0int });
}

pub proof fn lemma_count_empty_pos(s: Seq<Occupancy>, i: int)
    requires
        0 <= i < s.len(),
        s[i] is None,
    ensures
        count_empty(s) >= 1,
{
    lemma_weight_pos(s, i, |o: Occupancy| if o is None { 1int } else { 0int });
}

pub proof fn lemma_count_empty_not_full(s: Seq<Occupancy>, i: int)
    requires
        0 <= i < s.len(),
        s[i] is Some,
    ensures
        count_empty(s) <= s.len() - 1,
{
    lemma_weight_pos(s, i, |o: Occupancy| if o is None { 1int } else { 0int });
}

pub proof fn lemma_count_id_update(s: Seq<Occupancy>, i: int, v: Occupancy, id: u32)
    requires
        0 <= i < s.len(),
    ensures
        count_id(s.update(i, v), id) == count_id(s, id) + (if holds_id(v, id) { 1int } else { 0int })
            - (if holds_id(s[i], id) { 1int } else { 0int }),
{
    lemma_weight_update(s, i, v, |o: Occupancy| if holds_id(o, id) { 1int } else { 0int });
}

pub proof fn lemma_count_id_bounds(s: Seq<Occupancy>, id: u32)
    ensures
        0 <= count_id(s, id) <= s.len(),
{
    lemma_weight_bound01(s, |o: Occupancy| if holds_id(o, id) { 1int } else { 0int });
}

pub proof fn lemma_count_id_pos(s: Seq<Occupancy>, i: int, id: u32)
    requires
        0 <= i < s.len(),
        holds_id(s[i], id),
    ensures
        count_id(s, id) >= 1,
{
    lemma_weight_pos(s, i, |o: Occupancy| if holds_id(o, id) { 1int } else { 0int });
}

/// Whether a zone content is a dated unit of product `id`.
pub open spec fn dated_of(o: Occupancy, id: u32) -> bool {
    match o {
        Some(p) => p.0 == id && p.1 is Some,
        None => false,
    }
}

/// The expiration date a zone content carries, where it carries one.
pub open spec fn occ_date(o: Occupancy) -> Date {
    match o {
        Some(p) => match p.1 {
            Some(d) => d,
            None => Date { year: 0, month: 0, day: 0 },
        },
        None => Date { year: 0, month: 0, day: 0 },
    }
}

/// How many zones of the view hold dated units of `id`.
pub open spec fn count_dated_id(s: Seq<Occupancy>, id: u32) -> int {
    weight(s, |o: Occupancy| if dated_of(o, id) { 1int } else { 0int })
}

pub proof fn lemma_count_dated_bounds(s: Seq<Occupancy>, id: u32)
    ensures
        0 <= count_dated_id(s, id) <= s.len(),
{
    lemma_weight_bound01(s, |o: Occupancy| if dated_of(o, id) { 1int } else { 0int });
}

/// Distinct positions that all hold dated units of one product are no more
/// numerous than its dated count.
pub proof fn lemma_distinct_dated_bound(s: Seq<Occupancy>, id: u32, ps: Seq<int>)
    requires
        forall|a: int, b: int| 0 <= a < b < ps.len() ==> ps[a] != ps[b],
        forall|a: int|
            0 <= a < ps.len() ==> 0 <= #[trigger] ps[a] < s.len() && dated_of(s[ps[a]], id),
    ensures
        ps.len() <= count_dated_id(s, id),
    decreases ps.len(),
{
    lemma_count_dated_bounds(s, id);
    if ps.len() > 0 {
        let p0 = ps.last();
        assert(ps[ps.len() - 1] == p0);
        assert(0 <= p0 < s.len() && dated_of(s[p0], id));
        let s2 = s.update(p0, None);
        lemma_weight_update(s, p0, None, |o: Occupancy| if dated_of(o, id) { 1int } else { 0int });
        assert forall|a: int, b: int|
            0 <= a < b < ps.drop_last().len() implies ps.drop_last()[a] != ps.drop_last()[b] by {
            assert(ps[a] != ps[b]);
        }
        assert forall|a: int|
            0 <= a < ps.drop_last().len() implies 0 <= #[trigger] ps.drop_last()[a] < s2.len()
            && dated_of(s2[ps.drop_last()[a]], id) by {
            assert(ps[a] != p0);
        }
        lemma_distinct_dated_bound(s2, id, ps.drop_last());
    }
}

/// Distinct positions that cover every dated unit of a product are at least
/// as numerous as its dated count.
pub proof fn lemma_dated_cover_bound(s: Seq<Occupancy>, id: u32, ps: Seq<int>)
    requires
        forall|a: int, b: int| 0 <= a < b < ps.len() ==> ps[a] != ps[b],
        forall|i: int| 0 <= i < s.len() && dated_of(#[trigger] s[i], id) ==> ps.contains(i),
    ensures
        ps.len() >= count_dated_id(s, id),
    decreases s.len(),
{
    let f = |o: Occupancy| if dated_of(o, id) { 1int } else { 0int };
    if s.len() == 0 {
        assert(s.map_values(f) =~= Seq::<int>::empty());
    } else {
        crate::seqtools::lemma_weight_drop_last(s, f);
        if dated_of(s.last(), id) {
            assert(ps.contains(s.len() - 1));
            let j = choose|j: int| 0 <= j < ps.len() && ps[j] == s.len() - 1;
            let ps2 = ps.remove(j);
            assert forall|a: int, b: int|
                0 <= a < b < ps2.len() implies ps2[a] != ps2[b] by {
                let a0 = if a < j {
                    a
                } else {
                    a + 1
                };
                let b0 = if b < j {
                    b
                } else {
                    b + 1
                };
                assert(ps2[a] == ps[a0] && ps2[b] == ps[b0]);
                assert(ps[a0] != ps[b0]);
            }
            assert forall|i: int|
                0 <= i < s.drop_last().len() && dated_of(
                    #[trigger] s.drop_last()[i],
                    id,
                ) implies ps2.contains(i) by {
                assert(dated_of(s[i], id));
                assert(ps.contains(i));
                let k = choose|k: int| 0 <= k < ps.len() && ps[k] == i;
                assert(k != j);
                if k < j {
                    assert(ps2[k] == i);
                } else {
                    assert(ps2[k - 1] == i);
                }
            }
            lemma_dated_cover_bound(s.drop_last(), id, ps2);
        } else {
            assert forall|i: int|
                0 <= i < s.drop_last().len() && dated_of(
                    #[trigger] s.drop_last()[i],
                    id,
                ) implies ps.contains(i) by {
                assert(dated_of(s[i], id));
            }
            lemma_dated_cover_bound(s.drop_last(), id, ps);
        }
    }
}

/// A view without a zone of `id` counts zero, and conversely.
pub proof fn lemma_count_id_zero(s: Seq<Occupancy>, id: u32)
    ensures
        (count_id(s, id) == 0) <==> !has_id_in(s, id),
    decreases s.len(),
{
    let f = |o: Occupancy| if holds_id(o, id) { 1int } else { 0int };
    if s.len() == 0 {
    } else {
        lemma_count_id_zero(s.drop_first(), id);
        assert(s.map_values(f).first() == f(s[0]));
        assert(s.map_values(f).drop_first() =~= s.drop_first().map_values(f));
        lemma_count_id_bounds(s.drop_first(), id);
        if count_id(s, id) == 0 {
            assert forall|k: int| 0 <= k < s.len() implies !holds_id(s[k], id) by {
                if k > 0 {
                    assert(!holds_id(s.drop_first()[k - 1], id));
                }
            }
        } else {
            if holds_id(s[0], id) {
            } else {
                let k = choose|k: int|
                    0 <= k < s.drop_first().len() && holds_id(#[trigger] s.drop_first()[k], id);
                assert(holds_id(s[k + 1], id));
            }
        }
    }
}

/// The hit positions are exactly the positions holding `id`, listed in
/// ascending order.
pub proof fn lemma_hits(s: Seq<Occupancy>, id: u32)
    ensures
        hits(s, id).len() == count_id(s, id),
        forall|j: int|
            0 <= j < hits(s, id).len() ==> 0 <= #[trigger] hits(s, id)[j] < s.len() && holds_id(
                s[hits(s, id)[j]],
                id,
            ),
        forall|j1: int, j2: int|
            0 <= j1 < j2 < hits(s, id).len() ==> hits(s, id)[j1] < hits(s, id)[j2],
        forall|k: int|
            0 <= k < s.len() && holds_id(#[trigger] s[k], id) ==> hits(s, id).contains(k),
    decreases s.len(),
{
    let f = |o: Occupancy| if holds_id(o, id) { 1int } else { 0int };
    if s.len() == 0 {
        assert(s.map_values(f) =~= Seq::<int>::empty());
    } else {
        lemma_hits(s.drop_last(), id);
        crate::seqtools::lemma_weight_drop_last(s, f);
        assert forall|k: int|
            0 <= k < s.len() && holds_id(#[trigger] s[k], id) implies hits(s, id).contains(k) by {
            if k < s.len() - 1 {
                assert(holds_id(s.drop_last()[k], id));
                assert(hits(s.drop_last(), id).contains(k));
                let j = choose|j: int|
                    0 <= j < hits(s.drop_last(), id).len() && hits(s.drop_last(), id)[j] == k;
                assert(hits(s, id)[j] == k);
            } else {
                assert(holds_id(s.last(), id));
                assert(hits(s, id).last() == k);
            }
        }
    }
}

/// Prefix hit lists grow one position at a time.
pub proof fn lemma_hits_take_succ(s: Seq<Occupancy>, id: u32, k: int)
    requires
        0 <= k < s.len(),
    ensures
        hits(s.take(k + 1), id) == if holds_id(s[k], id) {
            hits(s.take(k), id).push(k)
        } else {
            hits(s.take(k), id)
        },
{
    assert(s.take(k + 1).drop_last() =~= s.take(k));
    assert(s.take(k + 1).last() == s[k]);
}

/// The whole sequence is its own full prefix.
pub proof fn lemma_hits_all(s: Seq<Occupancy>, id: u32)
    ensures
        hits(s.take(s.len() as int), id) == hits(s, id),
{
    assert(s.take(s.len() as int) =~= s);
}

pub proof fn lemma_count_empty_concat(a: Seq<Occupancy>, b: Seq<Occupancy>)
    ensures
        count_empty(a + b) == count_empty(a) + count_empty(b),
{
    lemma_weight_concat(a, b, |o: Occupancy| if o is None { 1int } else { 0int });
}

pub proof fn lemma_count_id_concat(a: Seq<Occupancy>, b: Seq<Occupancy>, id: u32)
    ensures
        count_id(a + b, id) == count_id(a, id) + count_id(b, id),
{
    lemma_weight_concat(a, b, |o: Occupancy| if holds_id(o, id) { 1int } else { 0int });
}

/// Every zone of a run of empties is empty, and such a run holds no product.
pub proof fn lemma_empties(n: int)
    requires
        n >= 0,
    ensures
        empties(n).len() == n,
        count_empty(empties(n)) == n,
        forall|id: u32| count_id(empties(n), id) == 0,
    decreases n,
{
    if n == 0 {
        assert(empties(0).map_values(|o: Occupancy| if o is None { 1int } else { 0int })
            =~= Seq::<int>::empty());
        assert forall|id: u32| count_id(empties(0), id) == 0 by {
            assert(empties(0).map_values(
                |o: Occupancy| if holds_id(o, id) { 1int } else { 0int },
            ) =~= Seq::<int>::empty());
        }
    } else {
        lemma_empties(n - 1);
        assert(empties(n).drop_last() =~= empties(n - 1));
        assert(empties(n).last() is None);
        crate::seqtools::lemma_weight_drop_last(
            empties(n),
            |o: Occupancy| if o is None { 1int } else { 0int },
        );
        assert forall|id: u32| count_id(empties(n), id) == 0 by {
            assert(count_id(empties(n - 1), id) == 0);
            crate::seqtools::lemma_weight_drop_last(
                empties(n),
                |o: Occupancy| if holds_id(o, id) { 1int } else { 0int },
            );
        }
    }
}

/// Occurrence positions of a concatenation: those of the left part, then
/// those of the right part shifted by the left length.
pub proof fn lemma_hits_concat(a: Seq<Occupancy>, b: Seq<Occupancy>, id: u32)
    ensures
        hits(a + b, id).len() == hits(a, id).len() + hits(b, id).len(),
        forall|j: int|
            0 <= j < hits(a, id).len() ==> #[trigger] hits(a + b, id)[j] == hits(a, id)[j],
        forall|j: int|
            0 <= j < hits(b, id).len() ==> #[trigger] hits(a + b, id)[hits(a, id).len() + j]
                == hits(b, id)[j] + a.len(),
    decreases b.len(),
{
    if b.len() == 0 {
        assert(a + b =~= a);
    } else {
        assert((a + b).drop_last() =~= a + b.drop_last());
        assert((a + b).last() == b.last());
        lemma_hits_concat(a, b.drop_last(), id);
    }
}

/// A concatenation holds a product exactly when one of its parts does.
pub proof fn lemma_has_id_concat(a: Seq<Occupancy>, b: Seq<Occupancy>, id: u32)
    ensures
        has_id_in(a + b, id) <==> (has_id_in(a, id) || has_id_in(b, id)),
{
    if has_id_in(a, id) {
        let k = choose|k: int| 0 <= k < a.len() && holds_id(#[trigger] a[k], id);
        assert(holds_id((a + b)[k], id));
    }
    if has_id_in(b, id) {
        let k = choose|k: int| 0 <= k < b.len() && holds_id(#[trigger] b[k], id);
        assert(holds_id((a + b)[a.len() + k], id));
    }
    if has_id_in(a + b, id) {
        let k = choose|k: int| 0 <= k < (a + b).len() && holds_id(#[trigger] (a + b)[k], id);
        if k < a.len() {
            assert(holds_id(a[k], id));
        } else {
            assert(holds_id(b[k - a.len()], id));
        }
    }
}

impl Zone {
    /// The zone's content.
    pub open spec fn occ(self) -> Occupancy {
        match self.item {
            Some(it) => Some((it.id, it.expiry_date)),
            None => None,
        }
    }

    /// The zone sits at the given 1-based position and its occupant, if any,
    /// records that same position.
    pub open spec fn wf_at(self, r: int, c: int, z: int) -> bool {
        &&& self.row_number == r
        &&& self.column_number == c
        &&& self.zone_number == z
        &&& match self.item {
            Some(it) => it.row == r && it.column == c && it.zone == z,
            None => true,
        }
    }

    pub fn new(zone_number: usize, column_number: usize, row_number: usize, item: Option<
        ProductItem,
    >) -> (zone: Zone)
        ensures
            zone == (Zone { zone_number, column_number, row_number, item }),
    {
        Zone { column_number, row_number, zone_number, item }
    }

    /// Places an item here; refused when the zone is occupied.
    pub fn add(&mut self, item: ProductItem) -> (r: Result<(), ErrorKind>)
        ensures
            old(self).item is Some ==> (r matches Err(ErrorKind::ZoneOccupied(p)) && p == (old(self).row_number, old(self).column_number, old(self).zone_number)) && *final(self) == *old(self),
            old(self).item is None ==> r is Ok && *final(self) == (Zone {
                item: Some(item),
                ..*old(self)
            }),
    {
        if self.item.is_some() {
            return Err(
                ErrorKind::ZoneOccupied((self.row_number, self.column_number, self.zone_number)),
            );
        }
        self.item = Some(item);
        Ok(())
    }

    /// Clears the zone; refused when it is already empty.
    pub fn remove(&mut self) -> (r: Result<(), ErrorKind>)
        ensures
            old(self).item is None ==> (r matches Err(ErrorKind::ZoneEmpty(p)) && p == (old(self).row_number, old(self).column_number, old(self).zone_number)) && *final(self) == *old(self),
            old(self).item is Some ==> r is Ok && *final(self) == (Zone {
                item: None,
                ..*old(self)
            }),
    {
        if self.item.is_none() {
            return Err(
                ErrorKind::ZoneEmpty((self.row_number, self.column_number, self.zone_number)),
            );
        }
        self.item = None;
        Ok(())
    }

    pub fn is_empty(&self) -> (r: bool)
        ensures
            r == (self.item is None),
    {
        self.item.is_none()
    }

    pub fn pos(&self) -> (r: (usize, usize, usize))
        ensures
            r == (self.row_number, self.column_number, self.zone_number),
    {
        (self.row_number, self.column_number, self.zone_number)
    }
}

impl Column {
    /// The contents of this column's zones, in zone order.
    pub open spec fn occs(self) -> Seq<Occupancy> {
        self.zones@.map_values(|z: Zone| z.occ())
    }

    /// Counters match the zones and every zone sits at its 1-based index.
    pub open spec fn wf(self) -> bool {
        &&& self.capacity == self.zones@.len()
        &&& self.available_space == count_empty(self.occs())
        &&& forall|k: int|
            0 <= k < self.zones@.len() ==> (#[trigger] self.zones@[k]).wf_at(
                self.row_number as int,
                self.column_number as int,
                k + 1,
            )
    }

    pub fn new(column_number: usize, row_number: usize) -> (col: Column)
        ensures
            col == (Column {
                column_number,
                row_number,
                capacity: 0,
                available_space: 0,
                zones: col.zones,
            }),
            col.zones@.len() == 0,
            col.wf(),
    {
        let col = Column {
            column_number,
            row_number,
            capacity: 0,
            zones: Vec::new(),
            available_space: 0,
        };
        proof {
            assert(col.occs() =~= Seq::<Occupancy>::empty());
            lemma_count_empty_bounds(col.occs());
        }
        col
    }

    /// Appends an empty zone, growing capacity and free space by one.
    pub fn add_zone(&mut self, zone: Zone)
        requires
            old(self).wf(),
            old(self).capacity < usize::MAX,
            zone.item is None,
            zone.row_number == old(self).row_number,
            zone.column_number == old(self).column_number,
            zone.zone_number == old(self).capacity + 1,
        ensures
            final(self).wf(),
            final(self).occs() == old(self).occs().push(None),
            *final(self) == (Column {
                capacity: (old(self).capacity + 1) as usize,
                available_space: (old(self).available_space + 1) as usize,
                zones: final(self).zones,
                ..*old(self)
            }),
            final(self).zones@ == old(self).zones@.push(zone),
    {
        proof {
            lemma_count_empty_bounds(old(self).occs());
        }
        self.zones.push(zone);
        self.available_space = self.available_space + 1;
        self.capacity = self.capacity + 1;
        proof {
            assert(self.occs() =~= old(self).occs().push(None));
            crate::seqtools::lemma_weight_push(
                old(self).occs(),
                None,
                |o: Occupancy| if o is None { 1int } else { 0int },
            );
        }
    }

    /// Appends `zone_count` fresh empty zones, numbered after the last.
    #[verifier::loop_isolation(false)]
    pub fn initialize_zones(&mut self, zone_count: usize)
        requires
            old(self).wf(),
            old(self).capacity + zone_count <= usize::MAX,
        ensures
            final(self).wf(),
            final(self).occs() == old(self).occs() + empties(zone_count as int),
            final(self).capacity == old(self).capacity + zone_count,
            final(self).available_space == old(self).available_space + zone_count,
            final(self).column_number == old(self).column_number,
            final(self).row_number == old(self).row_number,
    {
        let mut i: usize = 0;
        while i < zone_count
            invariant
                0 <= i <= zone_count,
                self.wf(),
                self.capacity == old(self).capacity + i,
                self.available_space == old(self).available_space + i,
                self.column_number == old(self).column_number,
                self.row_number == old(self).row_number,
                self.occs() == old(self).occs() + empties(i as int),
            decreases zone_count - i,
        {
            let zone = Zone::new(self.capacity + 1, self.column_number, self.row_number, None);
            proof {
                lemma_count_empty_bounds(self.occs());
            }
            self.add_zone(zone);
            proof {
                assert(self.occs() =~= old(self).occs() + empties(i + 1));
            }
            i = i + 1;
        }
        proof {
            assert(old(self).occs() + empties(0) =~= old(self).occs());
        }
    }

    pub fn is_full(&self) -> (r: bool)
        ensures
            r == (self.available_space == 0),
    {
        self.available_space == 0
    }

    /// The zone with this 1-based number, when the column has it.
    pub fn zone(&self, zone_number: usize) -> (r: Option<&Zone>)
        requires
            self.wf(),
        ensures
            (r is Some) <==> 1 <= zone_number <= self.zones@.len(),
            r matches Some(z) ==> *z == self.zones@[zone_number - 1],
    {
        if 1 <= zone_number && zone_number <= self.zones.len() {
            Some(&self.zones[zone_number - 1])
        } else {
            None
        }
    }

    /// The item held at this zone number, when one is there.
    pub fn get_item(&self, zone_number: usize) -> (r: Option<&ProductItem>)
        requires
            self.wf(),
        ensures
            (r is Some) <==> (1 <= zone_number <= self.occs().len() && self.occs()[zone_number
                - 1] is Some),
            r matches Some(it) ==> self.occs()[zone_number - 1] == Some(
                (it.id, it.expiry_date),
            ) && it.row == self.row_number && it.column == self.column_number && it.zone
                == zone_number,
    {
        if 1 <= zone_number && zone_number <= self.zones.len() {
            match &self.zones[zone_number - 1].item {
                Some(it) => Some(it),
                None => None,
            }
        } else {
            None
        }
    }

    /// Places `item` at `zone_number`, keeping every counter in step.
    pub fn add_item(&mut self, zone_number: usize, item: ProductItem) -> (r: Result<
        (),
        ErrorKind,
    >)
        requires
            old(self).wf(),
            item.row == old(self).row_number,
            item.column == old(self).column_number,
            item.zone == zone_number,
        ensures
            final(self).wf(),
            final(self).column_number == old(self).column_number,
            final(self).row_number == old(self).row_number,
            final(self).capacity == old(self).capacity,
            !(1 <= zone_number <= old(self).occs().len()) ==> (r matches Err(
                ErrorKind::ZoneNotFound(p),
            ) && p == (old(self).row_number, old(self).column_number, zone_number)) && *final(self)
                == *old(self),
            1 <= zone_number <= old(self).occs().len() && old(self).occs()[zone_number - 1] is Some
                ==> (r matches Err(ErrorKind::ZoneOccupied(p)) && p == (old(self).row_number, old(self).column_number, zone_number)) && *final(self) == *old(self),
            1 <= zone_number <= old(self).occs().len() && old(self).occs()[zone_number - 1] is None
                ==> r is Ok && final(self).occs() == old(self).occs().update(
                zone_number - 1,
                Some((item.id, item.expiry_date)),
            ) && final(self).available_space == old(self).available_space - 1,
    {
        if !(1 <= zone_number && zone_number <= self.zones.len()) {
            return Err(
                ErrorKind::ZoneNotFound((self.row_number, self.column_number, zone_number)),
            );
        }
        let idx = zone_number - 1;
        if self.zones[idx].item.is_some() {
            return Err(
                ErrorKind::ZoneOccupied((self.row_number, self.column_number, zone_number)),
            );
        }
        proof {
            lemma_count_empty_pos(self.occs(), idx as int);
        }
        let zref = &mut self.zones[idx];
        zref.item = Some(item);
        self.available_space = self.available_space - 1;
        proof {
            assert(self.occs() =~= old(self).occs().update(
                idx as int,
                Some((item.id, item.expiry_date)),
            ));
            lemma_count_empty_update(
                old(self).occs(),
                idx as int,
                Some((item.id, item.expiry_date)),
            );
        }
        Ok(())
    }

    /// Clears the zone at `zone_number`, keeping every counter in step.
    pub fn remove_item(&mut self, zone_number: usize) -> (r: Result<(), ErrorKind>)
        requires
            old(self).wf(),
        ensures
            final(self).wf(),
            final(self).column_number == old(self).column_number,
            final(self).row_number == old(self).row_number,
            final(self).capacity == old(self).capacity,
            !(1 <= zone_number <= old(self).occs().len()) ==> (r matches Err(
                ErrorKind::ZoneNotFound(p),
            ) && p == (old(self).row_number, old(self).column_number, zone_number)) && *final(self)
                == *old(self),
            1 <= zone_number <= old(self).occs().len() && old(self).occs()[zone_number - 1] is None
                ==> (r matches Err(ErrorKind::ZoneEmpty(p)) && p == (old(self).row_number, old(self).column_number, zone_number)) && *final(self) == *old(self),
            1 <= zone_number <= old(self).occs().len() && old(self).occs()[zone_number - 1] is Some
                ==> r is Ok && final(self).occs() == old(self).occs().update(zone_number - 1, None)
                && final(self).available_space == old(self).available_space + 1,
    {
        if !(1 <= zone_number && zone_number <= self.zones.len()) {
            return Err(
                ErrorKind::ZoneNotFound((self.row_number, self.column_number, zone_number)),
            );
        }
        let idx = zone_number - 1;
        if self.zones[idx].item.is_none() {
            return Err(ErrorKind::ZoneEmpty((self.row_number, self.column_number, zone_number)));
        }
        proof {
            lemma_count_empty_bounds(self.occs());
            lemma_count_empty_not_full(self.occs(), idx as int);
            lemma_count_empty_update(self.occs(), idx as int, None);
        }
        let zref = &mut self.zones[idx];
        zref.item = None;
        self.available_space = self.available_space + 1;
        proof {
            assert(self.occs() =~= old(self).occs().update(idx as int, None));
        }
        Ok(())
    }

    /// Whether any zone here holds product `product_id`.
    #[verifier::loop_isolation(false)]
    pub fn contains_product(&self, product_id: u32) -> (r: bool)
        requires
            self.wf(),
        ensures
            r == has_id_in(self.occs(), product_id),
    {
        let n = self.zones.len();
        let mut i: usize = 0;
        while i < n
            invariant
                0 <= i <= n,
                forall|k: int| 0 <= k < i ==> !holds_id(self.occs()[k], product_id),
            decreases n - i,
        {
            match &self.zones[i].item {
                Some(it) => {
                    if it.id == product_id {
                        proof {
                            assert(holds_id(self.occs()[i as int], product_id));
                        }
                        return true;
                    }
                },
                None => {},
            }
            i = i + 1;
        }
        false
    }

    /// The 1-based zone number of the first occurrence of `product_id`.
    #[verifier::loop_isolation(false)]
    pub fn find_item(&self, product_id: u32) -> (r: Option<usize>)
        requires
            self.wf(),
        ensures
            (r is Some) <==> has_id_in(self.occs(), product_id),
            r matches Some(z) ==> 1 <= z <= self.occs().len() && holds_id(
                self.occs()[z - 1],
                product_id,
            ) && forall|k: int| 0 <= k < z - 1 ==> !holds_id(self.occs()[k], product_id),
    {
        let n = self.zones.len();
        let mut i: usize = 0;
        while i < n
            invariant
                0 <= i <= n,
                forall|k: int| 0 <= k < i ==> !holds_id(self.occs()[k], product_id),
            decreases n - i,
        {
            match &self.zones[i].item {
                Some(it) => {
                    if it.id == product_id {
                        proof {
                            assert(holds_id(self.occs()[i as int], product_id));
                        }
                        return Some(i + 1);
                    }
                },
                None => {},
            }
            i = i + 1;
        }
        None
    }

    /// The 1-based zone number of the last occurrence of `product_id`.
    #[verifier::loop_isolation(false)]
    pub fn find_last_item_occurrence_index(&self, product_id: u32) -> (r: Option<usize>)
        requires
            self.wf(),
        ensures
            (r is Some) <==> has_id_in(self.occs(), product_id),
            r matches Some(z) ==> 1 <= z <= self.occs().len() && holds_id(
                self.occs()[z - 1],
                product_id,
            ) && forall|k: int| z <= k < self.occs().len() ==> !holds_id(self.occs()[k], product_id),
    {
        let n = self.zones.len();
        let mut i: usize = n;
        while i > 0
            invariant
                0 <= i <= n,
                forall|k: int| i <= k < n ==> !holds_id(self.occs()[k], product_id),
            decreases i,
        {
            i = i - 1;
            match &self.zones[i].item {
                Some(it) => {
                    if it.id == product_id {
                        proof {
                            assert(holds_id(self.occs()[i as int], product_id));
                        }
                        return Some(i + 1);
                    }
                },
                None => {},
            }
        }
        None
    }

    /// The 1-based zone numbers of every occurrence of `product_id`, in
    /// ascending order.
    #[verifier::loop_isolation(false)]
    pub fn find_all_item_occurences(&self, product_id: u32) -> (r: Vec<usize>)
        requires
            self.wf(),
        ensures
            r@.len() == hits(self.occs(), product_id).len(),
            forall|j: int|
                0 <= j < r@.len() ==> #[trigger] r@[j] == hits(self.occs(), product_id)[j] + 1,
    {
        let n = self.zones.len();
        let mut out: Vec<usize> = Vec::new();
        let mut i: usize = 0;
        while i < n
            invariant
                0 <= i <= n,
                out@.len() == hits(self.occs().take(i as int), product_id).len(),
                forall|j: int|
                    0 <= j < out@.len() ==> #[trigger] out@[j] == hits(
                        self.occs().take(i as int),
                        product_id,
                    )[j] + 1,
            decreases n - i,
        {
            proof {
                lemma_hits_take_succ(self.occs(), product_id, i as int);
            }
            match &self.zones[i].item {
                Some(it) => {
                    if it.id == product_id {
                        proof {
                            assert(holds_id(self.occs()[i as int], product_id));
                        }
                        out.push(i + 1);
                    } else {
                        proof {
                            assert(!holds_id(self.occs()[i as int], product_id));
                        }
                    }
                },
                None => {},
            }
            i = i + 1;
        }
        proof {
            lemma_hits_all(self.occs(), product_id);
        }
        out
    }

    /// The occupancy bitmap of this column: `true` marks an occupied zone.
    #[verifier::loop_isolation(false)]
    pub fn flat_map(&self) -> (r: Vec<bool>)
        ensures
            r@.len() == self.occs().len(),
            forall|k: int| 0 <= k < r@.len() ==> r@[k] == (self.occs()[k] is Some),
    {
        let n = self.zones.len();
        let mut out: Vec<bool> = Vec::new();
        let mut i: usize = 0;
        while i < n
            invariant
                0 <= i <= n,
                out@.len() == i,
                forall|k: int| 0 <= k < i ==> out@[k] == (self.occs()[k] is Some),
            decreases n - i,
        {
            out.push(self.zones[i].item.is_some());
            i = i + 1;
        }
        out
    }
}

impl Row {
    /// The contents of this row's columns, one view per column.
    pub open spec fn col_occs(self) -> Seq<Seq<Occupancy>> {
        self.columns@.map_values(|c: Column| c.occs())
    }

    /// The contents of this row's zones in column-major, zone-major order.
    pub open spec fn occs(self) -> Seq<Occupancy> {
        cat(self.col_occs())
    }

    /// The flat position, within this row, of the 1-based (column, zone).
    pub open spec fn pos_in_row(self, c: int, z: int) -> int {
        offset_of(self.col_occs(), c - 1) + (z - 1)
    }

    /// The 1-based (column, zone) pair of a flat position within the row.
    pub open spec fn row_pos_of(self, i: int) -> (int, int) {
        let c = block_of(self.col_occs(), i);
        (c + 1, i - offset_of(self.col_occs(), c) + 1)
    }

    /// The same observable state: equal fields and equal column views.
    pub open spec fn same_state(self, other: Row) -> bool {
        &&& self.row_number == other.row_number
        &&& self.column_count == other.column_count
        &&& self.capacity == other.capacity
        &&& self.available_space == other.available_space
        &&& self.columns@ == other.columns@
    }

    /// The same dimensions: equally many columns, with equally many zones.
    pub open spec fn same_shape(self, other: Row) -> bool {
        &&& self.columns@.len() == other.columns@.len()
        &&& forall|k: int|
            0 <= k < self.columns@.len() ==> (#[trigger] self.columns@[k]).zones@.len()
                == other.columns@[k].zones@.len()
    }

    /// Counters match the zones below, and every column sits at its 1-based
    /// index.
    pub open spec fn wf(self) -> bool {
        &&& self.column_count == self.columns@.len()
        &&& self.capacity == self.occs().len()
        &&& self.available_space == count_empty(self.occs())
        &&& forall|k: int|
            0 <= k < self.columns@.len() ==> (#[trigger] self.columns@[k]).wf()
                && self.columns@[k].row_number == self.row_number
                && self.columns@[k].column_number == k + 1
    }

    pub fn new(row_number: usize) -> (row: Row)
        ensures
            row == (Row {
                row_number,
                column_count: 0,
                capacity: 0,
                available_space: 0,
                columns: row.columns,
            }),
            row.columns@.len() == 0,
            row.occs().len() == 0,
            row.wf(),
    {
        let row = Row {
            row_number,
            column_count: 0,
            capacity: 0,
            available_space: 0,
            columns: Vec::new(),
        };
        proof {
            assert(row.col_occs() =~= Seq::<Seq<Occupancy>>::empty());
            assert(row.occs() =~= Seq::<Occupancy>::empty());
            assert(row.occs().map_values(|o: Occupancy| if o is None { 1int } else { 0int })
                =~= Seq::<int>::empty());
        }
        row
    }

    /// Appends a column, folding its capacity and free space into the row.
    pub fn add_column(&mut self, column: Column)
        requires
            old(self).wf(),
            column.wf(),
            column.row_number == old(self).row_number,
            column.column_number == old(self).column_count + 1,
            old(self).column_count < usize::MAX,
            old(self).capacity + column.capacity <= usize::MAX,
        ensures
            final(self).wf(),
            final(self).row_number == old(self).row_number,
            final(self).occs() == old(self).occs() + column.occs(),
            final(self).column_count == old(self).column_count + 1,
            final(self).capacity == old(self).capacity + column.capacity,
            final(self).available_space == old(self).available_space + column.available_space,
            final(self).columns@ == old(self).columns@.push(column),
    {
        proof {
            lemma_count_empty_bounds(old(self).occs());
            lemma_count_empty_bounds(column.occs());
            lemma_count_empty_concat(old(self).occs(), column.occs());
        }
        self.column_count = self.column_count + 1;
        self.capacity = self.capacity + column.capacity;
        self.available_space = self.available_space + column.available_space;
        self.columns.push(column);
        proof {
            assert(self.col_occs() =~= old(self).col_occs().push(column.occs()));
            crate::seqtools::lemma_cat_push(old(self).col_occs(), column.occs());
        }
    }

    /// Appends `column_count` fresh columns of `zone_per_col` empty zones
    /// each, numbered after the last.
    #[verifier::loop_isolation(false)]
    pub fn initialize_columns(&mut self, column_count: usize, zone_per_col: usize)
        requires
            old(self).wf(),
            old(self).column_count + column_count <= usize::MAX,
            old(self).capacity + column_count * zone_per_col <= usize::MAX,
        ensures
            final(self).wf(),
            final(self).row_number == old(self).row_number,
            final(self).occs() == old(self).occs() + empties(column_count * zone_per_col),
            final(self).column_count == old(self).column_count + column_count,
            final(self).capacity == old(self).capacity + column_count * zone_per_col,
            final(self).available_space == old(self).available_space + column_count * zone_per_col,
            final(self).columns@.len() == old(self).columns@.len() + column_count,
            forall|k: int|
                old(self).columns@.len() <= k < final(self).columns@.len() ==> (#[trigger] final(self).columns@[k]).zones@.len() == zone_per_col,
    {
        let mut i: usize = 0;
        while i < column_count
            invariant
                0 <= i <= column_count,
                self.wf(),
                self.row_number == old(self).row_number,
                self.occs() == old(self).occs() + empties(i * zone_per_col),
                self.column_count == old(self).column_count + i,
                self.capacity == old(self).capacity + i * zone_per_col,
                self.available_space == old(self).available_space + i * zone_per_col,
                self.columns@.len() == old(self).columns@.len() + i,
                forall|k: int|
                    old(self).columns@.len() <= k < self.columns@.len()
                        ==> (#[trigger] self.columns@[k]).zones@.len() == zone_per_col,
            decreases column_count - i,
        {
            proof {
                assert((i + 1) * zone_per_col == i * zone_per_col + zone_per_col) by (nonlinear_arith);
                assert((i + 1) * zone_per_col <= column_count * zone_per_col) by (nonlinear_arith)
                    requires
                        0 <= i,
                        i + 1 <= column_count,
                        0 <= zone_per_col,
                ;
            }
            let mut column = Column::new(self.column_count + 1, self.row_number);
            column.initialize_zones(zone_per_col);
            proof {
                assert(column.occs() =~= empties(zone_per_col as int));
                lemma_empties(zone_per_col as int);
            }
            self.add_column(column);
            proof {
                assert(self.occs() =~= old(self).occs() + empties((i + 1) * zone_per_col));
            }
            i = i + 1;
        }
        proof {
            assert(old(self).occs() + empties(0) =~= old(self).occs());
        }
    }

    pub fn is_full(&self) -> (r: bool)
        ensures
            r == (self.available_space == 0),
    {
        self.available_space == 0
    }

    /// The column with this 1-based number, when the row has it.
    pub fn column(&self, column_number: usize) -> (r: Option<&Column>)
        requires
            self.wf(),
        ensures
            (r is Some) <==> 1 <= column_number <= self.columns@.len(),
            r matches Some(c) ==> *c == self.columns@[column_number - 1],
    {
        if 1 <= column_number && column_number <= self.columns.len() {
            Some(&self.columns[column_number - 1])
        } else {
            None
        }
    }

    /// The zone at the 1-based (column, zone) position, when it exists.
    pub fn zone(&self, column_number: usize, zone_number: usize) -> (r: Option<&Zone>)
        requires
            self.wf(),
        ensures
            (r is Some) <==> (1 <= column_number <= self.columns@.len() && 1 <= zone_number
                <= self.columns@[column_number - 1].zones@.len()),
            r matches Some(z) ==> *z == self.columns@[column_number - 1].zones@[zone_number - 1],
    {
        match self.column(column_number) {
            Some(column) => column.zone(zone_number),
            None => None,
        }
    }

    /// Places `item`, updating the row, column and zone in lockstep.
    pub fn add_item(&mut self, column_number: usize, zone_number: usize, item: ProductItem) -> (r:
        Result<(), ErrorKind>)
        requires
            old(self).wf(),
            item.row == old(self).row_number,
            item.column == column_number,
            item.zone == zone_number,
        ensures
            final(self).wf(),
            final(self).row_number == old(self).row_number,
            final(self).capacity == old(self).capacity,
            final(self).column_count == old(self).column_count,
            final(self).same_shape(*old(self)),
            !(1 <= column_number <= old(self).columns@.len()) ==> (r matches Err(
                ErrorKind::ColumnNotFound(p),
            ) && p == (old(self).row_number, column_number)) && *final(self) == *old(self),
            1 <= column_number <= old(self).columns@.len() && !(1 <= zone_number <= old(self).col_occs()[column_number - 1].len()) ==> (r matches Err(ErrorKind::ZoneNotFound(p))
                && p == (old(self).row_number, column_number, zone_number)) && final(self).same_state(*old(self)),
            1 <= column_number <= old(self).columns@.len() && 1 <= zone_number <= old(self).col_occs()[column_number - 1].len() && old(self).occs()[old(self).pos_in_row(
                column_number as int,
                zone_number as int,
            )] is Some ==> (r matches Err(ErrorKind::ZoneOccupied(p)) && p == (old(self).row_number, column_number, zone_number)) && final(self).same_state(*old(self)),
            1 <= column_number <= old(self).columns@.len() && 1 <= zone_number <= old(self).col_occs()[column_number - 1].len() && old(self).occs()[old(self).pos_in_row(
                column_number as int,
                zone_number as int,
            )] is None ==> r is Ok && final(self).occs() == old(self).occs().update(
                old(self).pos_in_row(column_number as int, zone_number as int),
                Some((item.id, item.expiry_date)),
            ) && final(self).available_space == old(self).available_space - 1 && final(self).col_occs()[column_number - 1] == old(self).col_occs()[column_number - 1].update(
                zone_number - 1,
                Some((item.id, item.expiry_date)),
            ),
    {
        if !(1 <= column_number && column_number <= self.columns.len()) {
            return Err(ErrorKind::ColumnNotFound((self.row_number, column_number)));
        }
        let cidx = column_number - 1;
        let ghost pos = old(self).pos_in_row(column_number as int, zone_number as int);
        proof {
            if 1 <= zone_number <= old(self).col_occs()[cidx as int].len() {
                lemma_cat_index(old(self).col_occs(), cidx as int, zone_number - 1);
            }
        }
        let col = &mut self.columns[cidx];
        let res = col.add_item(zone_number, item);
        match res {
            Ok(()) => {
                proof {
                    lemma_cat_update(
                        old(self).col_occs(),
                        cidx as int,
                        zone_number - 1,
                        Some((item.id, item.expiry_date)),
                    );
                    assert(self.col_occs() =~= old(self).col_occs().update(
                        cidx as int,
                        old(self).col_occs()[cidx as int].update(
                            zone_number - 1,
                            Some((item.id, item.expiry_date)),
                        ),
                    ));
                    lemma_count_empty_update(
                        old(self).occs(),
                        pos,
                        Some((item.id, item.expiry_date)),
                    );
                    lemma_count_empty_pos(old(self).occs(), pos);
                }
                self.available_space = self.available_space - 1;
                Ok(())
            },
            Err(e) => {
                proof {
                    assert(self.columns@ =~= old(self).columns@);
                }
                Err(e)
            },
        }
    }

    /// Clears a zone, updating the row, column and zone in lockstep.
    pub fn remove_item(&mut self, column_number: usize, zone_number: usize) -> (r: Result<
        (),
        ErrorKind,
    >)
        requires
            old(self).wf(),
        ensures
            final(self).wf(),
            final(self).row_number == old(self).row_number,
            final(self).capacity == old(self).capacity,
            final(self).column_count == old(self).column_count,
            final(self).same_shape(*old(self)),
            !(1 <= column_number <= old(self).columns@.len()) ==> (r matches Err(
                ErrorKind::ColumnNotFound(p),
            ) && p == (old(self).row_number, column_number)) && *final(self) == *old(self),
            1 <= column_number <= old(self).columns@.len() && !(1 <= zone_number <= old(self).col_occs()[column_number - 1].len()) ==> (r matches Err(ErrorKind::ZoneNotFound(p))
                && p == (old(self).row_number, column_number, zone_number)) && final(self).same_state(*old(self)),
            1 <= column_number <= old(self).columns@.len() && 1 <= zone_number <= old(self).col_occs()[column_number - 1].len() && old(self).occs()[old(self).pos_in_row(
                column_number as int,
                zone_number as int,
            )] is None ==> (r matches Err(ErrorKind::ZoneEmpty(p)) && p == (old(self).row_number,
            column_number, zone_number)) && final(self).same_state(*old(self)),
            1 <= column_number <= old(self).columns@.len() && 1 <= zone_number <= old(self).col_occs()[column_number - 1].len() && old(self).occs()[old(self).pos_in_row(
                column_number as int,
                zone_number as int,
            )] is Some ==> r is Ok && final(self).occs() == old(self).occs().update(
                old(self).pos_in_row(column_number as int, zone_number as int),
                None,
            ) && final(self).available_space == old(self).available_space + 1,
    {
        if !(1 <= column_number && column_number <= self.columns.len()) {
            return Err(ErrorKind::ColumnNotFound((self.row_number, column_number)));
        }
        let cidx = column_number - 1;
        let ghost pos = old(self).pos_in_row(column_number as int, zone_number as int);
        proof {
            if 1 <= zone_number <= old(self).col_occs()[cidx as int].len() {
                lemma_cat_index(old(self).col_occs(), cidx as int, zone_number - 1);
            }
            lemma_count_empty_bounds(old(self).occs());
        }
        let col = &mut self.columns[cidx];
        let res = col.remove_item(zone_number);
        match res {
            Ok(()) => {
                proof {
                    lemma_cat_update(old(self).col_occs(), cidx as int, zone_number - 1, None);
                    assert(self.col_occs() =~= old(self).col_occs().update(
                        cidx as int,
                        old(self).col_occs()[cidx as int].update(zone_number - 1, None),
                    ));
                    lemma_count_empty_update(old(self).occs(), pos, None);
                    crate::seqtools::lemma_weight_pos(
                        old(self).occs(),
                        pos,
                        |o: Occupancy| if o is None { 1int } else { 0int },
                    );
                }
                self.available_space = self.available_space + 1;
                Ok(())
            },
            Err(e) => {
                proof {
                    assert(self.columns@ =~= old(self).columns@);
                }
                Err(e)
            },
        }
    }

    /// The item at the 1-based (column, zone) position, when one is there.
    pub fn item(&self, column_number: usize, zone_number: usize) -> (r: Option<&ProductItem>)
        requires
            self.wf(),
        ensures
            (r is Some) <==> (1 <= column_number <= self.columns@.len() && 1 <= zone_number
                <= self.col_occs()[column_number - 1].len() && self.occs()[self.pos_in_row(
                column_number as int,
                zone_number as int,
            )] is Some),
            r matches Some(it) ==> self.occs()[self.pos_in_row(
                column_number as int,
                zone_number as int,
            )] == Some((it.id, it.expiry_date)) && it.row == self.row_number && it.column
                == column_number && it.zone == zone_number,
    {
        if !(1 <= column_number && column_number <= self.columns.len()) {
            return None;
        }
        proof {
            if 1 <= zone_number <= self.col_occs()[column_number - 1].len() {
                lemma_cat_index(self.col_occs(), column_number - 1, zone_number - 1);
            }
        }
        self.columns[column_number - 1].get_item(zone_number)
    }

    /// Whether any zone of this row holds product `product_id`.
    #[verifier::loop_isolation(false)]
    pub fn contains_product(&self, product_id: u32) -> (r: bool)
        requires
            self.wf(),
        ensures
            r == has_id_in(self.occs(), product_id),
    {
        let n = self.columns.len();
        let mut i: usize = 0;
        while i < n
            invariant
                0 <= i <= n,
                forall|k: int|
                    0 <= k < i ==> !has_id_in(#[trigger] self.col_occs()[k], product_id),
            decreases n - i,
        {
            if self.columns[i].contains_product(product_id) {
                proof {
                    let k = choose|k: int|
                        0 <= k < self.col_occs()[i as int].len() && holds_id(
                            #[trigger] self.col_occs()[i as int][k],
                            product_id,
                        );
                    lemma_cat_index(self.col_occs(), i as int, k);
                }
                return true;
            }
            i = i + 1;
        }
        proof {
            if has_id_in(self.occs(), product_id) {
                let k = choose|k: int|
                    0 <= k < self.occs().len() && holds_id(#[trigger] self.occs()[k], product_id);
                crate::seqtools::lemma_block_of(self.col_occs(), k);
            }
        }
        false
    }

    /// The occupancy bitmap of this row, in column-major, zone-major order.
    #[verifier::loop_isolation(false)]
    pub fn flat_map(&self) -> (r: Vec<bool>)
        requires
            self.wf(),
        ensures
            r@.len() == self.occs().len(),
            forall|k: int| 0 <= k < r@.len() ==> r@[k] == (self.occs()[k] is Some),
    {
        let n = self.columns.len();
        let mut out: Vec<bool> = Vec::new();
        let mut i: usize = 0;
        while i < n
            invariant
                0 <= i <= n,
                out@.len() == offset_of(self.col_occs(), i as int),
                out@.len() <= self.occs().len(),
                forall|k: int| 0 <= k < out@.len() ==> #[trigger] out@[k] == (self.occs()[k] is Some),
            decreases n - i,
        {
            let mut bits = self.columns[i].flat_map();
            proof {
                lemma_offset_bounds(self.col_occs(), i as int);
                lemma_offset_bounds(self.col_occs(), i + 1);
                assert forall|j: int| 0 <= j < self.col_occs()[i as int].len() implies self.occs()[
                    offset_of(self.col_occs(), i as int) + j
                ] == self.col_occs()[i as int][j] by {
                    lemma_cat_index(self.col_occs(), i as int, j);
                }
            }
            out.append(&mut bits);
            i = i + 1;
        }
        proof {
            lemma_offset_bounds(self.col_occs(), n as int);
        }
        out
    }

    /// The first occurrence of `product_id` in this row, as a 1-based
    /// (column, zone) pair.
    #[verifier::loop_isolation(false)]
    pub fn find_item(&self, product_id: u32) -> (r: Option<(usize, usize)>)
        requires
            self.wf(),
        ensures
            (r is Some) <==> has_id_in(self.occs(), product_id),
            r matches Some(p) ==> 1 <= p.0 <= self.columns@.len() && 1 <= p.1
                <= self.col_occs()[p.0 - 1].len() && holds_id(
                self.occs()[self.pos_in_row(p.0 as int, p.1 as int)],
                product_id,
            ) && forall|k: int|
                0 <= k < self.pos_in_row(p.0 as int, p.1 as int) ==> !holds_id(
                    self.occs()[k],
                    product_id,
                ),
    {
        let n = self.columns.len();
        let mut i: usize = 0;
        while i < n
            invariant
                0 <= i <= n,
                forall|k: int|
                    0 <= k < offset_of(self.col_occs(), i as int) ==> !holds_id(
                        self.occs()[k],
                        product_id,
                    ),
            decreases n - i,
        {
            proof {
                lemma_offset_bounds(self.col_occs(), i as int);
                lemma_offset_bounds(self.col_occs(), i + 1);
            }
            match self.columns[i].find_item(product_id) {
                Some(z) => {
                    proof {
                        lemma_cat_index(self.col_occs(), i as int, z - 1);
                        assert forall|k: int|
                            0 <= k < self.pos_in_row(i + 1, z as int) implies !holds_id(
                            self.occs()[k],
                            product_id,
                        ) by {
                            if k >= offset_of(self.col_occs(), i as int) {
                                lemma_cat_index(
                                    self.col_occs(),
                                    i as int,
                                    k - offset_of(self.col_occs(), i as int),
                                );
                            }
                        }
                    }
                    return Some((i + 1, z));
                },
                None => {
                    proof {
                        assert forall|k: int|
                            0 <= k < offset_of(self.col_occs(), i + 1) implies !holds_id(
                            self.occs()[k],
                            product_id,
                        ) by {
                            if k >= offset_of(self.col_occs(), i as int) {
                                lemma_cat_index(
                                    self.col_occs(),
                                    i as int,
                                    k - offset_of(self.col_occs(), i as int),
                                );
                            }
                        }
                    }
                },
            }
            i = i + 1;
        }
        proof {
            lemma_offset_bounds(self.col_occs(), n as int);
            if has_id_in(self.occs(), product_id) {
                let k = choose|k: int|
                    0 <= k < self.occs().len() && holds_id(#[trigger] self.occs()[k], product_id);
            }
        }
        None
    }

    /// Every occurrence of `product_id` in this row, as 1-based
    /// (column, zone) pairs in scan order.
    #[verifier::loop_isolation(false)]
    pub fn find_all_item_occurences(&self, product_id: u32) -> (r: Vec<(usize, usize)>)
        requires
            self.wf(),
        ensures
            r@.len() == hits(self.occs(), product_id).len(),
            forall|j: int|
                0 <= j < r@.len() ==> ((#[trigger] r@[j]).0 as int, r@[j].1 as int)
                    == self.row_pos_of(hits(self.occs(), product_id)[j]),
    {
        let n = self.columns.len();
        let mut out: Vec<(usize, usize)> = Vec::new();
        let mut i: usize = 0;
        while i < n
            invariant
                0 <= i <= n,
                out@.len() == hits(self.occs().take(offset_of(self.col_occs(), i as int)),
                product_id).len(),
                forall|j: int|
                    0 <= j < out@.len() ==> ((#[trigger] out@[j]).0 as int, out@[j].1 as int)
                        == self.row_pos_of(
                        hits(self.occs().take(offset_of(self.col_occs(), i as int)), product_id)[j],
                    ),
            decreases n - i,
        {
            proof {
                lemma_offset_bounds(self.col_occs(), i as int);
                lemma_offset_bounds(self.col_occs(), i + 1);
                crate::seqtools::lemma_cat_take_block(self.col_occs(), i as int);
                lemma_hits_concat(
                    self.occs().take(offset_of(self.col_occs(), i as int)),
                    self.col_occs()[i as int],
                    product_id,
                );
                lemma_hits(self.col_occs()[i as int], product_id);
                assert forall|z: int|
                    0 <= z < self.col_occs()[i as int].len() implies #[trigger] block_of(
                    self.col_occs(),
                    offset_of(self.col_occs(), i as int) + z,
                ) == i as int by {
                    crate::seqtools::lemma_block_of_offset(self.col_occs(), i as int, z);
                }
            }
            let zs = self.columns[i].find_all_item_occurences(product_id);
            let m = zs.len();
            let mut j: usize = 0;
            while j < m
                invariant
                    0 <= j <= m,
                    out@.len() == hits(self.occs().take(offset_of(self.col_occs(), i as int)),
                    product_id).len() + j,
                    forall|q: int|
                        0 <= q < out@.len() ==> ((#[trigger] out@[q]).0 as int, out@[q].1 as int)
                            == self.row_pos_of(
                            hits(self.occs().take(offset_of(self.col_occs(), i + 1)), product_id)[q],
                        ),
                decreases m - j,
            {
                proof {
                    let a = self.occs().take(offset_of(self.col_occs(), i as int));
                    let b = self.col_occs()[i as int];
                    let la = hits(a, product_id).len() as int;
                    assert(hits(a + b, product_id)[la + j as int] == hits(b, product_id)[j as int] + a.len());
                    assert(block_of(
                        self.col_occs(),
                        offset_of(self.col_occs(), i as int) + hits(b, product_id)[j as int],
                    ) == i as int);
                    assert(self.row_pos_of(hits(
                        self.occs().take(offset_of(self.col_occs(), i + 1)),
                        product_id,
                    )[la + j as int]) == (i + 1, zs@[j as int] as int));
                }
                out.push((i + 1, zs[j]));
                j = j + 1;
            }
            proof {
                assert(out@.len() == hits(self.occs().take(offset_of(self.col_occs(), i + 1)),
                product_id).len());
            }
            i = i + 1;
        }
        proof {
            lemma_offset_bounds(self.col_occs(), n as int);
            assert(self.occs().take(self.occs().len() as int) =~= self.occs());
        }
        out
    }
}

impl Warehouse {
    /// The contents of the rows, one view per row.
    pub open spec fn row_occs(self) -> Seq<Seq<Occupancy>> {
        self.rows@.map_values(|r: Row| r.occs())
    }

    /// The whole grid flattened: zone contents in row-major, column-major,
    /// zone-major order.
    pub open spec fn flat(self) -> Seq<Occupancy> {
        cat(self.row_occs())
    }

    /// Whether a 1-based (row, column, zone) triple names a zone of the grid.
    pub open spec fn valid_pos(self, r: int, c: int, z: int) -> bool {
        &&& 1 <= r <= self.rows@.len()
        &&& 1 <= c <= self.rows@[r - 1].columns@.len()
        &&& 1 <= z <= self.rows@[r - 1].col_occs()[c - 1].len()
    }

    /// The flat position of the 1-based (row, column, zone) triple.
    pub open spec fn pos_of(self, r: int, c: int, z: int) -> int {
        offset_of(self.row_occs(), r - 1) + self.rows@[r - 1].pos_in_row(c, z)
    }

    /// The 1-based (row, column, zone) triple of a flat position.
    pub open spec fn triple_of(self, i: int) -> (int, int, int) {
        let r = block_of(self.row_occs(), i);
        let p = self.rows@[r].row_pos_of(i - offset_of(self.row_occs(), r));
        (r + 1, p.0, p.1)
    }

    /// How many columns the grid has over all rows.
    pub open spec fn total_columns(self) -> int {
        weight(self.rows@, |r: Row| r.columns@.len() as int)
    }

    /// The same observable state: equal counters and row-wise equal columns.
    pub open spec fn same_state(self, other: Warehouse) -> bool {
        &&& self.row_count == other.row_count
        &&& self.column_count == other.column_count
        &&& self.capacity == other.capacity
        &&& self.available_space == other.available_space
        &&& self.rows@.len() == other.rows@.len()
        &&& forall|k: int|
            0 <= k < self.rows@.len() ==> (#[trigger] self.rows@[k]).same_state(other.rows@[k])
    }

    /// The same grid dimensions: equally many rows, columns and zones.
    pub open spec fn same_shape(self, other: Warehouse) -> bool {
        &&& self.rows@.len() == other.rows@.len()
        &&& forall|k: int|
            0 <= k < self.rows@.len() ==> (#[trigger] self.rows@[k]).columns@.len()
                == other.rows@[k].columns@.len() && forall|c: int|
                0 <= c < self.rows@[k].columns@.len()
                    ==> (#[trigger] self.rows@[k].columns@[c]).zones@.len()
                    == other.rows@[k].columns@[c].zones@.len()
    }

    /// Counters match the zones below, and every row sits at its 1-based
    /// index.
    pub open spec fn wf(self) -> bool {
        &&& self.row_count == self.rows@.len()
        &&& self.column_count == self.total_columns()
        &&& self.capacity == self.flat().len()
        &&& self.available_space == count_empty(self.flat())
        &&& forall|k: int|
            0 <= k < self.rows@.len() ==> (#[trigger] self.rows@[k]).wf()
                && self.rows@[k].row_number == k + 1
    }

    /// Two warehouses in the same state flatten alike.
    pub proof fn lemma_same_state(a: Warehouse, b: Warehouse)
        requires
            a.same_state(b),
        ensures
            a.row_occs() =~= b.row_occs(),
            a.flat() == b.flat(),
            a.total_columns() == b.total_columns(),
            a.wf() ==> b.wf(),
    {
        assert forall|k: int| 0 <= k < a.rows@.len() implies a.row_occs()[k] == b.row_occs()[k] by {
            assert(a.rows@[k].same_state(b.rows@[k]));
            assert(a.rows@[k].col_occs() =~= b.rows@[k].col_occs());
        }
        assert(a.row_occs() =~= b.row_occs());
        let f = |r: Row| r.columns@.len() as int;
        assert(a.rows@.map_values(f) =~= b.rows@.map_values(f));
        if a.wf() {
            assert forall|k: int| 0 <= k < b.rows@.len() implies (#[trigger] b.rows@[k]).wf()
                && b.rows@[k].row_number == k + 1 by {
                assert(a.rows@[k].wf());
                assert(a.rows@[k].same_state(b.rows@[k]));
                assert(a.rows@[k].col_occs() =~= b.rows@[k].col_occs());
            }
        }
    }

    /// A valid triple's flat position is in range, reads that zone's
    /// content, and maps back to the same triple.
    pub proof fn lemma_valid_pos(self, r: int, c: int, z: int)
        requires
            self.wf(),
            self.valid_pos(r, c, z),
        ensures
            0 <= self.pos_of(r, c, z) < self.flat().len(),
            self.flat()[self.pos_of(r, c, z)] == self.rows@[r - 1].columns@[c - 1].zones@[z
                - 1].occ(),
            self.triple_of(self.pos_of(r, c, z)) == (r, c, z),
    {
        let row = self.rows@[r - 1];
        lemma_cat_index(row.col_occs(), c - 1, z - 1);
        lemma_cat_index(self.row_occs(), r - 1, row.pos_in_row(c, z));
        crate::seqtools::lemma_block_of_offset(self.row_occs(), r - 1, row.pos_in_row(c, z));
        crate::seqtools::lemma_block_of_offset(row.col_occs(), c - 1, z - 1);
    }

    /// Every flat position maps to a valid triple whose content it reads.
    pub proof fn lemma_flat_pos(self, i: int)
        requires
            self.wf(),
            0 <= i < self.flat().len(),
        ensures
            ({
                let (r, c, z) = self.triple_of(i);
                self.valid_pos(r, c, z) && self.pos_of(r, c, z) == i && self.flat()[i]
                    == self.rows@[r - 1].columns@[c - 1].zones@[z - 1].occ()
            }),
    {
        crate::seqtools::lemma_block_of(self.row_occs(), i);
        let r0 = block_of(self.row_occs(), i);
        let row = self.rows@[r0];
        let inner = i - offset_of(self.row_occs(), r0);
        crate::seqtools::lemma_block_of(row.col_occs(), inner);
        let c0 = block_of(row.col_occs(), inner);
        lemma_cat_index(row.col_occs(), c0, inner - offset_of(row.col_occs(), c0));
    }

    pub fn new() -> (w: Warehouse)
        ensures
            w == (Warehouse {
                row_count: 0,
                column_count: 0,
                capacity: 0,
                available_space: 0,
                rows: w.rows,
            }),
            w.rows@.len() == 0,
            w.flat().len() == 0,
            w.wf(),
    {
        let w = Warehouse {
            row_count: 0,
            column_count: 0,
            capacity: 0,
            available_space: 0,
            rows: Vec::new(),
        };
        proof {
            assert(w.row_occs() =~= Seq::<Seq<Occupancy>>::empty());
            assert(w.flat() =~= Seq::<Occupancy>::empty());
            assert(w.flat().map_values(|o: Occupancy| if o is None { 1int } else { 0int })
                =~= Seq::<int>::empty());
            assert(w.rows@.map_values(|r: Row| r.columns@.len() as int) =~= Seq::<int>::empty());
        }
        w
    }

    pub fn is_full(&self) -> (r: bool)
        ensures
            r == (self.available_space == 0),
    {
        self.available_space == 0
    }

    /// Appends a row, folding its capacity and free space into the grid.
    pub fn add_row(&mut self, row: Row)
        requires
            old(self).wf(),
            row.wf(),
            row.row_number == old(self).row_count + 1,
            old(self).row_count < usize::MAX,
            old(self).capacity + row.capacity <= usize::MAX,
            old(self).column_count + row.columns@.len() <= usize::MAX,
        ensures
            final(self).wf(),
            final(self).flat() == old(self).flat() + row.occs(),
            final(self).row_count == old(self).row_count + 1,
            final(self).column_count == old(self).column_count + row.columns@.len(),
            final(self).capacity == old(self).capacity + row.capacity,
            final(self).available_space == old(self).available_space + row.available_space,
            final(self).rows@ == old(self).rows@.push(row),
    {
        proof {
            lemma_count_empty_bounds(old(self).flat());
            lemma_count_empty_bounds(row.occs());
            lemma_count_empty_concat(old(self).flat(), row.occs());
            crate::seqtools::lemma_weight_push(
                old(self).rows@,
                row,
                |r: Row| r.columns@.len() as int,
            );
        }
        self.row_count = self.row_count + 1;
        self.capacity = self.capacity + row.capacity;
        self.available_space = self.available_space + row.available_space;
        self.column_count = self.column_count + row.columns.len();
        self.rows.push(row);
        proof {
            assert(self.row_occs() =~= old(self).row_occs().push(row.occs()));
            crate::seqtools::lemma_cat_push(old(self).row_occs(), row.occs());
        }
    }

    /// Builds `row_count` rows of `col_per_row` columns of `zone_per_col`
    /// zones each, numbered after the last existing row.
    #[verifier::loop_isolation(false)]
    pub fn initialize_rows(&mut self, row_count: usize, col_per_row: usize, zone_per_col: usize)
        requires
            old(self).wf(),
            old(self).row_count + row_count <= usize::MAX,
            old(self).column_count + row_count * col_per_row <= usize::MAX,
            old(self).capacity + row_count * col_per_row * zone_per_col <= usize::MAX,
        ensures
            final(self).wf(),
            final(self).flat() == old(self).flat() + empties(
                row_count * col_per_row * zone_per_col,
            ),
            final(self).row_count == old(self).row_count + row_count,
            final(self).column_count == old(self).column_count + row_count * col_per_row,
            final(self).capacity == old(self).capacity + row_count * col_per_row * zone_per_col,
            final(self).available_space == old(self).available_space + row_count * col_per_row
                * zone_per_col,
            final(self).rows@.len() == old(self).rows@.len() + row_count,
            forall|k: int|
                old(self).rows@.len() <= k < final(self).rows@.len() ==> (#[trigger] final(self).rows@[k]).columns@.len() == col_per_row && forall|c: int|
                    0 <= c < col_per_row ==> final(self).rows@[k].columns@[c].zones@.len()
                        == zone_per_col,
    {
        let mut i: usize = 0;
        while i < row_count
            invariant
                0 <= i <= row_count,
                self.wf(),
                self.flat() == old(self).flat() + empties(i * col_per_row * zone_per_col),
                self.row_count == old(self).row_count + i,
                self.column_count == old(self).column_count + i * col_per_row,
                self.capacity == old(self).capacity + i * col_per_row * zone_per_col,
                self.available_space == old(self).available_space + i * col_per_row * zone_per_col,
                self.rows@.len() == old(self).rows@.len() + i,
                forall|k: int|
                    0 <= k < old(self).rows@.len() ==> #[trigger] self.rows@[k] == old(self).rows@[k],
                forall|k: int|
                    old(self).rows@.len() <= k < self.rows@.len() ==> (#[trigger] self.rows@[k]).columns@.len()
                        == col_per_row && forall|c: int|
                        0 <= c < col_per_row ==> self.rows@[k].columns@[c].zones@.len()
                            == zone_per_col,
            decreases row_count - i,
        {
            proof {
                assert((i + 1) * col_per_row == i * col_per_row + col_per_row)
                    by (nonlinear_arith);
                assert((i + 1) * col_per_row * zone_per_col == i * col_per_row * zone_per_col
                    + col_per_row * zone_per_col) by (nonlinear_arith);
                assert((i + 1) * col_per_row <= row_count * col_per_row) by (nonlinear_arith)
                    requires
                        0 <= i,
                        i + 1 <= row_count,
                        0 <= col_per_row,
                ;
                assert((i + 1) * col_per_row * zone_per_col <= row_count * col_per_row
                    * zone_per_col) by (nonlinear_arith)
                    requires
                        0 <= i,
                        i + 1 <= row_count,
                        0 <= col_per_row,
                        0 <= zone_per_col,
                ;
                assert(i * col_per_row * zone_per_col >= 0) by (nonlinear_arith)
                    requires
                        0 <= i,
                        0 <= col_per_row,
                        0 <= zone_per_col,
                ;
            }
            let mut row = Row::new(self.row_count + 1);
            row.initialize_columns(col_per_row, zone_per_col);
            proof {
                assert(row.occs() =~= empties(col_per_row * zone_per_col));
                lemma_empties(col_per_row * zone_per_col);
            }
            self.add_row(row);
            proof {
                assert(self.flat() =~= old(self).flat() + empties(
                    (i + 1) * col_per_row * zone_per_col,
                ));
            }
            i = i + 1;
        }
        proof {
            assert(old(self).flat() + empties(0) =~= old(self).flat());
        }
    }

    /// The row with this 1-based number, when the grid has it.
    pub fn row(&self, row_number: usize) -> (r: Option<&Row>)
        requires
            self.wf(),
        ensures
            (r is Some) <==> 1 <= row_number <= self.rows@.len(),
            r matches Some(row) ==> *row == self.rows@[row_number - 1],
    {
        if 1 <= row_number && row_number <= self.rows.len() {
            Some(&self.rows[row_number - 1])
        } else {
            None
        }
    }

    /// The zone at the 1-based triple, when it exists.
    pub fn zone(&self, row_number: usize, column_number: usize, zone_number: usize) -> (r: Option<
        &Zone,
    >)
        requires
            self.wf(),
        ensures
            (r is Some) <==> self.valid_pos(
                row_number as int,
                column_number as int,
                zone_number as int,
            ),
            r matches Some(z) ==> *z == self.rows@[row_number - 1].columns@[column_number
                - 1].zones@[zone_number - 1],
    {
        match self.row(row_number) {
            Some(row) => row.zone(column_number, zone_number),
            None => None,
        }
    }

    /// Places `item` at the 1-based triple, updating all counters in step.
    pub fn add_item(
        &mut self,
        row_number: usize,
        column_number: usize,
        zone_number: usize,
        item: ProductItem,
    ) -> (r: Result<(), ErrorKind>)
        requires
            old(self).wf(),
            item.row == row_number,
            item.column == column_number,
            item.zone == zone_number,
        ensures
            final(self).wf(),
            final(self).capacity == old(self).capacity,
            final(self).row_count == old(self).row_count,
            final(self).column_count == old(self).column_count,
            final(self).same_shape(*old(self)),
            !(1 <= row_number <= old(self).rows@.len()) ==> (r matches Err(ErrorKind::RowNotFound(
                n,
            )) && n == row_number) && *final(self) == *old(self),
            1 <= row_number <= old(self).rows@.len() && !(1 <= column_number <= old(self).rows@[row_number - 1].columns@.len()) ==> (r matches Err(ErrorKind::ColumnNotFound(p))
                && p == (row_number, column_number)) && final(self).same_state(*old(self)),
            1 <= row_number <= old(self).rows@.len() && 1 <= column_number <= old(self).rows@[row_number - 1].columns@.len() && !(1 <= zone_number <= old(self).rows@[row_number - 1].col_occs()[column_number - 1].len()) ==> (r matches Err(
                ErrorKind::ZoneNotFound(p),
            ) && p == (row_number, column_number, zone_number)) && final(self).same_state(
                *old(self),
            ),
            old(self).valid_pos(row_number as int, column_number as int, zone_number as int)
                && old(self).flat()[old(self).pos_of(
                row_number as int,
                column_number as int,
                zone_number as int,
            )] is Some ==> (r matches Err(ErrorKind::ZoneOccupied(p)) && p == (row_number,
            column_number, zone_number)) && final(self).same_state(*old(self)),
            old(self).valid_pos(row_number as int, column_number as int, zone_number as int)
                && old(self).flat()[old(self).pos_of(
                row_number as int,
                column_number as int,
                zone_number as int,
            )] is None ==> r is Ok && final(self).flat() == old(self).flat().update(
                old(self).pos_of(row_number as int, column_number as int, zone_number as int),
                Some((item.id, item.expiry_date)),
            ) && final(self).available_space == old(self).available_space - 1,
    {
        if !(1 <= row_number && row_number <= self.rows.len()) {
            return Err(ErrorKind::RowNotFound(row_number));
        }
        let ridx = row_number - 1;
        let ghost pos = old(self).pos_of(
            row_number as int,
            column_number as int,
            zone_number as int,
        );
        proof {
            if old(self).valid_pos(row_number as int, column_number as int, zone_number as int) {
                lemma_cat_index(
                    old(self).rows@[ridx as int].col_occs(),
                    column_number - 1,
                    zone_number - 1,
                );
                lemma_cat_index(
                    old(self).row_occs(),
                    ridx as int,
                    old(self).rows@[ridx as int].pos_in_row(
                        column_number as int,
                        zone_number as int,
                    ),
                );
            }
        }
        let row = &mut self.rows[ridx];
        let res = row.add_item(column_number, zone_number, item);
        match res {
            Ok(()) => {
                proof {
                    lemma_cat_update(
                        old(self).row_occs(),
                        ridx as int,
                        old(self).rows@[ridx as int].pos_in_row(
                            column_number as int,
                            zone_number as int,
                        ),
                        Some((item.id, item.expiry_date)),
                    );
                    assert(self.row_occs() =~= old(self).row_occs().update(
                        ridx as int,
                        old(self).row_occs()[ridx as int].update(
                            old(self).rows@[ridx as int].pos_in_row(
                                column_number as int,
                                zone_number as int,
                            ),
                            Some((item.id, item.expiry_date)),
                        ),
                    ));
                    lemma_count_empty_update(
                        old(self).flat(),
                        pos,
                        Some((item.id, item.expiry_date)),
                    );
                    lemma_count_empty_pos(old(self).flat(), pos);
                    let f = |r: Row| r.columns@.len() as int;
                    assert(self.rows@.map_values(f) =~= old(self).rows@.map_values(f));
                    assert(old(self).valid_pos(
                        row_number as int,
                        column_number as int,
                        zone_number as int,
                    ));
                    assert(self.rows@[ridx as int].occs() == old(self).rows@[ridx as int].occs()
                        .update(
                        old(self).rows@[ridx as int].pos_in_row(
                            column_number as int,
                            zone_number as int,
                        ),
                        Some((item.id, item.expiry_date)),
                    ));
                    assert(self.flat() == old(self).flat().update(
                        pos,
                        Some((item.id, item.expiry_date)),
                    ));
                    assert(self.flat().len() == old(self).flat().len());
                    assert(count_empty(self.flat()) == count_empty(old(self).flat()) - 1);
                }
                self.available_space = self.available_space - 1;
                Ok(())
            },
            Err(e) => {
                proof {
                    let f = |r: Row| r.columns@.len() as int;
                    assert(self.rows@.map_values(f) =~= old(self).rows@.map_values(f));
                    assert(self.row_occs() =~= old(self).row_occs());
                    if !(1 <= column_number <= old(self).rows@[ridx as int].columns@.len()) {
                        assert(self.rows@ =~= old(self).rows@);
                    }
                }
                Err(e)
            },
        }
    }

    /// Clears the zone at the 1-based triple, updating all counters in step.
    pub fn remove_item(
        &mut self,
        row_number: usize,
        column_number: usize,
        zone_number: usize,
    ) -> (r: Result<(), ErrorKind>)
        requires
            old(self).wf(),
        ensures
            final(self).wf(),
            final(self).capacity == old(self).capacity,
            final(self).row_count == old(self).row_count,
            final(self).column_count == old(self).column_count,
            final(self).same_shape(*old(self)),
            !(1 <= row_number <= old(self).rows@.len()) ==> (r matches Err(ErrorKind::RowNotFound(
                n,
            )) && n == row_number) && *final(self) == *old(self),
            1 <= row_number <= old(self).rows@.len() && !(1 <= column_number <= old(self).rows@[row_number - 1].columns@.len()) ==> (r matches Err(ErrorKind::ColumnNotFound(p))
                && p == (row_number, column_number)) && final(self).same_state(*old(self)),
            1 <= row_number <= old(self).rows@.len() && 1 <= column_number <= old(self).rows@[row_number - 1].columns@.len() && !(1 <= zone_number <= old(self).rows@[row_number - 1].col_occs()[column_number - 1].len()) ==> (r matches Err(
                ErrorKind::ZoneNotFound(p),
            ) && p == (row_number, column_number, zone_number)) && final(self).same_state(
                *old(self),
            ),
            old(self).valid_pos(row_number as int, column_number as int, zone_number as int)
                && old(self).flat()[old(self).pos_of(
                row_number as int,
                column_number as int,
                zone_number as int,
            )] is None ==> (r matches Err(ErrorKind::ZoneEmpty(p)) && p == (row_number,
            column_number, zone_number)) && final(self).same_state(*old(self)),
            old(self).valid_pos(row_number as int, column_number as int, zone_number as int)
                && old(self).flat()[old(self).pos_of(
                row_number as int,
                column_number as int,
                zone_number as int,
            )] is Some ==> r is Ok && final(self).flat() == old(self).flat().update(
                old(self).pos_of(row_number as int, column_number as int, zone_number as int),
                None,
            ) && final(self).available_space == old(self).available_space + 1,
    {
        if !(1 <= row_number && row_number <= self.rows.len()) {
            return Err(ErrorKind::RowNotFound(row_number));
        }
        let ridx = row_number - 1;
        let ghost pos = old(self).pos_of(
            row_number as int,
            column_number as int,
            zone_number as int,
        );
        proof {
            if old(self).valid_pos(row_number as int, column_number as int, zone_number as int) {
                lemma_cat_index(
                    old(self).rows@[ridx as int].col_occs(),
                    column_number - 1,
                    zone_number - 1,
                );
                lemma_cat_index(
                    old(self).row_occs(),
                    ridx as int,
                    old(self).rows@[ridx as int].pos_in_row(
                        column_number as int,
                        zone_number as int,
                    ),
                );
            }
            lemma_count_empty_bounds(old(self).flat());
        }
        let row = &mut self.rows[ridx];
        let res = row.remove_item(column_number, zone_number);
        match res {
            Ok(()) => {
                proof {
                    lemma_cat_update(
                        old(self).row_occs(),
                        ridx as int,
                        old(self).rows@[ridx as int].pos_in_row(
                            column_number as int,
                            zone_number as int,
                        ),
                        None,
                    );
                    assert(self.row_occs() =~= old(self).row_occs().update(
                        ridx as int,
                        old(self).row_occs()[ridx as int].update(
                            old(self).rows@[ridx as int].pos_in_row(
                                column_number as int,
                                zone_number as int,
                            ),
                            None,
                        ),
                    ));
                    lemma_count_empty_update(old(self).flat(), pos, None);
                    crate::seqtools::lemma_weight_pos(
                        old(self).flat(),
                        pos,
                        |o: Occupancy| if o is None { 1int } else { 0int },
                    );
                    let f = |r: Row| r.columns@.len() as int;
                    assert(self.rows@.map_values(f) =~= old(self).rows@.map_values(f));
                }
                self.available_space = self.available_space + 1;
                Ok(())
            },
            Err(e) => {
                proof {
                    let f = |r: Row| r.columns@.len() as int;
                    assert(self.rows@.map_values(f) =~= old(self).rows@.map_values(f));
                    assert(self.row_occs() =~= old(self).row_occs());
                    if !(1 <= column_number <= old(self).rows@[ridx as int].columns@.len()) {
                        assert(self.rows@ =~= old(self).rows@);
                    }
                }
                Err(e)
            },
        }
    }

    /// The item at the 1-based triple, when one is there.
    pub fn get_item(
        &self,
        row_number: usize,
        column_number: usize,
        zone_number: usize,
    ) -> (r: Option<&ProductItem>)
        requires
            self.wf(),
        ensures
            (r is Some) <==> (self.valid_pos(
                row_number as int,
                column_number as int,
                zone_number as int,
            ) && self.flat()[self.pos_of(
                row_number as int,
                column_number as int,
                zone_number as int,
            )] is Some),
            r matches Some(it) ==> self.flat()[self.pos_of(
                row_number as int,
                column_number as int,
                zone_number as int,
            )] == Some((it.id, it.expiry_date)) && it.row == row_number && it.column
                == column_number && it.zone == zone_number,
    {
        if !(1 <= row_number && row_number <= self.rows.len()) {
            return None;
        }
        proof {
            if self.valid_pos(row_number as int, column_number as int, zone_number as int) {
                lemma_cat_index(
                    self.rows@[row_number - 1].col_occs(),
                    column_number - 1,
                    zone_number - 1,
                );
                lemma_cat_index(
                    self.row_occs(),
                    row_number - 1,
                    self.rows@[row_number - 1].pos_in_row(column_number as int, zone_number as int),
                );
            }
        }
        self.rows[row_number - 1].item(column_number, zone_number)
    }

    /// Whether any zone of the grid holds product `product_id`.
    #[verifier::loop_isolation(false)]
    pub fn contains_product(&self, product_id: u32) -> (r: bool)
        requires
            self.wf(),
        ensures
            r == has_id_in(self.flat(), product_id),
    {
        let n = self.rows.len();
        let mut i: usize = 0;
        while i < n
            invariant
                0 <= i <= n,
                forall|k: int|
                    0 <= k < i ==> !has_id_in(#[trigger] self.row_occs()[k], product_id),
            decreases n - i,
        {
            if self.rows[i].contains_product(product_id) {
                proof {
                    let k = choose|k: int|
                        0 <= k < self.row_occs()[i as int].len() && holds_id(
                            #[trigger] self.row_occs()[i as int][k],
                            product_id,
                        );
                    lemma_cat_index(self.row_occs(), i as int, k);
                }
                return true;
            }
            i = i + 1;
        }
        proof {
            if has_id_in(self.flat(), product_id) {
                let k = choose|k: int|
                    0 <= k < self.flat().len() && holds_id(#[trigger] self.flat()[k], product_id);
                crate::seqtools::lemma_block_of(self.row_occs(), k);
            }
        }
        false
    }

    /// The occupancy bitmap of the whole grid in scan order: `true` marks an
    /// occupied zone.
    #[verifier::loop_isolation(false)]
    pub fn flat_map(&self) -> (r: Vec<bool>)
        requires
            self.wf(),
        ensures
            r@.len() == self.flat().len(),
            forall|k: int| 0 <= k < r@.len() ==> r@[k] == (self.flat()[k] is Some),
    {
        let n = self.rows.len();
        let mut out: Vec<bool> = Vec::new();
        let mut i: usize = 0;
        while i < n
            invariant
                0 <= i <= n,
                out@.len() == offset_of(self.row_occs(), i as int),
                out@.len() <= self.flat().len(),
                forall|k: int| 0 <= k < out@.len() ==> #[trigger] out@[k] == (self.flat()[k] is Some),
            decreases n - i,
        {
            let mut bits = self.rows[i].flat_map();
            proof {
                lemma_offset_bounds(self.row_occs(), i as int);
                lemma_offset_bounds(self.row_occs(), i + 1);
                assert forall|j: int| 0 <= j < self.row_occs()[i as int].len() implies self.flat()[
                    offset_of(self.row_occs(), i as int) + j
                ] == self.row_occs()[i as int][j] by {
                    lemma_cat_index(self.row_occs(), i as int, j);
                }
            }
            out.append(&mut bits);
            i = i + 1;
        }
        proof {
            lemma_offset_bounds(self.row_occs(), n as int);
        }
        out
    }

    /// The first occurrence of `product_id`, as a 1-based triple in scan
    /// order.
    #[verifier::loop_isolation(false)]
    pub fn find_item(&self, product_id: u32) -> (r: Option<(usize, usize, usize)>)
        requires
            self.wf(),
        ensures
            (r is Some) <==> has_id_in(self.flat(), product_id),
            r matches Some(p) ==> self.valid_pos(p.0 as int, p.1 as int, p.2 as int) && holds_id(
                self.flat()[self.pos_of(p.0 as int, p.1 as int, p.2 as int)],
                product_id,
            ) && forall|k: int|
                0 <= k < self.pos_of(p.0 as int, p.1 as int, p.2 as int) ==> !holds_id(
                    self.flat()[k],
                    product_id,
                ),
    {
        let n = self.rows.len();
        let mut i: usize = 0;
        while i < n
            invariant
                0 <= i <= n,
                forall|k: int|
                    0 <= k < offset_of(self.row_occs(), i as int) ==> !holds_id(
                        self.flat()[k],
                        product_id,
                    ),
            decreases n - i,
        {
            proof {
                lemma_offset_bounds(self.row_occs(), i as int);
                lemma_offset_bounds(self.row_occs(), i + 1);
            }
            match self.rows[i].find_item(product_id) {
                Some(cz) => {
                    proof {
                        let row = self.rows@[i as int];
                        lemma_cat_index(row.col_occs(), cz.0 as int - 1, cz.1 as int - 1);
                        lemma_cat_index(
                            self.row_occs(),
                            i as int,
                            row.pos_in_row(cz.0 as int, cz.1 as int),
                        );
                        assert forall|k: int|
                            0 <= k < self.pos_of(i + 1, cz.0 as int, cz.1 as int) implies !holds_id(
                            self.flat()[k],
                            product_id,
                        ) by {
                            if k >= offset_of(self.row_occs(), i as int) {
                                lemma_cat_index(
                                    self.row_occs(),
                                    i as int,
                                    k - offset_of(self.row_occs(), i as int),
                                );
                            }
                        }
                    }
                    return Some((i + 1, cz.0, cz.1));
                },
                None => {
                    proof {
                        assert forall|k: int|
                            0 <= k < offset_of(self.row_occs(), i + 1) implies !holds_id(
                            self.flat()[k],
                            product_id,
                        ) by {
                            if k >= offset_of(self.row_occs(), i as int) {
                                lemma_cat_index(
                                    self.row_occs(),
                                    i as int,
                                    k - offset_of(self.row_occs(), i as int),
                                );
                            }
                        }
                    }
                },
            }
            i = i + 1;
        }
        proof {
            lemma_offset_bounds(self.row_occs(), n as int);
            if has_id_in(self.flat(), product_id) {
                let k = choose|k: int|
                    0 <= k < self.flat().len() && holds_id(#[trigger] self.flat()[k], product_id);
            }
        }
        None
    }

    /// Every occurrence of `product_id`, as 1-based triples in scan order.
    #[verifier::loop_isolation(false)]
    pub fn find_all_item_occurences(&self, product_id: u32) -> (r: Vec<(usize, usize, usize)>)
        requires
            self.wf(),
        ensures
            r@.len() == hits(self.flat(), product_id).len(),
            forall|j: int|
                0 <= j < r@.len() ==> ((#[trigger] r@[j]).0 as int, r@[j].1 as int, r@[j].2 as int)
                    == self.triple_of(hits(self.flat(), product_id)[j]),
    {
        let n = self.rows.len();
        let mut out: Vec<(usize, usize, usize)> = Vec::new();
        let mut i: usize = 0;
        while i < n
            invariant
                0 <= i <= n,
                out@.len() == hits(self.flat().take(offset_of(self.row_occs(), i as int)),
                product_id).len(),
                forall|j: int|
                    0 <= j < out@.len() ==> ((#[trigger] out@[j]).0 as int, out@[j].1 as int,
                    out@[j].2 as int) == self.triple_of(
                        hits(
                            self.flat().take(offset_of(self.row_occs(), i as int)),
                            product_id,
                        )[j],
                    ),
            decreases n - i,
        {
            proof {
                lemma_offset_bounds(self.row_occs(), i as int);
                lemma_offset_bounds(self.row_occs(), i + 1);
                crate::seqtools::lemma_cat_take_block(self.row_occs(), i as int);
                lemma_hits_concat(
                    self.flat().take(offset_of(self.row_occs(), i as int)),
                    self.row_occs()[i as int],
                    product_id,
                );
                lemma_hits(self.row_occs()[i as int], product_id);
            }
            let czs = self.rows[i].find_all_item_occurences(product_id);
            let m = czs.len();
            let mut j: usize = 0;
            while j < m
                invariant
                    0 <= j <= m,
                    out@.len() == hits(self.flat().take(offset_of(self.row_occs(), i as int)),
                    product_id).len() + j,
                    forall|q: int|
                        0 <= q < out@.len() ==> ((#[trigger] out@[q]).0 as int, out@[q].1 as int,
                        out@[q].2 as int) == self.triple_of(
                            hits(
                                self.flat().take(offset_of(self.row_occs(), i + 1)),
                                product_id,
                            )[q],
                        ),
                decreases m - j,
            {
                proof {
                    let a = self.flat().take(offset_of(self.row_occs(), i as int));
                    let b = self.row_occs()[i as int];
                    let la = hits(a, product_id).len() as int;
                    let hbj = hits(b, product_id)[j as int];
                    assert(hits(a + b, product_id)[la + j as int] == hbj + a.len());
                    assert(crate::seqtools::block_of(
                        self.row_occs(),
                        offset_of(self.row_occs(), i as int) + hbj,
                    ) == i as int) by {
                        crate::seqtools::lemma_block_of_offset(self.row_occs(), i as int, hbj);
                    }
                    assert(self.triple_of(hits(
                        self.flat().take(offset_of(self.row_occs(), i + 1)),
                        product_id,
                    )[la + j as int]) == (i + 1, czs@[j as int].0 as int, czs@[j as int].1 as int));
                }
                let cz = czs[j];
                out.push((i + 1, cz.0, cz.1));
                j = j + 1;
            }
            i = i + 1;
        }
        proof {
            lemma_offset_bounds(self.row_occs(), n as int);
            assert(self.flat().take(self.flat().len() as int) =~= self.flat());
        }
        out
    }

    /// Maps a 0-based flat offset back to the 1-based triple it names, by
    /// walking cumulative per-row and per-column capacities.
    #[verifier::loop_isolation(false)]
    pub fn flat_map_position_to_zone(&self, position: usize) -> (r: Option<(usize, usize, usize)>)
        requires
            self.wf(),
        ensures
            (r is Some) <==> position < self.flat().len(),
            r matches Some(t) ==> (t.0 as int, t.1 as int, t.2 as int) == self.triple_of(
                position as int,
            ) && self.valid_pos(t.0 as int, t.1 as int, t.2 as int) && self.pos_of(
                t.0 as int,
                t.1 as int,
                t.2 as int,
            ) == position,
    {
        let n = self.rows.len();
        let mut cumulative: usize = 0;
        let mut i: usize = 0;
        while i < n
            invariant
                0 <= i <= n,
                cumulative == offset_of(self.row_occs(), i as int),
                cumulative <= self.flat().len(),
                position >= cumulative,
            decreases n - i,
        {
            proof {
                lemma_offset_bounds(self.row_occs(), i as int);
                lemma_offset_bounds(self.row_occs(), i + 1);
            }
            let row_cap = self.rows[i].capacity;
            if position < cumulative + row_cap {
                let rel = position - cumulative;
                proof {
                    crate::seqtools::lemma_block_of_offset(self.row_occs(), i as int, rel as int);
                    lemma_cat_index(self.row_occs(), i as int, rel as int);
                }
                let row = &self.rows[i];
                let m = row.columns.len();
                let mut col_cum: usize = 0;
                let mut c: usize = 0;
                while c < m
                    invariant
                        0 <= c <= m,
                        col_cum == offset_of(self.rows@[i as int].col_occs(), c as int),
                        col_cum <= self.rows@[i as int].occs().len(),
                        rel >= col_cum,
                    decreases m - c,
                {
                    proof {
                        lemma_offset_bounds(self.rows@[i as int].col_occs(), c as int);
                        lemma_offset_bounds(self.rows@[i as int].col_occs(), c + 1);
                    }
                    let col_cap = row.columns[c].capacity;
                    if rel < col_cum + col_cap {
                        let z = rel - col_cum;
                        proof {
                            crate::seqtools::lemma_block_of_offset(
                                self.rows@[i as int].col_occs(),
                                c as int,
                                z as int,
                            );
                            lemma_cat_index(self.rows@[i as int].col_occs(), c as int, z as int);
                        }
                        return Some((i + 1, c + 1, z + 1));
                    }
                    col_cum = col_cum + col_cap;
                    c = c + 1;
                }
                proof {
                    lemma_offset_bounds(self.rows@[i as int].col_occs(), m as int);
                    assert(false);
                }
            }
            cumulative = cumulative + row_cap;
            i = i + 1;
        }
        proof {
            lemma_offset_bounds(self.row_occs(), n as int);
        }
        None
    }

    /// Finds the first run of `required_space` consecutive empty zones in
    /// scan order. The aggregate capacity check runs first: a request above
    /// the free space fails with `InsufficientSpace` even when no run
    /// exists, and `NoContiguousSpace` marks fragmentation.
    #[verifier::loop_isolation(false)]
    pub fn find_contiguous_space(&self, required_space: usize) -> (r: Result<
        (usize, usize, usize),
        ErrorKind,
    >)
        requires
            self.wf(),
        ensures
            required_space > self.available_space <==> (r matches Err(
                ErrorKind::InsufficientSpace,
            )),
            required_space <= self.available_space && !has_empty_run(self.flat(), required_space
                as int) ==> (r matches Err(ErrorKind::NoContiguousSpace)),
            r matches Ok(t) ==> self.valid_pos(t.0 as int, t.1 as int, t.2 as int) && run_at(
                self.flat(),
                self.pos_of(t.0 as int, t.1 as int, t.2 as int),
                required_space as int,
            ) && forall|p: int|
                0 <= p < self.pos_of(t.0 as int, t.1 as int, t.2 as int) ==> !run_at(
                    self.flat(),
                    p,
                    required_space as int,
                ),
            required_space <= self.available_space && has_empty_run(self.flat(), required_space
                as int) ==> r is Ok,
    {
        if required_space > self.available_space {
            return Err(ErrorKind::InsufficientSpace);
        }
        let bits = self.flat_map();
        let n = bits.len();
        if required_space == 0 {
            if n == 0 {
                proof {
                    assert(!has_empty_run(self.flat(), 0));
                }
                return Err(ErrorKind::NoContiguousSpace);
            }
            let t = match self.flat_map_position_to_zone(0) {
                Some(t) => t,
                None => {
                    proof {
                        assert(false);
                    }
                    return Err(ErrorKind::NoContiguousSpace);
                },
            };
            proof {
                assert(run_at(self.flat(), 0, 0));
            }
            return Ok(t);
        }
        let mut start: usize = 0;
        let mut i: usize = 0;
        while i < n
            invariant
                0 <= start <= i <= n,
                i - start < required_space,
                forall|k: int| start <= k < i ==> self.flat()[k] is None,
                forall|p: int| 0 <= p < start ==> !run_at(self.flat(), p, required_space as int),
            decreases n - i,
        {
            if bits[i] {
                proof {
                    assert forall|p: int| 0 <= p < i + 1 implies !run_at(
                        self.flat(),
                        p,
                        required_space as int,
                    ) by {
                        if p >= start {
                            assert(p <= i as int && (i as int) < p + required_space);
                            assert(self.flat()[i as int] is Some);
                        }
                    }
                }
                start = i + 1;
            } else {
                if i + 1 - start == required_space {
                    proof {
                        assert(run_at(self.flat(), start as int, required_space as int));
                    }
                    let t = match self.flat_map_position_to_zone(start) {
                        Some(t) => t,
                        None => {
                            proof {
                                assert(false);
                            }
                            return Err(ErrorKind::NoContiguousSpace);
                        },
                    };
                    return Ok(t);
                }
            }
            i = i + 1;
        }
        proof {
            assert forall|p: int| 0 <= p < self.flat().len() implies !run_at(
                self.flat(),
                p,
                required_space as int,
            ) by {
                if p >= start {
                    assert(p + required_space > n);
                }
            }
        }
        Err(ErrorKind::NoContiguousSpace)
    }

    /// Per-product contiguity: with two or more occurrences, all share one
    /// row and one column and their zone numbers step by one in scan order.
    /// Zero or one occurrences count as contiguous.
    pub open spec fn stored_contiguously(self, id: u32) -> bool {
        forall|j: int|
            0 <= j < hits(self.flat(), id).len() - 1 ==> {
                let a = self.triple_of(#[trigger] hits(self.flat(), id)[j]);
                let b = self.triple_of(hits(self.flat(), id)[j + 1]);
                b.0 == a.0 && b.1 == a.1 && b.2 == a.2 + 1
            }
    }

    /// Whether every unit of `product_id` sits in one contiguous run of
    /// zones within a single column.
    #[verifier::loop_isolation(false)]
    pub fn is_product_stored_contiguously(&self, product_id: u32) -> (r: bool)
        requires
            self.wf(),
        ensures
            r == self.stored_contiguously(product_id),
    {
        let items = self.find_all_item_occurences(product_id);
        let n = items.len();
        if n <= 1 {
            return true;
        }
        let mut i: usize = 1;
        while i < n
            invariant
                1 <= i <= n,
                forall|j: int|
                    0 <= j < i - 1 ==> {
                        let a = self.triple_of(#[trigger] hits(self.flat(), product_id)[j]);
                        let b = self.triple_of(hits(self.flat(), product_id)[j + 1]);
                        b.0 == a.0 && b.1 == a.1 && b.2 == a.2 + 1
                    },
            decreases n - i,
        {
            let prev = items[i - 1];
            let cur = items[i];
            if !(cur.0 == prev.0 && cur.1 == prev.1 && cur.2 > 0 && cur.2 - 1 == prev.2) {
                return false;
            }
            i = i + 1;
        }
        true
    }

    /// Grids of one shape agree on positions, triples and validity.
    pub proof fn lemma_same_shape_pos(a: Warehouse, b: Warehouse)
        requires
            a.same_shape(b),
        ensures
            forall|r: int, c: int, z: int|
                #[trigger] a.valid_pos(r, c, z) <==> #[trigger] b.valid_pos(r, c, z),
            forall|r: int, c: int, z: int|
                #[trigger] a.valid_pos(r, c, z) ==> a.pos_of(r, c, z) == b.pos_of(r, c, z),
            a.flat().len() == b.flat().len(),
            forall|i: int| 0 <= i < a.flat().len() ==> a.triple_of(i) == b.triple_of(i),
    {
        assert forall|k: int| 0 <= k < a.rows@.len() implies #[trigger] a.row_occs()[k].len()
            == b.row_occs()[k].len() && (forall|c: int|
            0 <= c < a.rows@[k].columns@.len() ==> #[trigger] a.rows@[k].col_occs()[c].len()
                == b.rows@[k].col_occs()[c].len()) by {
            assert forall|c: int|
                0 <= c < a.rows@[k].columns@.len() implies #[trigger] a.rows@[k].col_occs()[c].len()
                == b.rows@[k].col_occs()[c].len() by {
                assert(a.rows@[k].columns@[c].zones@.len() == b.rows@[k].columns@[c].zones@.len());
            }
            crate::seqtools::lemma_offset_same_lens(
                a.rows@[k].col_occs(),
                b.rows@[k].col_occs(),
                a.rows@[k].columns@.len() as int,
            );
            crate::seqtools::lemma_offset_total(a.rows@[k].col_occs());
            crate::seqtools::lemma_offset_total(b.rows@[k].col_occs());
        }
        crate::seqtools::lemma_offset_same_lens(a.row_occs(), b.row_occs(), a.rows@.len() as int);
        crate::seqtools::lemma_offset_total(a.row_occs());
        crate::seqtools::lemma_offset_total(b.row_occs());
        assert forall|r: int, c: int, z: int| #[trigger] a.valid_pos(r, c, z) implies a.pos_of(
            r,
            c,
            z,
        ) == b.pos_of(r, c, z) by {
            crate::seqtools::lemma_offset_same_lens(a.row_occs(), b.row_occs(), r - 1);
            crate::seqtools::lemma_offset_same_lens(
                a.rows@[r - 1].col_occs(),
                b.rows@[r - 1].col_occs(),
                c - 1,
            );
        }
        assert forall|i: int| 0 <= i < a.flat().len() implies a.triple_of(i) == b.triple_of(i) by {
            crate::seqtools::lemma_block_of(a.row_occs(), i);
            crate::seqtools::lemma_block_of_same_lens(a.row_occs(), b.row_occs(), i);
            let r = block_of(a.row_occs(), i);
            crate::seqtools::lemma_offset_same_lens(a.row_occs(), b.row_occs(), r);
            let inner = i - offset_of(a.row_occs(), r);
            crate::seqtools::lemma_offset_total(a.rows@[r].col_occs());
            crate::seqtools::lemma_block_of(a.rows@[r].col_occs(), inner);
            crate::seqtools::lemma_block_of_same_lens(
                a.rows@[r].col_occs(),
                b.rows@[r].col_occs(),
                inner,
            );
            let c = block_of(a.rows@[r].col_occs(), inner);
            crate::seqtools::lemma_offset_same_lens(
                a.rows@[r].col_occs(),
                b.rows@[r].col_occs(),
                c,
            );
        }
    }

    /// Moves the occupant of `current_zone` to `new_zone`: the copy is
    /// placed first and the source cleared only after it succeeds.
    pub fn move_item(
        &mut self,
        current_zone: (usize, usize, usize),
        new_zone: (usize, usize, usize),
    ) -> (r: Result<(), ErrorKind>)
        requires
            old(self).wf(),
        ensures
            final(self).wf(),
            final(self).same_shape(*old(self)),
            final(self).capacity == old(self).capacity,
            final(self).row_count == old(self).row_count,
            final(self).column_count == old(self).column_count,
            r is Err ==> final(self).same_state(*old(self)),
            !old(self).valid_pos(
                current_zone.0 as int,
                current_zone.1 as int,
                current_zone.2 as int,
            ) ==> (r matches Err(ErrorKind::ZoneNotFound(p)) && p == current_zone),
            old(self).valid_pos(
                current_zone.0 as int,
                current_zone.1 as int,
                current_zone.2 as int,
            ) && old(self).flat()[old(self).pos_of(
                current_zone.0 as int,
                current_zone.1 as int,
                current_zone.2 as int,
            )] is None ==> (r matches Err(ErrorKind::ZoneEmpty(p)) && p == current_zone),
            old(self).valid_pos(
                current_zone.0 as int,
                current_zone.1 as int,
                current_zone.2 as int,
            ) && old(self).flat()[old(self).pos_of(
                current_zone.0 as int,
                current_zone.1 as int,
                current_zone.2 as int,
            )] is Some && old(self).valid_pos(
                new_zone.0 as int,
                new_zone.1 as int,
                new_zone.2 as int,
            ) && old(self).flat()[old(self).pos_of(
                new_zone.0 as int,
                new_zone.1 as int,
                new_zone.2 as int,
            )] is None ==> r is Ok && final(self).flat() == old(self).flat().update(
                old(self).pos_of(new_zone.0 as int, new_zone.1 as int, new_zone.2 as int),
                old(self).flat()[old(self).pos_of(
                    current_zone.0 as int,
                    current_zone.1 as int,
                    current_zone.2 as int,
                )],
            ).update(
                old(self).pos_of(
                    current_zone.0 as int,
                    current_zone.1 as int,
                    current_zone.2 as int,
                ),
                None,
            ) && final(self).available_space == old(self).available_space && forall|id: u32|
                count_id(final(self).flat(), id) == count_id(old(self).flat(), id),
            old(self).valid_pos(
                current_zone.0 as int,
                current_zone.1 as int,
                current_zone.2 as int,
            ) && old(self).flat()[old(self).pos_of(
                current_zone.0 as int,
                current_zone.1 as int,
                current_zone.2 as int,
            )] is Some && !(old(self).valid_pos(
                new_zone.0 as int,
                new_zone.1 as int,
                new_zone.2 as int,
            ) && old(self).flat()[old(self).pos_of(
                new_zone.0 as int,
                new_zone.1 as int,
                new_zone.2 as int,
            )] is None) ==> r is Err,
    {
        let ghost pc = old(self).pos_of(
            current_zone.0 as int,
            current_zone.1 as int,
            current_zone.2 as int,
        );
        let ghost pn = old(self).pos_of(new_zone.0 as int, new_zone.1 as int, new_zone.2 as int);
        let item = match self.get_item(current_zone.0, current_zone.1, current_zone.2) {
            Some(it) => it.copy_at_zone(new_zone.0, new_zone.1, new_zone.2),
            None => {
                if self.zone(current_zone.0, current_zone.1, current_zone.2).is_none() {
                    return Err(ErrorKind::ZoneNotFound(current_zone));
                }
                return Err(ErrorKind::ZoneEmpty(current_zone));
            },
        };
        proof {
            old(self).lemma_valid_pos(
                current_zone.0 as int,
                current_zone.1 as int,
                current_zone.2 as int,
            );
        }
        match self.add_item(new_zone.0, new_zone.1, new_zone.2, item) {
            Ok(()) => {
                let ghost mid = *self;
                proof {
                    Warehouse::lemma_same_shape_pos(mid, *old(self));
                    assert(old(self).valid_pos(
                        new_zone.0 as int,
                        new_zone.1 as int,
                        new_zone.2 as int,
                    ) && old(self).flat()[pn] is None);
                    old(self).lemma_valid_pos(
                        new_zone.0 as int,
                        new_zone.1 as int,
                        new_zone.2 as int,
                    );
                    assert(0 <= pn < old(self).flat().len());
                    assert(mid.flat() == old(self).flat().update(
                        pn,
                        Some((item.id, item.expiry_date)),
                    ));
                    assert(pc != pn);
                    assert(0 <= pc < old(self).flat().len());
                    assert(old(self).flat().update(pn, Some((item.id, item.expiry_date)))[pc]
                        == old(self).flat()[pc]);
                    assert(mid.valid_pos(
                        current_zone.0 as int,
                        current_zone.1 as int,
                        current_zone.2 as int,
                    ));
                    assert(mid.flat()[pc] == old(self).flat()[pc]);
                }
                match self.remove_item(current_zone.0, current_zone.1, current_zone.2) {
                    Ok(()) => {
                        proof {
                            Warehouse::lemma_same_shape_pos(mid, *old(self));
                            assert forall|id: u32|
                                count_id(self.flat(), id) == count_id(old(self).flat(), id) by {
                                lemma_count_id_update(
                                    old(self).flat(),
                                    pn,
                                    old(self).flat()[pc],
                                    id,
                                );
                                lemma_count_id_update(
                                    old(self).flat().update(pn, old(self).flat()[pc]),
                                    pc,
                                    None,
                                    id,
                                );
                            }
                        }
                        Ok(())
                    },
                    Err(e) => {
                        proof {
                            assert(false);
                        }
                        Err(e)
                    },
                }
            },
            Err(e) => Err(e),
        }
    }

    /// Removes the first occurrence of `product_id` in scan order.
    pub fn remove_item_by_id(&mut self, product_id: u32) -> (r: Result<(), ErrorKind>)
        requires
            old(self).wf(),
        ensures
            final(self).wf(),
            final(self).same_shape(*old(self)),
            final(self).capacity == old(self).capacity,
            final(self).row_count == old(self).row_count,
            final(self).column_count == old(self).column_count,
            !has_id_in(old(self).flat(), product_id) ==> (r matches Err(ErrorKind::NoProductFound))
                && *final(self) == *old(self),
            has_id_in(old(self).flat(), product_id) ==> r is Ok && final(self).flat() == old(self).flat().update(hits(old(self).flat(), product_id)[0], None) && final(self).available_space == old(self).available_space + 1,
    {
        match self.find_item(product_id) {
            Some(t) => {
                proof {
                    self.lemma_valid_pos(t.0 as int, t.1 as int, t.2 as int);
                    lemma_first_hit(
                        self.flat(),
                        product_id,
                        self.pos_of(t.0 as int, t.1 as int, t.2 as int),
                    );
                }
                match self.remove_item(t.0, t.1, t.2) {
                    Ok(()) => Ok(()),
                    Err(e) => {
                        proof {
                            assert(false);
                        }
                        Err(e)
                    },
                }
            },
            None => Err(ErrorKind::NoProductFound),
        }
    }

    /// Removes every occurrence of `product_id`; fails when there is none.
    #[verifier::loop_isolation(false)]
    pub fn remove_all_items(&mut self, product_id: u32) -> (r: Result<(), ErrorKind>)
        requires
            old(self).wf(),
        ensures
            final(self).wf(),
            final(self).same_shape(*old(self)),
            final(self).capacity == old(self).capacity,
            final(self).row_count == old(self).row_count,
            final(self).column_count == old(self).column_count,
            !has_id_in(old(self).flat(), product_id) ==> (r matches Err(ErrorKind::NoProductFound))
                && *final(self) == *old(self),
            has_id_in(old(self).flat(), product_id) ==> r is Ok && final(self).flat() == erase_id(
                old(self).flat(),
                product_id,
            ) && final(self).available_space == old(self).available_space + count_id(
                old(self).flat(),
                product_id,
            ),
    {
        let ghost h = hits(old(self).flat(), product_id);
        proof {
            lemma_hits(old(self).flat(), product_id);
            lemma_count_id_zero(old(self).flat(), product_id);
        }
        let items = self.find_all_item_occurences(product_id);
        let n = items.len();
        if n == 0 {
            return Err(ErrorKind::NoProductFound);
        }
        let mut k: usize = 0;
        while k < n
            invariant
                0 <= k <= n,
                self.wf(),
                self.same_shape(*old(self)),
                self.capacity == old(self).capacity,
                self.row_count == old(self).row_count,
                self.column_count == old(self).column_count,
                self.available_space == old(self).available_space + k,
                self.flat().len() == old(self).flat().len(),
                forall|j: int| 0 <= j < k ==> self.flat()[#[trigger] h[j]] is None,
                forall|i: int|
                    0 <= i < self.flat().len() && (forall|j: int| 0 <= j < k ==> h[j] != i)
                        ==> #[trigger] self.flat()[i] == old(self).flat()[i],
            decreases n - k,
        {
            let t = items[k];
            proof {
                old(self).lemma_flat_pos(h[k as int]);
                Warehouse::lemma_same_shape_pos(*self, *old(self));
                assert(self.flat()[h[k as int]] == old(self).flat()[h[k as int]]) by {
                    assert(forall|j: int| 0 <= j < k ==> h[j] != h[k as int]);
                }
            }
            match self.remove_item(t.0, t.1, t.2) {
                Ok(()) => {},
                Err(e) => {
                    proof {
                        assert(false);
                    }
                    return Err(e);
                },
            }
            proof {
                assert forall|i: int|
                    0 <= i < self.flat().len() && (forall|j: int| 0 <= j < k + 1 ==> h[j] != i)
                        implies #[trigger] self.flat()[i] == old(self).flat()[i] by {
                    assert(forall|j: int| 0 <= j < k ==> h[j] != i);
                }
            }
            k = k + 1;
        }
        proof {
            lemma_erase_id(old(self).flat(), product_id);
            assert forall|i: int| 0 <= i < self.flat().len() implies self.flat()[i] == erase_id(
                old(self).flat(),
                product_id,
            )[i] by {
                if holds_id(old(self).flat()[i], product_id) {
                    assert(h.contains(i));
                    let j = choose|j: int| 0 <= j < h.len() && h[j] == i;
                    assert(self.flat()[h[j]] is None);
                } else {
                    assert forall|j: int| 0 <= j < n implies h[j] != i by {
                        assert(holds_id(old(self).flat()[h[j]], product_id));
                    }
                }
            }
            assert(self.flat() =~= erase_id(old(self).flat(), product_id));
        }
        Ok(())
    }

    /// Fills the first `qty` empty zones at flat offsets `from` onward with
    /// fresh units of `product_id`, skipping occupied zones.
    #[verifier::loop_isolation(false)]
    fn place_items_from(&mut self, product_id: u32, qty: usize, expiry_date: Option<Date>, from: usize)
        requires
            old(self).wf(),
            from <= old(self).flat().len(),
            count_empty(old(self).flat().skip(from as int)) >= qty,
        ensures
            final(self).wf(),
            final(self).same_shape(*old(self)),
            final(self).capacity == old(self).capacity,
            final(self).row_count == old(self).row_count,
            final(self).column_count == old(self).column_count,
            final(self).available_space == old(self).available_space - qty,
            count_id(final(self).flat(), product_id) == count_id(old(self).flat(), product_id)
                + qty,
            forall|id: u32|
                id != product_id ==> count_id(final(self).flat(), id) == count_id(
                    old(self).flat(),
                    id,
                ),
            exists|end: int|
                #![trigger old(self).flat().subrange(from as int, end)]
                from <= end <= old(self).flat().len() && count_empty(
                    old(self).flat().subrange(from as int, end),
                ) == qty && (qty > 0 ==> old(self).flat()[end - 1] is None) && (qty == 0 ==> end
                    == from) && forall|i: int|
                    0 <= i < old(self).flat().len() ==> #[trigger] final(self).flat()[i] == (
                    if old(self).flat()[i] is None && from <= i < end {
                        Some((product_id, expiry_date))
                    } else {
                        old(self).flat()[i]
                    }),
    {
        let ghost oldflat = old(self).flat();
        let mut i: usize = from;
        let mut placed: usize = 0;
        proof {
            assert(oldflat.subrange(from as int, from as int) =~= Seq::<Occupancy>::empty());
            assert(count_empty(Seq::<Occupancy>::empty()) == 0) by {
                assert(Seq::<Occupancy>::empty().map_values(
                    |o: Occupancy| if o is None { 1int } else { 0int },
                ) =~= Seq::<int>::empty());
            }
        }
        while placed < qty
            invariant
                from <= i <= oldflat.len(),
                0 <= placed <= qty,
                self.wf(),
                self.same_shape(*old(self)),
                self.capacity == old(self).capacity,
                self.row_count == old(self).row_count,
                self.column_count == old(self).column_count,
                self.available_space == old(self).available_space - placed,
                count_id(self.flat(), product_id) == count_id(oldflat, product_id) + placed,
                forall|id: u32|
                    id != product_id ==> count_id(self.flat(), id) == count_id(oldflat, id),
                self.flat().len() == oldflat.len(),
                placed == count_empty(oldflat.subrange(from as int, i as int)),
                placed == qty ==> (qty > 0 ==> oldflat[i - 1] is None),
                qty == 0 ==> i == from,
                count_empty(oldflat.skip(i as int)) >= qty - placed,
                forall|k: int|
                    0 <= k < oldflat.len() ==> #[trigger] self.flat()[k] == (if oldflat[k] is None
                        && from <= k < i {
                        Some((product_id, expiry_date))
                    } else {
                        oldflat[k]
                    }),
            decreases oldflat.len() - i,
        {
            proof {
                if i as int == oldflat.len() {
                    assert(oldflat.skip(i as int) =~= Seq::<Occupancy>::empty());
                    assert(count_empty(Seq::<Occupancy>::empty()) == 0) by {
                        assert(Seq::<Occupancy>::empty().map_values(
                            |o: Occupancy| if o is None { 1int } else { 0int },
                        ) =~= Seq::<int>::empty());
                    }
                    assert(false);
                }
                lemma_count_empty_skip_succ(oldflat, i as int);
                lemma_count_empty_window_succ(oldflat, from as int, i as int);
            }
            let t = match self.flat_map_position_to_zone(i) {
                Some(t) => t,
                None => {
                    proof {
                        assert(false);
                    }
                    return ;
                },
            };
            proof {
                self.lemma_valid_pos(t.0 as int, t.1 as int, t.2 as int);
            }
            let occupied = match self.zone(t.0, t.1, t.2) {
                Some(zone) => zone.item.is_some(),
                None => {
                    proof {
                        assert(false);
                    }
                    return ;
                },
            };
            if !occupied {
                let item = ProductItem::new(product_id, t.0, t.1, t.2, expiry_date);
                let ghost pre = *self;
                match self.add_item(t.0, t.1, t.2, item) {
                    Ok(()) => {},
                    Err(e) => {
                        proof {
                            assert(false);
                        }
                        return ;
                    },
                }
                proof {
                    Warehouse::lemma_same_shape_pos(pre, *self);
                    assert forall|id: u32|
                        count_id(self.flat(), id) == count_id(pre.flat(), id) + (
                        if id == product_id {
                            1int
                        } else {
                            0int
                        }) by {
                        lemma_count_id_update(
                            pre.flat(),
                            i as int,
                            Some((product_id, expiry_date)),
                            id,
                        );
                    }
                }
                placed = placed + 1;
            }
            i = i + 1;
        }
        proof {
            let end = i as int;
            assert(*final(self) == *self);
            assert(from <= end <= old(self).flat().len());
            assert(count_empty(old(self).flat().subrange(from as int, end)) == qty);
            assert(qty > 0 ==> old(self).flat()[end - 1] is None);
            assert(forall|k: int|
                0 <= k < old(self).flat().len() ==> #[trigger] final(self).flat()[k] == (if old(self).flat()[k] is None && from <= k < end {
                    Some((product_id, expiry_date))
                } else {
                    old(self).flat()[k]
                }));
        }
    }

    /// Whether the zone at triple `t` holds a dated occupant.
    pub open spec fn dated_at(self, t: (usize, usize, usize)) -> bool {
        &&& self.valid_pos(t.0 as int, t.1 as int, t.2 as int)
        &&& match self.flat()[self.pos_of(t.0 as int, t.1 as int, t.2 as int)] {
            Some(p) => p.1 is Some,
            None => false,
        }
    }

    /// The expiration date of the occupant at `t`, under [`Self::dated_at`].
    pub open spec fn date_of(self, t: (usize, usize, usize)) -> Date {
        match self.flat()[self.pos_of(t.0 as int, t.1 as int, t.2 as int)] {
            Some(p) => match p.1 {
                Some(d) => d,
                None => Date { year: 0, month: 0, day: 0 },
            },
            None => Date { year: 0, month: 0, day: 0 },
        }
    }

    /// The dated occupants among `items`, with their dates, in input order.
    #[verifier::loop_isolation(false)]
    fn collect_dated(&self, items: &Vec<(usize, usize, usize)>) -> (rem: Vec<
        ((usize, usize, usize), Date),
    >)
        requires
            self.wf(),
            forall|a: int, b: int| 0 <= a < b < items@.len() ==> items@[a] != items@[b],
        ensures
            forall|a: int|
                0 <= a < rem@.len() ==> items@.contains((#[trigger] rem@[a]).0) && self.dated_at(
                    rem@[a].0,
                ) && self.date_of(rem@[a].0) == rem@[a].1,
            forall|a: int, b: int| 0 <= a < b < rem@.len() ==> rem@[a].0 != rem@[b].0,
            forall|k: int|
                0 <= k < items@.len() && self.dated_at(#[trigger] items@[k])
                    ==> Warehouse::position_collected(rem@, items@[k]),
    {
        let n = items.len();
        let mut rem: Vec<((usize, usize, usize), Date)> = Vec::new();
        let mut i: usize = 0;
        while i < n
            invariant
                0 <= i <= n,
                forall|a: int|
                    0 <= a < rem@.len() ==> items@.contains((#[trigger] rem@[a]).0)
                        && self.dated_at(rem@[a].0) && self.date_of(rem@[a].0) == rem@[a].1,
                forall|a: int, b: int| 0 <= a < b < rem@.len() ==> rem@[a].0 != rem@[b].0,
                forall|a: int|
                    0 <= a < rem@.len() ==> exists|k: int|
                        0 <= k < i && items@[k] == (#[trigger] rem@[a]).0,
                forall|k: int|
                    0 <= k < i && self.dated_at(#[trigger] items@[k])
                        ==> Warehouse::position_collected(rem@, items@[k]),
            decreases n - i,
        {
            let t = items[i];
            match self.get_item(t.0, t.1, t.2) {
                Some(it) => {
                    match it.expiry() {
                        Some(d) => {
                            proof {
                                assert(self.dated_at(t));
                                assert(self.date_of(t) == d);
                                assert forall|a: int, b: int|
                                    0 <= a < b < rem@.len() + 1 implies (rem@.push(
                                    (t, d),
                                ))[a].0 != (rem@.push((t, d)))[b].0 by {
                                    if b == rem@.len() {
                                        let k = choose|k: int|
                                            0 <= k < i && items@[k] == (#[trigger] rem@[a]).0;
                                        assert(items@[k] != items@[i as int]);
                                    }
                                }
                            }
                            let ghost rem0 = rem@;
                            rem.push((t, d));
                            proof {
                                assert(rem@[rem@.len() - 1].0 == items@[i as int]);
                                assert forall|a: int| 0 <= a < rem@.len() implies exists|k: int|
                                    0 <= k < i + 1 && items@[k] == (#[trigger] rem@[a]).0 by {
                                    if a < rem0.len() {
                                        let k = choose|k: int|
                                            0 <= k < i && items@[k] == (#[trigger] rem0[a]).0;
                                        assert(items@[k] == rem@[a].0);
                                    } else {
                                        assert(items@[i as int] == rem@[a].0);
                                    }
                                }
                                assert forall|k: int|
                                    0 <= k < i + 1 && self.dated_at(#[trigger] items@[k]) implies
                                    Warehouse::position_collected(rem@, items@[k]) by {
                                    if k < i {
                                        let a = choose|a: int|
                                            0 <= a < rem0.len() && (#[trigger] rem0[a]).0
                                                == items@[k];
                                        assert(rem@[a].0 == items@[k]);
                                    } else {
                                        assert(rem@[rem@.len() - 1].0 == items@[k]);
                                    }
                                }
                            }
                        },
                        None => {},
                    }
                },
                None => {},
            }
            proof {
                assert(items@.contains(items@[i as int]));
            }
            i = i + 1;
        }
        rem
    }

    /// Groups the dated occupants among `items` by expiration date, earliest
    /// group first; undated occupants are left out.
    #[verifier::loop_isolation(false)]
    #[verifier::rlimit(100)]
    #[verifier::spinoff_prover]
    pub fn group_items_by_expiration(&self, items: Vec<(usize, usize, usize)>) -> (groups: Vec<
        (Date, Vec<(usize, usize, usize)>),
    >)
        requires
            self.wf(),
            forall|a: int, b: int| 0 <= a < b < items@.len() ==> items@[a] != items@[b],
        ensures
            forall|j: int| 0 <= j < groups@.len() ==> (#[trigger] groups@[j]).1@.len() >= 1,
            forall|j1: int, j2: int|
                0 <= j1 < j2 < groups@.len() ==> (#[trigger] groups@[j1]).0.le(
                    (#[trigger] groups@[j2]).0,
                ) && groups@[j1].0 != groups@[j2].0,
            forall|j: int, q: int|
                0 <= j < groups@.len() && 0 <= q < (#[trigger] groups@[j]).1@.len() ==> items@.contains(
                    #[trigger] groups@[j].1@[q],
                ) && self.dated_at(groups@[j].1@[q]) && self.date_of(groups@[j].1@[q])
                    == groups@[j].0,
            forall|j: int, q1: int, q2: int|
                0 <= j < groups@.len() && 0 <= q1 < q2 < groups@[j].1@.len()
                    ==> #[trigger] groups@[j].1@[q1] != #[trigger] groups@[j].1@[q2],
            forall|i: int|
                0 <= i < items@.len() && self.dated_at(#[trigger] items@[i])
                    ==> Warehouse::grouped_position(groups@, items@[i]),
    {
        let mut rem = self.collect_dated(&items);
        let mut groups: Vec<(Date, Vec<(usize, usize, usize)>)> = Vec::new();
        while rem.len() > 0
            invariant
                forall|j: int| 0 <= j < groups@.len() ==> (#[trigger] groups@[j]).1@.len() >= 1,
                forall|j1: int, j2: int|
                    0 <= j1 < j2 < groups@.len() ==> (#[trigger] groups@[j1]).0.le(
                        (#[trigger] groups@[j2]).0,
                    ) && groups@[j1].0 != groups@[j2].0,
                forall|j: int, q: int|
                    0 <= j < groups@.len() && 0 <= q < (#[trigger] groups@[j]).1@.len()
                        ==> items@.contains(#[trigger] groups@[j].1@[q]) && self.dated_at(
                        groups@[j].1@[q],
                    ) && self.date_of(groups@[j].1@[q]) == groups@[j].0,
                forall|j: int, q1: int, q2: int|
                    0 <= j < groups@.len() && 0 <= q1 < q2 < groups@[j].1@.len()
                        ==> #[trigger] groups@[j].1@[q1] != #[trigger] groups@[j].1@[q2],
                forall|a: int|
                    0 <= a < rem@.len() ==> items@.contains((#[trigger] rem@[a]).0)
                        && self.dated_at(rem@[a].0) && self.date_of(rem@[a].0) == rem@[a].1,
                forall|a: int, b: int| 0 <= a < b < rem@.len() ==> rem@[a].0 != rem@[b].0,
                forall|a: int, j: int|
                    0 <= a < rem@.len() && 0 <= j < groups@.len() ==> (#[trigger] groups@[j]).0.le(
                        (#[trigger] rem@[a]).1,
                    ) && groups@[j].0 != rem@[a].1,
                forall|i2: int|
                    0 <= i2 < items@.len() && self.dated_at(#[trigger] items@[i2])
                        ==> Warehouse::position_collected(rem@, items@[i2])
                        || Warehouse::grouped_position(groups@, items@[i2]),
            decreases rem@.len(),
        {
            let ghost rem0 = rem@;
            let ghost groups0 = groups@;
            let (dmin, group, keep) = Warehouse::split_min_date(rem);
            let ghost gj = groups@.len() as int;
            groups.push((dmin, group));
            rem = keep;
            proof {
                assert forall|i2: int|
                    0 <= i2 < items@.len() && self.dated_at(#[trigger] items@[i2]) implies
                    Warehouse::position_collected(rem@, items@[i2]) || Warehouse::grouped_position(
                    groups@,
                    items@[i2],
                ) by {
                    if Warehouse::position_collected(rem0, items@[i2]) {
                        let a = choose|a: int|
                            0 <= a < rem0.len() && (#[trigger] rem0[a]).0 == items@[i2];
                        if rem0[a].1 == dmin {
                            assert(Warehouse::listed_in(group@, rem0[a].0));
                            let q = choose|q: int|
                                0 <= q < group@.len() && #[trigger] group@[q] == rem0[a].0;
                            assert(groups@[gj].1@[q] == items@[i2]);
                        } else {
                            assert(Warehouse::position_collected(keep@, rem0[a].0));
                            let c2 = choose|c2: int|
                                0 <= c2 < keep@.len() && (#[trigger] keep@[c2]).0 == rem0[a].0;
                            assert(rem@[c2].0 == items@[i2]);
                        }
                    } else {
                        let (j, q) = choose|j: int, q: int|
                            0 <= j < groups0.len() && 0 <= q < groups0[j].1@.len()
                                && #[trigger] groups0[j].1@[q] == items@[i2];
                        assert(groups@[j].1@[q] == items@[i2]);
                    }
                }
                assert forall|j: int, q: int|
                    0 <= j < groups@.len() && 0 <= q < (#[trigger] groups@[j]).1@.len() implies
                    items@.contains(#[trigger] groups@[j].1@[q]) && self.dated_at(groups@[j].1@[q])
                    && self.date_of(groups@[j].1@[q]) == groups@[j].0 by {
                    if j == gj {
                        let c = choose|c: int|
                            0 <= c < rem0.len() && (#[trigger] rem0[c]).0 == group@[q]
                                && rem0[c].1 == dmin;
                    }
                }
                assert forall|j: int, q1: int, q2: int|
                    0 <= j < groups@.len() && 0 <= q1 < q2 < groups@[j].1@.len() implies
                    #[trigger] groups@[j].1@[q1] != #[trigger] groups@[j].1@[q2] by {
                }
                assert forall|a: int|
                    0 <= a < rem@.len() implies items@.contains((#[trigger] rem@[a]).0)
                    && self.dated_at(rem@[a].0) && self.date_of(rem@[a].0) == rem@[a].1 by {
                    let c2 = choose|c2: int|
                        0 <= c2 < rem0.len() && (#[trigger] rem0[c2]) == rem@[a] && rem0[c2].1
                            != dmin;
                }

                assert forall|a: int, j: int|
                    0 <= a < rem@.len() && 0 <= j < groups@.len() implies (#[trigger] groups@[j]).0.le(
                    (#[trigger] rem@[a]).1,
                ) && groups@[j].0 != rem@[a].1 by {
                    let c2 = choose|c2: int|
                        0 <= c2 < rem0.len() && (#[trigger] rem0[c2]) == rem@[a] && rem0[c2].1
                            != dmin;
                    if j == gj {
                        assert(dmin.le(rem0[c2].1));
                    }
                }
                assert forall|j1: int, j2: int|
                    0 <= j1 < j2 < groups@.len() implies (#[trigger] groups@[j1]).0.le(
                    (#[trigger] groups@[j2]).0,
                ) && groups@[j1].0 != groups@[j2].0 by {
                    if j2 == gj {
                        let c = choose|c: int|
                            0 <= c < rem0.len() && (#[trigger] rem0[c]).1 == dmin;
                        assert(groups@[j1].0.le(rem0[c].1) && groups@[j1].0 != rem0[c].1);
                    }
                }
            }
        }
        groups
    }

    /// Splits off every entry carrying the minimal date: the minimal date,
    /// the positions carrying it in order, and the remaining entries in
    /// order.
    #[verifier::loop_isolation(false)]
    #[verifier::rlimit(100)]
    #[verifier::spinoff_prover]
    fn split_min_date(rem: Vec<((usize, usize, usize), Date)>) -> (r: (
        Date,
        Vec<(usize, usize, usize)>,
        Vec<((usize, usize, usize), Date)>,
    ))
        requires
            rem@.len() >= 1,
            forall|a: int, b: int| 0 <= a < b < rem@.len() ==> rem@[a].0 != rem@[b].0,
        ensures
            ({
                let (dmin, group, keep) = r;
                &&& group@.len() >= 1
                &&& group@.len() + keep@.len() == rem@.len()
                &&& forall|a: int| 0 <= a < rem@.len() ==> dmin.le((#[trigger] rem@[a]).1)
                &&& forall|q: int|
                    0 <= q < group@.len() ==> Warehouse::drawn_minimal(
                        rem@,
                        rem@.len() as int,
                        #[trigger] group@[q],
                        dmin,
                    )
                &&& forall|c: int|
                    0 <= c < keep@.len() ==> Warehouse::drawn_other(
                        rem@,
                        rem@.len() as int,
                        #[trigger] keep@[c],
                        dmin,
                    )
                &&& forall|q1: int, q2: int|
                    0 <= q1 < q2 < group@.len() ==> (#[trigger] group@[q1]) != (
                    #[trigger] group@[q2])
                &&& forall|c1: int, c2: int|
                    0 <= c1 < c2 < keep@.len() ==> (#[trigger] keep@[c1]).0 != (
                    #[trigger] keep@[c2]).0
                &&& exists|c: int| 0 <= c < rem@.len() && (#[trigger] rem@[c]).1 == dmin
                &&& forall|c: int|
                    0 <= c < rem@.len() ==> (if (#[trigger] rem@[c]).1 == dmin {
                        Warehouse::listed_in(group@, rem@[c].0)
                    } else {
                        Warehouse::position_collected(keep@, rem@[c].0)
                    })
            }),
    {
        let m = rem.len();
        let mut dmin = rem[0].1;
        let mut a: usize = 1;
        proof {
            Date::lemma_le_total(dmin, dmin);
        }
        while a < m
            invariant
                1 <= a <= m,
                exists|b: int| 0 <= b < a && (#[trigger] rem@[b]).1 == dmin,
                forall|b: int| 0 <= b < a ==> dmin.le((#[trigger] rem@[b]).1),
            decreases m - a,
        {
            if rem[a].1.is_le(&dmin) {
                let ghost dprev = dmin;
                dmin = rem[a].1;
                proof {
                    Date::lemma_le_total(dmin, dmin);
                    assert forall|b: int| 0 <= b < a + 1 implies dmin.le(
                        (#[trigger] rem@[b]).1,
                    ) by {
                        Date::lemma_le_trans(dmin, dprev, rem@[b].1);
                    }
                }
            } else {
                proof {
                    Date::lemma_le_total(rem@[a as int].1, dmin);
                }
            }
            a = a + 1;
        }
        let mut group: Vec<(usize, usize, usize)> = Vec::new();
        let mut keep: Vec<((usize, usize, usize), Date)> = Vec::new();
        let mut b: usize = 0;
        let ghost mut witness: int = 0;
        while b < m
            invariant
                0 <= b <= m,
                group@.len() + keep@.len() == b,
                forall|q: int|
                    0 <= q < group@.len() ==> Warehouse::drawn_minimal(
                        rem@,
                        b as int,
                        #[trigger] group@[q],
                        dmin,
                    ),
                forall|c: int|
                    0 <= c < keep@.len() ==> Warehouse::drawn_other(
                        rem@,
                        b as int,
                        #[trigger] keep@[c],
                        dmin,
                    ),
                forall|q1: int, q2: int|
                    0 <= q1 < q2 < group@.len() ==> (#[trigger] group@[q1]) != (
                    #[trigger] group@[q2]),
                forall|c1: int, c2: int|
                    0 <= c1 < c2 < keep@.len() ==> (#[trigger] keep@[c1]).0 != (
                    #[trigger] keep@[c2]).0,
                exists|b0: int| 0 <= b0 < m && (#[trigger] rem@[b0]).1 == dmin,
                forall|b0: int| 0 <= b0 < b && (#[trigger] rem@[b0]).1 == dmin ==> group@.len()
                    >= 1,
                forall|c: int|
                    0 <= c < b ==> (if (#[trigger] rem@[c]).1 == dmin {
                        Warehouse::listed_in(group@, rem@[c].0)
                    } else {
                        Warehouse::position_collected(keep@, rem@[c].0)
                    }),
            decreases m - b,
        {
            let entry = rem[b];
            if entry.1.is_le(&dmin) {
                proof {
                    Date::lemma_le_total(entry.1, dmin);
                    assert(entry.1 == dmin);
                    assert(rem@[b as int].0 == entry.0 && rem@[b as int].1 == dmin);
                    assert forall|q1: int, q2: int|
                        0 <= q1 < q2 < group@.len() + 1 implies (group@.push(entry.0))[q1] != (
                        group@.push(entry.0))[q2] by {
                        if q2 == group@.len() {
                            let c = choose|c: int|
                                0 <= c < b && (#[trigger] rem@[c]).0 == group@[q1] && rem@[c].1
                                    == dmin;
                            assert(rem@[c].0 != rem@[b as int].0);
                        }
                    }
                }
                let ghost group0 = group@;
                group.push(entry.0);
                proof {
                    assert(group@[group@.len() - 1] == entry.0);
                    assert forall|c: int| 0 <= c < keep@.len() implies Warehouse::drawn_other(
                        rem@,
                        b + 1,
                        #[trigger] keep@[c],
                        dmin,
                    ) by {
                        let c2 = choose|c2: int|
                            0 <= c2 < b && (#[trigger] rem@[c2]) == keep@[c] && rem@[c2].1
                                != dmin;
                        assert(0 <= c2 < b + 1 && rem@[c2] == keep@[c] && rem@[c2].1 != dmin);
                    }
                    assert forall|q: int| 0 <= q < group@.len() implies Warehouse::drawn_minimal(
                        rem@,
                        b + 1,
                        #[trigger] group@[q],
                        dmin,
                    ) by {
                        if q < group0.len() {
                            let c = choose|c: int|
                                0 <= c < b && (#[trigger] rem@[c]).0 == group0[q] && rem@[c].1
                                    == dmin;
                            assert(0 <= c < b + 1 && rem@[c].0 == group@[q] && rem@[c].1 == dmin);
                        } else {
                            assert(rem@[b as int].0 == group@[q] && rem@[b as int].1 == dmin);
                        }
                    }
                    assert forall|c: int| 0 <= c < b + 1 implies (if (#[trigger] rem@[c]).1
                        == dmin {
                        Warehouse::listed_in(group@, rem@[c].0)
                    } else {
                        Warehouse::position_collected(keep@, rem@[c].0)
                    }) by {
                        if c < b {
                            if rem@[c].1 == dmin {
                                let q = choose|q: int|
                                    0 <= q < group0.len() && #[trigger] group0[q] == rem@[c].0;
                                assert(group@[q] == rem@[c].0);
                            }
                        } else {
                            assert(group@[group@.len() - 1] == rem@[c].0);
                        }
                    }
                }
            } else {
                proof {
                    assert forall|c1: int, c2: int|
                        0 <= c1 < c2 < keep@.len() + 1 implies (keep@.push(entry))[c1].0 != (
                        keep@.push(entry))[c2].0 by {
                        if c2 == keep@.len() {
                            let cc = choose|cc: int|
                                0 <= cc < b && (#[trigger] rem@[cc]) == keep@[c1] && rem@[cc].1
                                    != dmin;
                            assert(rem@[cc].0 != rem@[b as int].0);
                        }
                    }
                }
                let ghost keep0 = keep@;
                keep.push(entry);
                proof {
                    assert(keep@[keep@.len() - 1] == entry);
                    assert(rem@[b as int] == entry && rem@[b as int].1 != dmin);
                    assert forall|c: int| 0 <= c < keep@.len() implies Warehouse::drawn_other(
                        rem@,
                        b + 1,
                        #[trigger] keep@[c],
                        dmin,
                    ) by {
                        if c < keep0.len() {
                            let c2 = choose|c2: int|
                                0 <= c2 < b && (#[trigger] rem@[c2]) == keep0[c] && rem@[c2].1
                                    != dmin;
                            assert(keep@[c] == keep0[c]);
                            assert(0 <= c2 < b + 1 && rem@[c2] == keep@[c] && rem@[c2].1 != dmin);
                        } else {
                            assert(rem@[b as int] == keep@[c]);
                        }
                    }
                    assert forall|q: int| 0 <= q < group@.len() implies Warehouse::drawn_minimal(
                        rem@,
                        b + 1,
                        #[trigger] group@[q],
                        dmin,
                    ) by {
                        let c2 = choose|c2: int|
                            0 <= c2 < b && (#[trigger] rem@[c2]).0 == group@[q] && rem@[c2].1
                                == dmin;
                        assert(0 <= c2 < b + 1 && rem@[c2].0 == group@[q] && rem@[c2].1 == dmin);
                    }
                    assert forall|c: int| 0 <= c < b + 1 implies (if (#[trigger] rem@[c]).1
                        == dmin {
                        Warehouse::listed_in(group@, rem@[c].0)
                    } else {
                        Warehouse::position_collected(keep@, rem@[c].0)
                    }) by {
                        if c < b {
                            if rem@[c].1 != dmin {
                                let a = choose|a: int|
                                    0 <= a < keep0.len() && (#[trigger] keep0[a]).0 == rem@[c].0;
                                assert(keep@[a].0 == rem@[c].0);
                            }
                        } else {
                            assert(keep@[keep@.len() - 1].0 == rem@[c].0);
                        }
                    }
                }
            }
            b = b + 1;
        }
        proof {
            let b0 = choose|b0: int| 0 <= b0 < m && (#[trigger] rem@[b0]).1 == dmin;
        }
        (dmin, group, keep)
    }

    /// Whether `t` is one of the collected dated entries' positions.
    pub open spec fn position_collected(
        rem: Seq<((usize, usize, usize), Date)>,
        t: (usize, usize, usize),
    ) -> bool {
        exists|a: int| 0 <= a < rem.len() && (#[trigger] rem[a]).0 == t
    }

    /// Whether `t` stands in the group's position list.
    pub open spec fn listed_in(group: Seq<(usize, usize, usize)>, t: (usize, usize, usize)) -> bool {
        exists|q: int| 0 <= q < group.len() && #[trigger] group[q] == t
    }

    /// Whether `e` is one of the first `bound` entries and carries the
    /// minimal date.
    pub open spec fn drawn_minimal(
        rem: Seq<((usize, usize, usize), Date)>,
        bound: int,
        t: (usize, usize, usize),
        dmin: Date,
    ) -> bool {
        exists|c: int| 0 <= c < bound && (#[trigger] rem[c]).0 == t && rem[c].1 == dmin
    }

    /// Whether `e` is one of the first `bound` entries and carries another
    /// date than the minimal one.
    pub open spec fn drawn_other(
        rem: Seq<((usize, usize, usize), Date)>,
        bound: int,
        e: ((usize, usize, usize), Date),
        dmin: Date,
    ) -> bool {
        exists|c: int| 0 <= c < bound && #[trigger] rem[c] == e && rem[c].1 != dmin
    }

    /// Whether `t` stands in some group.
    pub open spec fn grouped_position(
        groups: Seq<(Date, Vec<(usize, usize, usize)>)>,
        t: (usize, usize, usize),
    ) -> bool {
        exists|j: int, q: int|
            0 <= j < groups.len() && 0 <= q < groups[j].1@.len() && #[trigger] groups[j].1@[q] == t
    }

    /// The positions of all groups, flattened in group order.
    pub open spec fn group_positions(groups: Seq<(Date, Vec<(usize, usize, usize)>)>) -> Seq<
        (usize, usize, usize),
    > {
        cat(groups.map_values(|g: (Date, Vec<(usize, usize, usize)>)| g.1@))
    }

    /// The flat offset of a valid 1-based triple, computed by summing the
    /// capacities before it.
    #[verifier::loop_isolation(false)]
    pub fn position_to_flat_index(&self, row_number: usize, column_number: usize, zone_number: usize) -> (r:
        usize)
        requires
            self.wf(),
            self.valid_pos(row_number as int, column_number as int, zone_number as int),
        ensures
            r == self.pos_of(row_number as int, column_number as int, zone_number as int),
            r < self.flat().len(),
    {
        proof {
            self.lemma_valid_pos(row_number as int, column_number as int, zone_number as int);
        }
        let mut cum: usize = 0;
        let mut i: usize = 0;
        while i < row_number - 1
            invariant
                0 <= i <= row_number - 1,
                cum == offset_of(self.row_occs(), i as int),
                cum <= self.flat().len(),
            decreases row_number - 1 - i,
        {
            proof {
                lemma_offset_bounds(self.row_occs(), i as int);
                lemma_offset_bounds(self.row_occs(), i + 1);
            }
            cum = cum + self.rows[i].capacity;
            i = i + 1;
        }
        let row = &self.rows[row_number - 1];
        let ghost co = self.rows@[row_number - 1].col_occs();
        proof {
            lemma_offset_bounds(self.row_occs(), row_number - 1);
            lemma_offset_bounds(self.row_occs(), row_number as int);
            assert(offset_of(self.row_occs(), row_number as int) == offset_of(
                self.row_occs(),
                row_number - 1,
            ) + self.row_occs()[row_number - 1].len());
        }
        let mut c: usize = 0;
        while c < column_number - 1
            invariant
                0 <= c <= column_number - 1,
                cum == offset_of(self.row_occs(), row_number - 1) + offset_of(co, c as int),
                cum + (self.rows@[row_number - 1].occs().len() - offset_of(co, c as int))
                    <= self.flat().len(),
            decreases column_number - 1 - c,
        {
            proof {
                lemma_offset_bounds(co, c as int);
                lemma_offset_bounds(co, c + 1);
            }
            cum = cum + row.columns[c].capacity;
            c = c + 1;
        }
        proof {
            lemma_offset_bounds(co, column_number - 1);
        }
        cum + (zone_number - 1)
    }

    /// Moves the occupants at `list`'s positions, in order, into the empty
    /// run starting at flat offset `start`.
    #[verifier::loop_isolation(false)]
    #[verifier::rlimit(60)]
    fn move_list_to(&mut self, list: &Vec<(usize, usize, usize)>, start: usize) -> (r: Result<
        (),
        ErrorKind,
    >)
        requires
            old(self).wf(),
            list@.len() >= 1,
            run_at(old(self).flat(), start as int, list@.len() as int),
            forall|a: int|
                0 <= a < list@.len() ==> old(self).valid_pos(
                    (#[trigger] list@[a]).0 as int,
                    list@[a].1 as int,
                    list@[a].2 as int,
                ) && old(self).flat()[old(self).pos_of(
                    list@[a].0 as int,
                    list@[a].1 as int,
                    list@[a].2 as int,
                )] is Some,
            forall|a: int, b: int|
                0 <= a < b < list@.len() ==> old(self).pos_of(
                    (#[trigger] list@[a]).0 as int,
                    list@[a].1 as int,
                    list@[a].2 as int,
                ) != old(self).pos_of(
                    (#[trigger] list@[b]).0 as int,
                    list@[b].1 as int,
                    list@[b].2 as int,
                ),
        ensures
            r is Ok,
            final(self).wf(),
            final(self).same_shape(*old(self)),
            final(self).capacity == old(self).capacity,
            final(self).row_count == old(self).row_count,
            final(self).column_count == old(self).column_count,
            final(self).available_space == old(self).available_space,
            final(self).flat().len() == old(self).flat().len(),
            forall|id: u32| count_id(final(self).flat(), id) == count_id(old(self).flat(), id),
            forall|q: int|
                0 <= q < list@.len() ==> final(self).flat()[start + q] == old(self).flat()[old(self).pos_of((#[trigger] list@[q]).0 as int, list@[q].1 as int, list@[q].2 as int)],
            forall|a: int|
                0 <= a < list@.len() ==> final(self).flat()[old(self).pos_of(
                    (#[trigger] list@[a]).0 as int,
                    list@[a].1 as int,
                    list@[a].2 as int,
                )] is None,
            forall|i: int|
                0 <= i < old(self).flat().len() && !(start <= i < start + list@.len()) && (forall|
                    a: int,
                |
                    0 <= a < list@.len() ==> old(self).pos_of(
                        (#[trigger] list@[a]).0 as int,
                        list@[a].1 as int,
                        list@[a].2 as int,
                    ) != i) ==> #[trigger] final(self).flat()[i] == old(self).flat()[i],
    {
        let total = list.len();
        proof {
            assert forall|a: int| 0 <= a < total implies !(start <= old(self).pos_of(
                (#[trigger] list@[a]).0 as int,
                list@[a].1 as int,
                list@[a].2 as int,
            ) < start + total) by {
                let p = old(self).pos_of(list@[a].0 as int, list@[a].1 as int, list@[a].2 as int);
                if start <= p < start + total {
                    assert(old(self).flat()[p] is None);
                }
            }
        }
        let mut q: usize = 0;
        while q < total
            invariant
                0 <= q <= total,
                self.wf(),
                self.same_shape(*old(self)),
                self.capacity == old(self).capacity,
                self.row_count == old(self).row_count,
                self.column_count == old(self).column_count,
                self.available_space == old(self).available_space,
                self.flat().len() == old(self).flat().len(),
                forall|id: u32| count_id(self.flat(), id) == count_id(old(self).flat(), id),
                forall|u: int|
                    0 <= u < q ==> #[trigger] self.flat()[start + u] == old(self).flat()[old(self).pos_of(list@[u].0 as int, list@[u].1 as int, list@[u].2 as int)],
                forall|u: int| q <= u < total ==> #[trigger] self.flat()[start + u] is None,
                forall|a: int|
                    0 <= a < q ==> self.flat()[old(self).pos_of(
                        (#[trigger] list@[a]).0 as int,
                        list@[a].1 as int,
                        list@[a].2 as int,
                    )] is None,
                forall|a: int|
                    q <= a < total ==> self.flat()[old(self).pos_of(
                        (#[trigger] list@[a]).0 as int,
                        list@[a].1 as int,
                        list@[a].2 as int,
                    )] == old(self).flat()[old(self).pos_of(
                        list@[a].0 as int,
                        list@[a].1 as int,
                        list@[a].2 as int,
                    )],
                forall|i: int|
                    0 <= i < old(self).flat().len() && !(start <= i < start + total) && (forall|
                        a: int,
                    |
                        0 <= a < total ==> old(self).pos_of(
                            (#[trigger] list@[a]).0 as int,
                            list@[a].1 as int,
                            list@[a].2 as int,
                        ) != i) ==> #[trigger] self.flat()[i] == old(self).flat()[i],
            decreases total - q,
        {
            let src = list[q];
            let ghost psrc = old(self).pos_of(src.0 as int, src.1 as int, src.2 as int);
            proof {
                Warehouse::lemma_same_shape_pos(*self, *old(self));
                old(self).lemma_valid_pos(src.0 as int, src.1 as int, src.2 as int);
                lemma_offset_bounds(old(self).row_occs(), old(self).rows@.len() as int);
            }
            let dst = match self.flat_map_position_to_zone(start + q) {
                Some(t) => t,
                None => {
                    proof {
                        assert(false);
                    }
                    return Err(ErrorKind::NoContiguousSpace);
                },
            };
            let ghost pre = *self;
            match self.move_item(src, dst) {
                Ok(()) => {},
                Err(e) => {
                    proof {
                        assert(false);
                    }
                    return Err(e);
                },
            }
            proof {
                Warehouse::lemma_same_shape_pos(pre, *old(self));
                Warehouse::lemma_same_shape_pos(*self, *old(self));
                assert(pre.valid_pos(src.0 as int, src.1 as int, src.2 as int));
                assert(pre.pos_of(src.0 as int, src.1 as int, src.2 as int) == psrc);
                assert(self.flat() == pre.flat().update(start + q, pre.flat()[psrc]).update(
                    psrc,
                    None,
                ));
                assert forall|a: int| 0 <= a < q + 1 implies self.flat()[old(self).pos_of(
                    (#[trigger] list@[a]).0 as int,
                    list@[a].1 as int,
                    list@[a].2 as int,
                )] is None by {
                    old(self).lemma_valid_pos(
                        list@[a].0 as int,
                        list@[a].1 as int,
                        list@[a].2 as int,
                    );
                    let pa = old(self).pos_of(
                        list@[a].0 as int,
                        list@[a].1 as int,
                        list@[a].2 as int,
                    );
                    assert(!(start <= pa < start + total));
                    if a < q {
                        assert(pa != psrc);
                        assert(pre.flat()[pa] is None);
                    }
                }
                assert forall|u: int| q + 1 <= u < total implies #[trigger] self.flat()[start
                    + u] is None by {
                    assert(pre.flat()[start + u] is None);
                }
                assert forall|a: int|
                    q + 1 <= a < total implies self.flat()[old(self).pos_of(
                    (#[trigger] list@[a]).0 as int,
                    list@[a].1 as int,
                    list@[a].2 as int,
                )] == old(self).flat()[old(self).pos_of(
                    list@[a].0 as int,
                    list@[a].1 as int,
                    list@[a].2 as int,
                )] by {
                    old(self).lemma_valid_pos(
                        list@[a].0 as int,
                        list@[a].1 as int,
                        list@[a].2 as int,
                    );
                    let pa = old(self).pos_of(
                        list@[a].0 as int,
                        list@[a].1 as int,
                        list@[a].2 as int,
                    );
                    assert(pa != psrc);
                    assert(!(start <= pa < start + total));
                }
            }
            q = q + 1;
        }
        Ok(())
    }

    /// Finds one contiguous region sized to the given groups' total count
    /// and moves each group, in ascending date order, into its front.
    #[verifier::loop_isolation(false)]
    #[verifier::rlimit(60)]
    pub fn move_items_to_contiguous_space(&mut self, grouped_items: Vec<
        (Date, Vec<(usize, usize, usize)>),
    >) -> (r: Result<(), ErrorKind>)
        requires
            old(self).wf(),
            forall|j: int, q: int|
                0 <= j < grouped_items@.len() && 0 <= q < (#[trigger] grouped_items@[j]).1@.len()
                    ==> old(self).dated_at(#[trigger] grouped_items@[j].1@[q]) && old(self).date_of(
                    grouped_items@[j].1@[q],
                ) == grouped_items@[j].0,
            forall|j: int, q1: int, q2: int|
                0 <= j < grouped_items@.len() && 0 <= q1 < q2 < grouped_items@[j].1@.len()
                    ==> #[trigger] grouped_items@[j].1@[q1] != #[trigger] grouped_items@[j].1@[q2],
            forall|j1: int, j2: int|
                0 <= j1 < j2 < grouped_items@.len() ==> (#[trigger] grouped_items@[j1]).0 != (
                #[trigger] grouped_items@[j2]).0,
        ensures
            final(self).wf(),
            final(self).same_shape(*old(self)),
            final(self).capacity == old(self).capacity,
            final(self).row_count == old(self).row_count,
            final(self).column_count == old(self).column_count,
            r is Err ==> *final(self) == *old(self),
            Warehouse::group_positions(grouped_items@).len() > old(self).available_space <==> (
            r matches Err(ErrorKind::InsufficientSpace)),
            Warehouse::group_positions(grouped_items@).len() <= old(self).available_space
                && has_empty_run(
                old(self).flat(),
                Warehouse::group_positions(grouped_items@).len() as int,
            ) ==> r is Ok,
            Warehouse::group_positions(grouped_items@).len() <= old(self).available_space
                && !has_empty_run(
                old(self).flat(),
                Warehouse::group_positions(grouped_items@).len() as int,
            ) ==> (r matches Err(ErrorKind::NoContiguousSpace)),
            r is Ok ==> final(self).available_space == old(self).available_space && forall|id: u32|
                count_id(final(self).flat(), id) == count_id(old(self).flat(), id),
            r is Ok && Warehouse::group_positions(grouped_items@).len() == 0 ==> *final(self)
                == *old(self),
            r is Ok && Warehouse::group_positions(grouped_items@).len() >= 1 ==> exists|start: int|
                run_at(old(self).flat(), start, Warehouse::group_positions(grouped_items@).len() as int)
                    && (forall|q: int|
                    0 <= q < Warehouse::group_positions(grouped_items@).len()
                        ==> #[trigger] final(self).flat()[start + q] == old(self).flat()[old(self).pos_of(
                        (Warehouse::group_positions(grouped_items@)[q]).0 as int,
                        (Warehouse::group_positions(grouped_items@)[q]).1 as int,
                        (Warehouse::group_positions(grouped_items@)[q]).2 as int,
                    )]) && (forall|a: int|
                    0 <= a < Warehouse::group_positions(grouped_items@).len()
                        ==> final(self).flat()[old(self).pos_of(
                        (#[trigger] Warehouse::group_positions(grouped_items@)[a]).0 as int,
                        (Warehouse::group_positions(grouped_items@)[a]).1 as int,
                        (Warehouse::group_positions(grouped_items@)[a]).2 as int,
                    )] is None) && (forall|i: int|
                    0 <= i < old(self).flat().len() && !(start <= i < start
                        + Warehouse::group_positions(grouped_items@).len()) && (forall|a: int|
                        0 <= a < Warehouse::group_positions(grouped_items@).len() ==> old(
                            self,
                        ).pos_of(
                            (#[trigger] Warehouse::group_positions(grouped_items@)[a]).0 as int,
                            (Warehouse::group_positions(grouped_items@)[a]).1 as int,
                            (Warehouse::group_positions(grouped_items@)[a]).2 as int,
                        ) != i) ==> #[trigger] final(self).flat()[i] == old(self).flat()[i]),
    {
        let ghost gseq = grouped_items@.map_values(|g: (Date, Vec<(usize, usize, usize)>)| g.1@);
        let gn = grouped_items.len();
        let list = Warehouse::flatten_groups(&grouped_items);
        let required_space = list.len();
        let found = self.find_contiguous_space(required_space);
        let t = match found {
            Ok(t) => t,
            Err(e) => {
                return Err(e);
            },
        };
        if required_space == 0 {
            return Ok(());
        }
        proof {
            assert forall|a: int| 0 <= a < list@.len() implies old(self).valid_pos(
                (#[trigger] list@[a]).0 as int,
                list@[a].1 as int,
                list@[a].2 as int,
            ) && old(self).flat()[old(self).pos_of(
                list@[a].0 as int,
                list@[a].1 as int,
                list@[a].2 as int,
            )] is Some by {
                crate::seqtools::lemma_block_of(gseq, a);
                let ja = block_of(gseq, a);
                assert(list@[a] == grouped_items@[ja].1@[a - offset_of(gseq, ja)]);
                assert(old(self).dated_at(list@[a]));
            }
            assert forall|a: int, b: int| 0 <= a < b < list@.len() implies old(self).pos_of(
                (#[trigger] list@[a]).0 as int,
                list@[a].1 as int,
                list@[a].2 as int,
            ) != old(self).pos_of(
                (#[trigger] list@[b]).0 as int,
                list@[b].1 as int,
                list@[b].2 as int,
            ) by {
                crate::seqtools::lemma_block_of(gseq, a);
                crate::seqtools::lemma_block_of(gseq, b);
                let ja = block_of(gseq, a);
                let jb = block_of(gseq, b);
                let qa = a - offset_of(gseq, ja);
                let qb = b - offset_of(gseq, jb);
                assert(list@[a] == grouped_items@[ja].1@[qa]);
                assert(list@[b] == grouped_items@[jb].1@[qb]);
                assert(old(self).dated_at(list@[a]));
                assert(old(self).dated_at(list@[b]));
                if list@[a] == list@[b] {
                    if ja < jb {
                        assert(grouped_items@[ja].0 != grouped_items@[jb].0);
                        assert(false);
                    } else if jb < ja {
                        assert(grouped_items@[jb].0 != grouped_items@[ja].0);
                        assert(false);
                    } else {
                        if qa < qb {
                            assert(grouped_items@[ja].1@[qa] != grouped_items@[ja].1@[qb]);
                        } else if qb < qa {
                            assert(grouped_items@[ja].1@[qb] != grouped_items@[ja].1@[qa]);
                        }
                        crate::seqtools::lemma_cat_index(gseq, ja, qa);
                        crate::seqtools::lemma_cat_index(gseq, jb, qb);
                        assert(false);
                    }
                } else {
                    old(self).lemma_valid_pos(
                        list@[a].0 as int,
                        list@[a].1 as int,
                        list@[a].2 as int,
                    );
                    old(self).lemma_valid_pos(
                        list@[b].0 as int,
                        list@[b].1 as int,
                        list@[b].2 as int,
                    );
                }
            }
        }
        let start = self.position_to_flat_index(t.0, t.1, t.2);
        match self.move_list_to(&list, start) {
            Ok(()) => Ok(()),
            Err(e) => {
                proof {
                    assert(false);
                }
                Err(e)
            },
        }
    }

    /// What a defragmentation leaves behind: the dated units of the product
    /// occupy exactly the flat region `[start, start + k)`, their dates
    /// non-decreasing along it.
    pub open spec fn regrouped(post: Seq<Occupancy>, id: u32, start: int, k: int) -> bool {
        &&& 0 <= start
        &&& 0 <= k
        &&& start + k <= post.len()
        &&& forall|i: int|
            0 <= i < post.len() ==> (dated_of(#[trigger] post[i], id) <==> start <= i < start + k)
        &&& forall|q1: int, q2: int|
            start <= q1 <= q2 < start + k ==> occ_date(#[trigger] post[q1]).le(
                occ_date(#[trigger] post[q2]),
            )
    }

    /// What a scattered placement leaves behind: the product's dated units
    /// stand at `[start, start + m)` in non-decreasing date order, the `qty`
    /// new units follow at `[start + m, start + m + qty)`, every dated unit
    /// outside the region was moved out of its old zone, and every other
    /// zone is untouched. Undated units of the product stay where they were.
    pub open spec fn regrouped_with_new(
        pre: Seq<Occupancy>,
        post: Seq<Occupancy>,
        id: u32,
        expiry: Option<Date>,
        qty: int,
        start: int,
        m: int,
    ) -> bool {
        &&& 0 <= start
        &&& 0 <= m
        &&& start + m + qty <= post.len()
        &&& pre.len() == post.len()
        &&& forall|q: int| 0 <= q < m ==> dated_of(#[trigger] post[start + q], id)
        &&& forall|q1: int, q2: int|
            0 <= q1 <= q2 < m ==> occ_date(#[trigger] post[start + q1]).le(
                occ_date(#[trigger] post[start + q2]),
            )
        &&& forall|q: int| m <= q < m + qty ==> #[trigger] post[start + q] == Some((id, expiry))
        &&& forall|i: int|
            0 <= i < pre.len() && !(start <= i < start + m + qty) ==> #[trigger] post[i] == pre[i]
                || (dated_of(pre[i], id) && post[i] is None)
        &&& forall|i: int|
            0 <= i < pre.len() && dated_of(#[trigger] pre[i], id) && !(start <= i < start + m
                + qty) ==> post[i] is None
    }

    /// The flattened positions of groups produced over `w` for `id` are
    /// valid, dated units of `id`, pairwise distinct in flat position, and
    /// no more numerous than the dated count.
    proof fn lemma_groups_flat_facts(
        w: Warehouse,
        groups: Seq<(Date, Vec<(usize, usize, usize)>)>,
        id: u32,
    )
        requires
            w.wf(),
            forall|j: int, q: int|
                0 <= j < groups.len() && 0 <= q < (#[trigger] groups[j]).1@.len() ==> w.dated_at(
                    #[trigger] groups[j].1@[q],
                ) && w.date_of(groups[j].1@[q]) == groups[j].0 && holds_id(
                    w.flat()[w.pos_of(
                        groups[j].1@[q].0 as int,
                        groups[j].1@[q].1 as int,
                        groups[j].1@[q].2 as int,
                    )],
                    id,
                ),
            forall|j: int, q1: int, q2: int|
                0 <= j < groups.len() && 0 <= q1 < q2 < groups[j].1@.len()
                    ==> #[trigger] groups[j].1@[q1] != #[trigger] groups[j].1@[q2],
            forall|j1: int, j2: int|
                0 <= j1 < j2 < groups.len() ==> (#[trigger] groups[j1]).0 != (
                #[trigger] groups[j2]).0 && groups[j1].0.le(groups[j2].0),
        ensures
            ({
                let gp = Warehouse::group_positions(groups);
                &&& forall|a: int|
                    0 <= a < gp.len() ==> w.valid_pos(
                        (#[trigger] gp[a]).0 as int,
                        gp[a].1 as int,
                        gp[a].2 as int,
                    ) && dated_of(
                        w.flat()[w.pos_of(gp[a].0 as int, gp[a].1 as int, gp[a].2 as int)],
                        id,
                    )
                &&& forall|a: int, b: int|
                    0 <= a < b < gp.len() ==> w.pos_of(
                        (#[trigger] gp[a]).0 as int,
                        gp[a].1 as int,
                        gp[a].2 as int,
                    ) != w.pos_of((#[trigger] gp[b]).0 as int, gp[b].1 as int, gp[b].2 as int)
                &&& gp.len() <= count_dated_id(w.flat(), id)
            }),
    {
        let gseq = groups.map_values(|g: (Date, Vec<(usize, usize, usize)>)| g.1@);
        let gp = Warehouse::group_positions(groups);
        assert forall|a: int| 0 <= a < gp.len() implies w.valid_pos(
            (#[trigger] gp[a]).0 as int,
            gp[a].1 as int,
            gp[a].2 as int,
        ) && dated_of(
            w.flat()[w.pos_of(gp[a].0 as int, gp[a].1 as int, gp[a].2 as int)],
            id,
        ) by {
            crate::seqtools::lemma_block_of(gseq, a);
            let ja = block_of(gseq, a);
            assert(gp[a] == groups[ja].1@[a - offset_of(gseq, ja)]);
            assert(w.dated_at(gp[a]));
        }
        assert forall|a: int, b: int| 0 <= a < b < gp.len() implies w.pos_of(
            (#[trigger] gp[a]).0 as int,
            gp[a].1 as int,
            gp[a].2 as int,
        ) != w.pos_of((#[trigger] gp[b]).0 as int, gp[b].1 as int, gp[b].2 as int) by {
            crate::seqtools::lemma_block_of(gseq, a);
            crate::seqtools::lemma_block_of(gseq, b);
            let ja = block_of(gseq, a);
            let jb = block_of(gseq, b);
            let qa = a - offset_of(gseq, ja);
            let qb = b - offset_of(gseq, jb);
            assert(gp[a] == groups[ja].1@[qa]);
            assert(gp[b] == groups[jb].1@[qb]);
            assert(w.dated_at(gp[a]));
            assert(w.dated_at(gp[b]));
            if gp[a] == gp[b] {
                if ja == jb {
                    if qa < qb {
                        assert(groups[ja].1@[qa] != groups[ja].1@[qb]);
                    } else if qb < qa {
                        assert(groups[ja].1@[qb] != groups[ja].1@[qa]);
                    }
                    crate::seqtools::lemma_cat_index(gseq, ja, qa);
                    crate::seqtools::lemma_cat_index(gseq, jb, qb);
                    assert(false);
                } else if ja < jb {
                    assert(groups[ja].0 != groups[jb].0);
                    assert(false);
                } else {
                    assert(groups[jb].0 != groups[ja].0);
                    assert(false);
                }
            } else {
                w.lemma_valid_pos(gp[a].0 as int, gp[a].1 as int, gp[a].2 as int);
                w.lemma_valid_pos(gp[b].0 as int, gp[b].1 as int, gp[b].2 as int);
            }
        }
        let ghost fps = Seq::new(
            gp.len() as nat,
            |a: int| w.pos_of(gp[a].0 as int, gp[a].1 as int, gp[a].2 as int),
        );
        assert forall|a: int|
            0 <= a < fps.len() implies 0 <= #[trigger] fps[a] < w.flat().len() && dated_of(
            w.flat()[fps[a]],
            id,
        ) by {
            w.lemma_valid_pos(gp[a].0 as int, gp[a].1 as int, gp[a].2 as int);
        }
        assert forall|a: int, b: int| 0 <= a < b < fps.len() implies fps[a] != fps[b] by {
            assert(w.pos_of(gp[a].0 as int, gp[a].1 as int, gp[a].2 as int) != w.pos_of(
                gp[b].0 as int,
                gp[b].1 as int,
                gp[b].2 as int,
            ));
        }
        lemma_distinct_dated_bound(w.flat(), id, fps);
    }

    /// Regroups every occurrence of `product_id` into one contiguous region,
    /// earliest expiration first. Success is owed whenever the product is
    /// stored and one run sized to its dated-unit count lies in the free
    /// space; after it, the dated units stand in one region in
    /// non-decreasing date order, undated units staying where they were.
    #[verifier::loop_isolation(false)]
    #[verifier::rlimit(100)]
    #[verifier::spinoff_prover]
    pub fn organize_items_by_id(&mut self, product_id: u32) -> (r: Result<(), ErrorKind>)
        requires
            old(self).wf(),
        ensures
            final(self).wf(),
            final(self).same_shape(*old(self)),
            final(self).capacity == old(self).capacity,
            final(self).row_count == old(self).row_count,
            final(self).column_count == old(self).column_count,
            !has_id_in(old(self).flat(), product_id) ==> (r matches Err(ErrorKind::NoProductFound))
                && *final(self) == *old(self),
            r is Err ==> *final(self) == *old(self),
            r is Ok ==> final(self).available_space == old(self).available_space && forall|id: u32|
                count_id(final(self).flat(), id) == count_id(old(self).flat(), id),
            has_id_in(old(self).flat(), product_id) && count_dated_id(old(self).flat(), product_id)
                <= old(self).available_space && has_empty_run(
                old(self).flat(),
                count_dated_id(old(self).flat(), product_id),
            ) ==> r is Ok,
            r is Ok ==> exists|start: int, k: int|
                #[trigger] Warehouse::regrouped(final(self).flat(), product_id, start, k),
    {
        let items = self.find_all_item_occurences(product_id);
        if items.len() == 0 {
            proof {
                lemma_hits(self.flat(), product_id);
                lemma_count_id_zero(self.flat(), product_id);
                lemma_count_id_bounds(self.flat(), product_id);
            }
            return Err(ErrorKind::NoProductFound);
        }
        proof {
            lemma_hits(self.flat(), product_id);
            assert forall|a: int, b: int| 0 <= a < b < items@.len() implies items@[a]
                != items@[b] by {
                self.lemma_flat_pos(hits(self.flat(), product_id)[a]);
                self.lemma_flat_pos(hits(self.flat(), product_id)[b]);
            }
            lemma_count_id_zero(self.flat(), product_id);
        }
        let grouped_items = self.group_items_by_expiration(items);
        let ghost pre = *old(self);
        let ghost gp = Warehouse::group_positions(grouped_items@);
        proof {
            assert forall|j: int, q: int|
                0 <= j < grouped_items@.len() && 0 <= q < grouped_items@[j].1@.len()
                implies holds_id(
                pre.flat()[pre.pos_of(
                    (#[trigger] grouped_items@[j].1@[q]).0 as int,
                    grouped_items@[j].1@[q].1 as int,
                    grouped_items@[j].1@[q].2 as int,
                )],
                product_id,
            ) by {
                let t = grouped_items@[j].1@[q];
                assert(items@.contains(t));
                let k = choose|k: int| 0 <= k < items@.len() && items@[k] == t;
                pre.lemma_flat_pos(hits(pre.flat(), product_id)[k]);
            }
            Warehouse::lemma_groups_flat_facts(pre, grouped_items@, product_id);
            if count_dated_id(pre.flat(), product_id) <= pre.available_space && has_empty_run(
                pre.flat(),
                count_dated_id(pre.flat(), product_id),
            ) {
                lemma_count_dated_bounds(pre.flat(), product_id);
                lemma_run_shrinks(
                    pre.flat(),
                    count_dated_id(pre.flat(), product_id),
                    gp.len() as int,
                );
            }
        }
        let r = self.move_items_to_contiguous_space(grouped_items);
        proof {
            if r is Ok {
                if gp.len() == 0 {
                    assert forall|i: int|
                        0 <= i < self.flat().len() implies !dated_of(
                        #[trigger] self.flat()[i],
                        product_id,
                    ) by {
                        if dated_of(pre.flat()[i], product_id) {
                            pre.lemma_flat_pos(i);
                            let t = pre.triple_of(i);
                            assert(hits(pre.flat(), product_id).contains(i));
                            let k = choose|k: int|
                                0 <= k < hits(pre.flat(), product_id).len() && hits(
                                    pre.flat(),
                                    product_id,
                                )[k] == i;
                            assert((items@[k].0 as int, items@[k].1 as int, items@[k].2 as int)
                                == t);
                            assert(pre.dated_at(items@[k]));
                            assert(Warehouse::grouped_position(grouped_items@, items@[k]));
                            let (j, q) = choose|j: int, q: int|
                                0 <= j < grouped_items@.len() && 0 <= q
                                    < grouped_items@[j].1@.len()
                                    && #[trigger] grouped_items@[j].1@[q] == items@[k];
                            let gseq = grouped_items@.map_values(
                                |g: (Date, Vec<(usize, usize, usize)>)| g.1@,
                            );
                            crate::seqtools::lemma_cat_index(gseq, j, q);
                            assert(gp[offset_of(gseq, j) + q] == items@[k]);
                            assert(false);
                        }
                    }
                    assert(Warehouse::regrouped(self.flat(), product_id, 0, 0));
                } else {
                    let start = choose|start: int|
                        run_at(pre.flat(), start, gp.len() as int) && (forall|q: int|
                            0 <= q < gp.len() ==> #[trigger] self.flat()[start + q] == pre.flat()[
                                pre.pos_of(
                                    (gp[q]).0 as int,
                                    (gp[q]).1 as int,
                                    (gp[q]).2 as int,
                                )
                            ]) && (forall|a: int|
                            0 <= a < gp.len() ==> self.flat()[pre.pos_of(
                                (#[trigger] gp[a]).0 as int,
                                (gp[a]).1 as int,
                                (gp[a]).2 as int,
                            )] is None) && (forall|i: int|
                            0 <= i < pre.flat().len() && !(start <= i < start + gp.len()) && (
                            forall|a: int|
                                0 <= a < gp.len() ==> pre.pos_of(
                                    (#[trigger] gp[a]).0 as int,
                                    (gp[a]).1 as int,
                                    (gp[a]).2 as int,
                                ) != i) ==> #[trigger] self.flat()[i] == pre.flat()[i]);
                    let k = gp.len() as int;
                    assert forall|i: int|
                        0 <= i < self.flat().len() implies (dated_of(
                        #[trigger] self.flat()[i],
                        product_id,
                    ) <==> start <= i < start + k) by {
                        if start <= i < start + k {
                            assert(self.flat()[start + (i - start)] == pre.flat()[pre.pos_of(
                                (gp[i - start]).0 as int,
                                (gp[i - start]).1 as int,
                                (gp[i - start]).2 as int,
                            )]);
                            assert(self.flat()[i] == pre.flat()[pre.pos_of(
                                (gp[i - start]).0 as int,
                                (gp[i - start]).1 as int,
                                (gp[i - start]).2 as int,
                            )]);
                        } else {
                            if dated_of(self.flat()[i], product_id) {
                                assert(self.flat()[i] == pre.flat()[i]) by {
                                    if exists|a: int|
                                        0 <= a < gp.len() && pre.pos_of(
                                            (#[trigger] gp[a]).0 as int,
                                            (gp[a]).1 as int,
                                            (gp[a]).2 as int,
                                        ) == i {
                                        let a = choose|a: int|
                                            0 <= a < gp.len() && pre.pos_of(
                                                (#[trigger] gp[a]).0 as int,
                                                (gp[a]).1 as int,
                                                (gp[a]).2 as int,
                                            ) == i;
                                        assert(self.flat()[i] is None);
                                        assert(false);
                                    }
                                }
                                pre.lemma_flat_pos(i);
                                let t = pre.triple_of(i);
                                assert(hits(pre.flat(), product_id).contains(i));
                                let k2 = choose|k2: int|
                                    0 <= k2 < hits(pre.flat(), product_id).len() && hits(
                                        pre.flat(),
                                        product_id,
                                    )[k2] == i;
                                assert((items@[k2].0 as int, items@[k2].1 as int, items@[k2].2
                                    as int) == t);
                                assert(pre.dated_at(items@[k2]));
                                assert(Warehouse::grouped_position(grouped_items@, items@[k2]));
                                let (j, q) = choose|j: int, q: int|
                                    0 <= j < grouped_items@.len() && 0 <= q
                                        < grouped_items@[j].1@.len()
                                        && #[trigger] grouped_items@[j].1@[q] == items@[k2];
                                let gseq = grouped_items@.map_values(
                                    |g: (Date, Vec<(usize, usize, usize)>)| g.1@,
                                );
                                crate::seqtools::lemma_cat_index(gseq, j, q);
                                assert(gp[offset_of(gseq, j) + q] == items@[k2]);
                                assert(pre.pos_of(
                                    items@[k2].0 as int,
                                    items@[k2].1 as int,
                                    items@[k2].2 as int,
                                ) == i);
                                assert(false);
                            }
                        }
                    }
                    lemma_defrag_region_ordered(pre, *self, grouped_items@, start);
                    assert forall|q1: int, q2: int|
                        start <= q1 <= q2 < start + k implies occ_date(
                        #[trigger] self.flat()[q1],
                    ).le(occ_date(#[trigger] self.flat()[q2])) by {
                        assert(self.flat()[start + (q1 - start)] matches Some(p1) && (
                        self.flat()[start + (q2 - start)] matches Some(p2) && (
                        p1.1 matches Some(d1) && (p2.1 matches Some(d2) && d1.le(d2)))));
                    }
                    assert(Warehouse::regrouped(self.flat(), product_id, start, k));
                }
            }
        }
        r
    }

    /// Whether enough empty zones follow the last occurrence of a stored
    /// product to continue its run.
    pub open spec fn room_after_last(self, id: u32, qty: int) -> bool {
        count_empty(self.flat().skip(hits(self.flat(), id).last() + 1)) >= qty
    }

    /// Adds `qty` fresh units of `product_id`. A product not yet stored gets
    /// the first contiguous run of `qty` zones; one stored contiguously is
    /// continued after its last unit; a scattered one is regrouped by
    /// expiration into one region sized for every unit, old and new.
    /// A stored-contiguously product whose continuation runs past the end of
    /// the grid is refused with `NoContiguousSpace`.
    #[verifier::loop_isolation(false)]
    #[verifier::rlimit(100)]
    #[verifier::spinoff_prover]
    pub fn add_items_by_qty(&mut self, product_id: u32, qty: usize, expiry_date: Option<Date>) -> (r:
        Result<(), ErrorKind>)
        requires
            old(self).wf(),
            qty >= 1,
        ensures
            final(self).wf(),
            final(self).same_shape(*old(self)),
            final(self).capacity == old(self).capacity,
            final(self).row_count == old(self).row_count,
            final(self).column_count == old(self).column_count,
            r is Err ==> *final(self) == *old(self),
            r is Ok ==> final(self).available_space == old(self).available_space - qty
                && count_id(final(self).flat(), product_id) == count_id(
                old(self).flat(),
                product_id,
            ) + qty && (forall|id: u32|
                id != product_id ==> count_id(final(self).flat(), id) == count_id(
                    old(self).flat(),
                    id,
                )),
            qty > old(self).available_space ==> (r matches Err(ErrorKind::InsufficientSpace)),
            qty <= old(self).available_space && !has_id_in(old(self).flat(), product_id) ==> (
            if has_empty_run(old(self).flat(), qty as int) {
                r is Ok
            } else {
                r matches Err(ErrorKind::NoContiguousSpace)
            }),
            qty <= old(self).available_space && !has_id_in(old(self).flat(), product_id) && r is Ok
                ==> exists|start: int|
                #![trigger run_at(old(self).flat(), start, qty as int)]
                run_at(old(self).flat(), start, qty as int) && (forall|p: int|
                    0 <= p < start ==> !run_at(old(self).flat(), p, qty as int)) && (forall|i: int|
                    0 <= i < old(self).flat().len() ==> #[trigger] final(self).flat()[i] == (
                    if start <= i < start + qty {
                        Some((product_id, expiry_date))
                    } else {
                        old(self).flat()[i]
                    })),
            qty <= old(self).available_space && has_id_in(old(self).flat(), product_id) && old(self).stored_contiguously(product_id) ==> (if old(self).room_after_last(
                product_id,
                qty as int,
            ) {
                r is Ok
            } else {
                r matches Err(ErrorKind::NoContiguousSpace)
            }),
            qty <= old(self).available_space && has_id_in(old(self).flat(), product_id) && old(self).stored_contiguously(product_id) && r is Ok ==> exists|end: int|
                #![trigger old(self).flat().subrange(hits(old(self).flat(), product_id).last() + 1, end)]
                hits(old(self).flat(), product_id).last() + 1 <= end <= old(self).flat().len()
                    && count_empty(
                    old(self).flat().subrange(
                        hits(old(self).flat(), product_id).last() + 1,
                        end,
                    ),
                ) == qty && (forall|i: int|
                    0 <= i < old(self).flat().len() ==> #[trigger] final(self).flat()[i] == (
                    if old(self).flat()[i] is None && hits(old(self).flat(), product_id).last() + 1
                        <= i < end {
                        Some((product_id, expiry_date))
                    } else {
                        old(self).flat()[i]
                    })),
            qty <= old(self).available_space && has_id_in(old(self).flat(), product_id) && !old(self).stored_contiguously(product_id) ==> {
                let total = count_id(old(self).flat(), product_id) + qty;
                if total > old(self).available_space {
                    r matches Err(ErrorKind::InsufficientSpace)
                } else if !has_empty_run(old(self).flat(), total) {
                    r matches Err(ErrorKind::NoContiguousSpace)
                } else {
                    r is Ok
                }
            },
            qty <= old(self).available_space && has_id_in(old(self).flat(), product_id) && !old(self).stored_contiguously(product_id) && r is Ok ==> exists|start: int, m: int|
                #[trigger] Warehouse::regrouped_with_new(
                    old(self).flat(),
                    final(self).flat(),
                    product_id,
                    expiry_date,
                    qty as int,
                    start,
                    m,
                ),
    {
        if qty > self.available_space {
            return Err(ErrorKind::InsufficientSpace);
        }
        if !self.contains_product(product_id) {
            let t = match self.find_contiguous_space(qty) {
                Ok(t) => t,
                Err(e) => {
                    return Err(e);
                },
            };
            let start = self.position_to_flat_index(t.0, t.1, t.2);
            proof {
                lemma_count_empty_full_window(old(self).flat(), start as int, start + qty);
                lemma_count_empty_window_split(
                    old(self).flat(),
                    start as int,
                    start + qty,
                    old(self).flat().len() as int,
                );
                lemma_count_empty_bounds(
                    old(self).flat().subrange(start + qty, old(self).flat().len() as int),
                );
                assert(old(self).flat().skip(start as int) =~= old(self).flat().subrange(
                    start as int,
                    old(self).flat().len() as int,
                ));
                lemma_count_empty_window_split(
                    old(self).flat(),
                    start as int,
                    start as int,
                    old(self).flat().len() as int,
                );
            }
            self.place_items_from(product_id, qty, expiry_date, start);
            proof {
                let end = choose|end: int|
                    #![trigger old(self).flat().subrange(start as int, end)]
                    start as int <= end <= old(self).flat().len() && count_empty(
                        old(self).flat().subrange(start as int, end),
                    ) == qty && (qty > 0 ==> old(self).flat()[end - 1] is None) && forall|i: int|
                        0 <= i < old(self).flat().len() ==> #[trigger] self.flat()[i] == (if old(self).flat()[i] is None && start <= i < end {
                            Some((product_id, expiry_date))
                        } else {
                            old(self).flat()[i]
                        });
                assert(end == start + qty) by {
                    if end < start + qty {
                        lemma_count_empty_bounds(old(self).flat().subrange(start as int, end));
                    } else if end > start + qty {
                        lemma_count_empty_window_split(old(self).flat(), start as int, start + qty, end);
                        lemma_count_empty_window_succ(old(self).flat(), start + qty, end - 1);
                        lemma_count_empty_bounds(
                            old(self).flat().subrange(start + qty, end - 1),
                        );
                    }
                }
                assert forall|i: int| 0 <= i < old(self).flat().len() implies #[trigger] self.flat()[i]
                    == (if start <= i < start + qty {
                    Some((product_id, expiry_date))
                } else {
                    old(self).flat()[i]
                }) by {}
            }
            Ok(())
        } else if self.is_product_stored_contiguously(product_id) {
            proof {
                lemma_count_id_zero(self.flat(), product_id);
                lemma_hits(self.flat(), product_id);
            }
            let items = self.find_all_item_occurences(product_id);
            let last = items[items.len() - 1];
            proof {
                self.lemma_flat_pos(hits(self.flat(), product_id).last());
            }
            let lastpos = self.position_to_flat_index(last.0, last.1, last.2);
            let bits = self.flat_map();
            let n = bits.len();
            let mut cnt: usize = 0;
            let mut i: usize = lastpos + 1;
            proof {
                assert(self.flat().subrange(lastpos + 1, lastpos + 1)
                    =~= Seq::<Occupancy>::empty());
                assert(count_empty(Seq::<Occupancy>::empty()) == 0) by {
                    assert(Seq::<Occupancy>::empty().map_values(
                        |o: Occupancy| if o is None { 1int } else { 0int },
                    ) =~= Seq::<int>::empty());
                }
            }
            while i < n
                invariant
                    lastpos + 1 <= i <= n,
                    cnt == count_empty(self.flat().subrange(lastpos + 1, i as int)),
                    cnt <= i - lastpos - 1,
                decreases n - i,
            {
                proof {
                    lemma_count_empty_window_succ(self.flat(), lastpos + 1, i as int);
                }
                if !bits[i] {
                    cnt = cnt + 1;
                }
                i = i + 1;
            }
            proof {
                assert(self.flat().subrange(lastpos + 1, n as int) =~= self.flat().skip(
                    lastpos + 1,
                ));
            }
            if cnt < qty {
                return Err(ErrorKind::NoContiguousSpace);
            }
            self.place_items_from(product_id, qty, expiry_date, lastpos + 1);
            Ok(())
        } else {
            proof {
                lemma_count_id_zero(self.flat(), product_id);
                lemma_hits(self.flat(), product_id);
                lemma_count_id_empty_disjoint(self.flat(), product_id);
            }
            let items = self.find_all_item_occurences(product_id);
            let total = items.len() + qty;
            let t = match self.find_contiguous_space(total) {
                Ok(t) => t,
                Err(e) => {
                    return Err(e);
                },
            };
            let start = self.position_to_flat_index(t.0, t.1, t.2);
            proof {
                assert forall|a: int, b: int| 0 <= a < b < items@.len() implies items@[a]
                    != items@[b] by {
                    self.lemma_flat_pos(hits(self.flat(), product_id)[a]);
                    self.lemma_flat_pos(hits(self.flat(), product_id)[b]);
                }
            }
            let grouped = self.group_items_by_expiration(items);
            let moved = Warehouse::flatten_groups(&grouped);
            let ghost mid0 = *self;
            if moved.len() > 0 {
                proof {
                    let gseq = grouped@.map_values(
                        |g: (Date, Vec<(usize, usize, usize)>)| g.1@,
                    );
                    assert forall|a: int| 0 <= a < moved@.len() implies mid0.valid_pos(
                        (#[trigger] moved@[a]).0 as int,
                        moved@[a].1 as int,
                        moved@[a].2 as int,
                    ) && mid0.flat()[mid0.pos_of(
                        moved@[a].0 as int,
                        moved@[a].1 as int,
                        moved@[a].2 as int,
                    )] is Some by {
                        crate::seqtools::lemma_block_of(gseq, a);
                        let ja = block_of(gseq, a);
                        assert(moved@[a] == grouped@[ja].1@[a - offset_of(gseq, ja)]);
                        assert(mid0.dated_at(moved@[a]));
                    }
                    assert forall|a: int, b: int| 0 <= a < b < moved@.len() implies mid0.pos_of(
                        (#[trigger] moved@[a]).0 as int,
                        moved@[a].1 as int,
                        moved@[a].2 as int,
                    ) != mid0.pos_of(
                        (#[trigger] moved@[b]).0 as int,
                        moved@[b].1 as int,
                        moved@[b].2 as int,
                    ) by {
                        crate::seqtools::lemma_block_of(gseq, a);
                        crate::seqtools::lemma_block_of(gseq, b);
                        let ja = block_of(gseq, a);
                        let jb = block_of(gseq, b);
                        let qa = a - offset_of(gseq, ja);
                        let qb = b - offset_of(gseq, jb);
                        assert(moved@[a] == grouped@[ja].1@[qa]);
                        assert(moved@[b] == grouped@[jb].1@[qb]);
                        assert(mid0.dated_at(moved@[a]));
                        assert(mid0.dated_at(moved@[b]));
                        if moved@[a] == moved@[b] {
                            if ja == jb {
                                if qa < qb {
                                    assert(grouped@[ja].1@[qa] != grouped@[ja].1@[qb]);
                                } else if qb < qa {
                                    assert(grouped@[ja].1@[qb] != grouped@[ja].1@[qa]);
                                }
                                crate::seqtools::lemma_cat_index(gseq, ja, qa);
                                crate::seqtools::lemma_cat_index(gseq, jb, qb);
                                assert(false);
                            } else if ja < jb {
                                assert(grouped@[ja].0 != grouped@[jb].0);
                                assert(false);
                            } else {
                                assert(grouped@[jb].0 != grouped@[ja].0);
                                assert(false);
                            }
                        } else {
                            mid0.lemma_valid_pos(
                                moved@[a].0 as int,
                                moved@[a].1 as int,
                                moved@[a].2 as int,
                            );
                            mid0.lemma_valid_pos(
                                moved@[b].0 as int,
                                moved@[b].1 as int,
                                moved@[b].2 as int,
                            );
                        }
                    }
                    assert forall|a: int|
                        0 <= a < moved@.len() implies items@.contains(
                        #[trigger] moved@[a],
                    ) by {
                        crate::seqtools::lemma_block_of(gseq, a);
                        let ja = block_of(gseq, a);
                        assert(moved@[a] == grouped@[ja].1@[a - offset_of(gseq, ja)]);
                    }
                    let ghost ips = Seq::new(
                        moved@.len() as nat,
                        |a: int|
                            mid0.pos_of(
                                moved@[a].0 as int,
                                moved@[a].1 as int,
                                moved@[a].2 as int,
                            ),
                    );
                    assert forall|a: int|
                        0 <= a < ips.len() implies 0 <= #[trigger] ips[a] < mid0.flat().len()
                        && holds_id(mid0.flat()[ips[a]], product_id) by {
                        let k = choose|k: int| 0 <= k < items@.len() && items@[k] == moved@[a];
                        mid0.lemma_flat_pos(hits(mid0.flat(), product_id)[k]);
                        mid0.lemma_valid_pos(
                            moved@[a].0 as int,
                            moved@[a].1 as int,
                            moved@[a].2 as int,
                        );
                    }
                    lemma_distinct_holders_bound(mid0.flat(), product_id, ips);
                    assert(moved@.len() <= items@.len());
                    assert(run_at(mid0.flat(), start as int, moved@.len() as int));
                }
                match self.move_list_to(&moved, start) {
                    Ok(()) => {},
                    Err(e) => {
                        proof {
                            assert(false);
                        }
                        return Err(e);
                    },
                }
            }
            let ghost mid = *self;
            proof {
                Warehouse::lemma_same_shape_pos(*self, mid0);
                lemma_count_empty_bounds(self.flat());
                assert forall|u: int|
                    moved@.len() <= u < total implies #[trigger] self.flat()[start + u] is None by {
                    if moved@.len() > 0 {
                        assert(mid0.flat()[start + u] is None);
                        assert(!(start <= start + u < start + moved@.len()));
                        assert forall|a: int|
                            0 <= a < moved@.len() implies mid0.pos_of(
                            (#[trigger] moved@[a]).0 as int,
                            moved@[a].1 as int,
                            moved@[a].2 as int,
                        ) != start + u by {
                            assert(mid0.flat()[mid0.pos_of(
                                moved@[a].0 as int,
                                moved@[a].1 as int,
                                moved@[a].2 as int,
                            )] is Some);
                        }
                    }
                }
                lemma_count_empty_full_window(
                    self.flat(),
                    start + moved@.len(),
                    start + total,
                );
                lemma_count_empty_window_split(
                    self.flat(),
                    start + moved@.len(),
                    start + total,
                    self.flat().len() as int,
                );
                lemma_count_empty_bounds(
                    self.flat().subrange(start + total, self.flat().len() as int),
                );
                assert(self.flat().skip(start + moved@.len()) =~= self.flat().subrange(
                    start + moved@.len(),
                    self.flat().len() as int,
                ));
                lemma_count_empty_window_split(
                    self.flat(),
                    start as int,
                    start + moved@.len(),
                    self.flat().len() as int,
                );
                lemma_count_empty_bounds(
                    self.flat().subrange(start as int, start + moved@.len()),
                );
                assert(self.flat().skip(start as int) =~= self.flat().subrange(
                    start as int,
                    self.flat().len() as int,
                ));
                assert(count_empty(self.flat().skip(start as int)) >= qty);
            }
            self.place_items_from(product_id, qty, expiry_date, start);
            proof {
                let m = moved@.len() as int;
                let stt = start as int;
                assert forall|a: int|
                    0 <= a < m implies dated_of(
                    mid0.flat()[mid0.pos_of(
                        (#[trigger] moved@[a]).0 as int,
                        moved@[a].1 as int,
                        moved@[a].2 as int,
                    )],
                    product_id,
                ) by {
                    let gseq = grouped@.map_values(|g: (Date, Vec<(usize, usize, usize)>)| g.1@);
                    crate::seqtools::lemma_block_of(gseq, a);
                    let ja = block_of(gseq, a);
                    assert(moved@[a] == grouped@[ja].1@[a - offset_of(gseq, ja)]);
                    assert(mid0.dated_at(moved@[a]));
                    assert(items@.contains(moved@[a]));
                    let k = choose|k: int| 0 <= k < items@.len() && items@[k] == moved@[a];
                    mid0.lemma_flat_pos(hits(mid0.flat(), product_id)[k]);
                }
                assert forall|k2: int| stt <= k2 < stt + m implies mid.flat()[k2] is Some by {
                    assert(mid.flat()[stt + (k2 - stt)] == mid0.flat()[mid0.pos_of(
                        (moved@[k2 - stt]).0 as int,
                        (moved@[k2 - stt]).1 as int,
                        (moved@[k2 - stt]).2 as int,
                    )]);
                    assert(dated_of(
                        mid0.flat()[mid0.pos_of(
                            (moved@[k2 - stt]).0 as int,
                            (moved@[k2 - stt]).1 as int,
                            (moved@[k2 - stt]).2 as int,
                        )],
                        product_id,
                    ));
                }
                lemma_count_empty_empty_window(mid.flat(), stt, stt + m);
                lemma_count_empty_full_window(mid.flat(), stt + m, stt + m + qty);
                let end = choose|end: int|
                    #![trigger mid.flat().subrange(stt, end)]
                    stt <= end <= mid.flat().len() && count_empty(mid.flat().subrange(stt, end))
                        == qty && (qty > 0 ==> mid.flat()[end - 1] is None) && (qty == 0 ==> end
                        == stt) && forall|i: int|
                        0 <= i < mid.flat().len() ==> #[trigger] self.flat()[i] == (
                        if mid.flat()[i] is None && stt <= i < end {
                            Some((product_id, expiry_date))
                        } else {
                            mid.flat()[i]
                        });
                assert(end == stt + m + qty) by {
                    if end < stt + m {
                        lemma_count_empty_window_split(mid.flat(), stt, end, stt + m);
                        lemma_count_empty_bounds(mid.flat().subrange(end, stt + m));
                        lemma_count_empty_empty_window(mid.flat(), stt, end);
                    } else if end < stt + m + qty {
                        lemma_count_empty_window_split(mid.flat(), stt, stt + m, end);
                        lemma_count_empty_full_window(mid.flat(), stt + m, end);
                    } else if end > stt + m + qty {
                        lemma_count_empty_window_split(mid.flat(), stt, stt + m + qty, end);
                        lemma_count_empty_window_split(mid.flat(), stt, stt + m, stt + m + qty);
                        lemma_count_empty_pos(
                            mid.flat().subrange(stt + m + qty, end),
                            end - 1 - (stt + m + qty),
                        );
                        lemma_count_empty_bounds(mid.flat().subrange(stt + m + qty, end));
                    }
                }
                lemma_defrag_region_ordered(mid0, mid, grouped@, stt);
                assert forall|q: int| 0 <= q < m implies dated_of(
                    #[trigger] self.flat()[stt + q],
                    product_id,
                ) by {
                    assert(mid.flat()[stt + q] == mid0.flat()[mid0.pos_of(
                        (moved@[q]).0 as int,
                        (moved@[q]).1 as int,
                        (moved@[q]).2 as int,
                    )]);
                    assert(self.flat()[stt + q] == mid.flat()[stt + q]);
                }
                assert forall|q1: int, q2: int|
                    0 <= q1 <= q2 < m implies occ_date(#[trigger] self.flat()[stt + q1]).le(
                    occ_date(#[trigger] self.flat()[stt + q2]),
                ) by {
                    assert(mid.flat()[stt + q1] matches Some(p1) && (mid.flat()[stt
                        + q2] matches Some(p2) && (p1.1 matches Some(d1) && (p2.1 matches Some(d2)
                        && d1.le(d2)))));
                    assert(self.flat()[stt + q1] == mid.flat()[stt + q1]);
                    assert(self.flat()[stt + q2] == mid.flat()[stt + q2]);
                }
                assert forall|q: int| m <= q < m + qty implies #[trigger] self.flat()[stt + q]
                    == Some((product_id, expiry_date)) by {
                    assert(mid.flat()[stt + q] is None);
                }
                assert forall|i: int|
                    0 <= i < mid0.flat().len() && !(stt <= i < stt + m + qty) implies (
                #[trigger] self.flat()[i] == mid0.flat()[i] || (dated_of(
                    mid0.flat()[i],
                    product_id,
                ) && self.flat()[i] is None)) by {
                    if exists|a: int|
                        0 <= a < m && mid0.pos_of(
                            (#[trigger] moved@[a]).0 as int,
                            moved@[a].1 as int,
                            moved@[a].2 as int,
                        ) == i {
                        let a = choose|a: int|
                            0 <= a < m && mid0.pos_of(
                                (#[trigger] moved@[a]).0 as int,
                                moved@[a].1 as int,
                                moved@[a].2 as int,
                            ) == i;
                        assert(mid.flat()[i] is None);
                        assert(self.flat()[i] is None || self.flat()[i] == Some(
                            (product_id, expiry_date),
                        ));
                        assert(!(stt <= i < end));
                        assert(self.flat()[i] is None);
                    } else {
                        assert(mid.flat()[i] == mid0.flat()[i]);
                        assert(self.flat()[i] == mid.flat()[i]) by {
                            assert(!(stt <= i < end));
                        }
                    }
                }
                assert forall|i: int|
                    0 <= i < mid0.flat().len() && dated_of(#[trigger] mid0.flat()[i], product_id)
                        && !(stt <= i < stt + m + qty) implies self.flat()[i] is None by {
                    mid0.lemma_flat_pos(i);
                    let t = mid0.triple_of(i);
                    assert(hits(mid0.flat(), product_id).contains(i));
                    let k2 = choose|k2: int|
                        0 <= k2 < hits(mid0.flat(), product_id).len() && hits(
                            mid0.flat(),
                            product_id,
                        )[k2] == i;
                    assert((items@[k2].0 as int, items@[k2].1 as int, items@[k2].2 as int) == t);
                    assert(mid0.dated_at(items@[k2]));
                    assert(Warehouse::grouped_position(grouped@, items@[k2]));
                    let (j, q) = choose|j: int, q: int|
                        0 <= j < grouped@.len() && 0 <= q < grouped@[j].1@.len()
                            && #[trigger] grouped@[j].1@[q] == items@[k2];
                    let gseq = grouped@.map_values(|g: (Date, Vec<(usize, usize, usize)>)| g.1@);
                    crate::seqtools::lemma_cat_index(gseq, j, q);
                    assert(moved@[offset_of(gseq, j) + q] == items@[k2]);
                    assert(mid0.pos_of(items@[k2].0 as int, items@[k2].1 as int, items@[k2].2
                        as int) == i);
                    assert(mid.flat()[i] is None);
                    assert(!(stt <= i < end));
                }
                assert(Warehouse::regrouped_with_new(
                    mid0.flat(),
                    self.flat(),
                    product_id,
                    expiry_date,
                    qty as int,
                    stt,
                    m,
                ));
            }
            Ok(())
        }
    }

    /// The groups' positions as one list, in group order.
    #[verifier::loop_isolation(false)]
    fn flatten_groups(grouped_items: &Vec<(Date, Vec<(usize, usize, usize)>)>) -> (list: Vec<
        (usize, usize, usize),
    >)
        ensures
            list@ == Warehouse::group_positions(grouped_items@),
    {
        let ghost gseq = grouped_items@.map_values(|g: (Date, Vec<(usize, usize, usize)>)| g.1@);
        let mut list: Vec<(usize, usize, usize)> = Vec::new();
        let gn = grouped_items.len();
        let mut j: usize = 0;
        proof {
            assert(cat(gseq.take(0)) =~= Seq::<(usize, usize, usize)>::empty());
        }
        while j < gn
            invariant
                0 <= j <= gn,
                list@ == cat(gseq.take(j as int)),
            decreases gn - j,
        {
            let gv = &grouped_items[j].1;
            let m = gv.len();
            let mut q: usize = 0;
            proof {
                assert(gseq.take(j + 1).drop_last() =~= gseq.take(j as int));
                assert(gseq.take(j + 1).last() == grouped_items@[j as int].1@);
                crate::seqtools::lemma_cat_push(gseq.take(j as int), grouped_items@[j as int].1@);
                assert(gseq.take(j as int).push(grouped_items@[j as int].1@) =~= gseq.take(j + 1));
            }
            while q < m
                invariant
                    0 <= q <= m,
                    list@ == cat(gseq.take(j as int)) + grouped_items@[j as int].1@.take(q as int),
                decreases m - q,
            {
                list.push(gv[q]);
                proof {
                    assert(list@ =~= cat(gseq.take(j as int)) + grouped_items@[j as int].1@.take(
                        q + 1,
                    ));
                }
                q = q + 1;
            }
            proof {
                assert(grouped_items@[j as int].1@.take(m as int) =~= grouped_items@[j as int].1@);
            }
            j = j + 1;
        }
        proof {
            assert(gseq.take(gn as int) =~= gseq);
        }
        list
    }

    /// Whether `post` is `pre` with exactly the zones at `removed` cleared:
    /// `removed` lists `qty` distinct positions, every one a dated unit of
    /// `id` no later than any dated unit of `id` left behind, and every
    /// other zone is untouched.
    pub open spec fn removed_earliest(
        pre: Seq<Occupancy>,
        post: Seq<Occupancy>,
        id: u32,
        qty: int,
        removed: Seq<int>,
    ) -> bool {
        &&& removed.len() == qty
        &&& forall|a: int, b: int| 0 <= a < b < removed.len() ==> removed[a] != removed[b]
        &&& forall|a: int|
            0 <= a < removed.len() ==> 0 <= #[trigger] removed[a] < pre.len() && dated_of(
                pre[removed[a]],
                id,
            )
        &&& forall|i: int|
            0 <= i < pre.len() ==> #[trigger] post[i] == (if removed.contains(i) {
                None
            } else {
                pre[i]
            })
        &&& forall|a: int, i: int|
            0 <= a < removed.len() && 0 <= i < pre.len() && dated_of(#[trigger] pre[i], id)
                && !removed.contains(i) ==> occ_date(pre[#[trigger] removed[a]]).le(
                occ_date(pre[i]),
            )
    }

    /// Removes `qty` units of `product_id`, earliest expiration first, among
    /// the dated units. When fewer dated units exist than requested, every
    /// occurrence of the product is removed instead.
    #[verifier::loop_isolation(false)]
    #[verifier::rlimit(100)]
    #[verifier::spinoff_prover]
    pub fn remove_item_by_qty(&mut self, product_id: u32, qty: usize) -> (r: Result<
        (),
        ErrorKind,
    >)
        requires
            old(self).wf(),
        ensures
            final(self).wf(),
            final(self).same_shape(*old(self)),
            final(self).capacity == old(self).capacity,
            final(self).row_count == old(self).row_count,
            final(self).column_count == old(self).column_count,
            final(self).flat().len() == old(self).flat().len(),
            r is Err ==> (r matches Err(ErrorKind::NoProductFound)) && !has_id_in(
                old(self).flat(),
                product_id,
            ) && *final(self) == *old(self),
            count_dated_id(old(self).flat(), product_id) < qty && has_id_in(
                old(self).flat(),
                product_id,
            ) ==> r is Ok && final(self).flat() == erase_id(old(self).flat(), product_id)
                && final(self).available_space == old(self).available_space + count_id(
                old(self).flat(),
                product_id,
            ),
            count_dated_id(old(self).flat(), product_id) >= qty ==> r is Ok && final(self).available_space == old(self).available_space + qty && count_id(
                final(self).flat(),
                product_id,
            ) == count_id(old(self).flat(), product_id) - qty && exists|removed: Seq<int>|
                #[trigger] Warehouse::removed_earliest(
                    old(self).flat(),
                    final(self).flat(),
                    product_id,
                    qty as int,
                    removed,
                ),
    {
        let items = self.find_all_item_occurences(product_id);
        proof {
            lemma_hits(self.flat(), product_id);
            lemma_count_id_zero(self.flat(), product_id);
            assert forall|a: int, b: int| 0 <= a < b < items@.len() implies items@[a]
                != items@[b] by {
                self.lemma_flat_pos(hits(self.flat(), product_id)[a]);
                self.lemma_flat_pos(hits(self.flat(), product_id)[b]);
            }
        }
        let rem = self.collect_dated(&items);
        let ghost positions = Seq::new(
            rem@.len() as nat,
            |a: int|
                old(self).pos_of(rem@[a].0.0 as int, rem@[a].0.1 as int, rem@[a].0.2 as int),
        );
        proof {
            assert forall|a: int|
                0 <= a < rem@.len() implies holds_id(
                old(self).flat()[old(self).pos_of(
                    (#[trigger] rem@[a]).0.0 as int,
                    rem@[a].0.1 as int,
                    rem@[a].0.2 as int,
                )],
                product_id,
            ) by {
                assert(items@.contains(rem@[a].0));
                let k = choose|k: int| 0 <= k < items@.len() && items@[k] == rem@[a].0;
                old(self).lemma_flat_pos(hits(old(self).flat(), product_id)[k]);
            }
            assert forall|a: int|
                0 <= a < positions.len() implies 0 <= #[trigger] positions[a] < old(self).flat().len() && dated_of(old(self).flat()[positions[a]], product_id) by {
                old(self).lemma_valid_pos(
                    rem@[a].0.0 as int,
                    rem@[a].0.1 as int,
                    rem@[a].0.2 as int,
                );
            }
            assert forall|a: int, b: int|
                0 <= a < b < positions.len() implies positions[a] != positions[b] by {
                old(self).lemma_valid_pos(
                    rem@[a].0.0 as int,
                    rem@[a].0.1 as int,
                    rem@[a].0.2 as int,
                );
                old(self).lemma_valid_pos(
                    rem@[b].0.0 as int,
                    rem@[b].0.1 as int,
                    rem@[b].0.2 as int,
                );
                assert(rem@[a].0 != rem@[b].0);
            }
            lemma_distinct_dated_bound(old(self).flat(), product_id, positions);
            assert forall|i: int|
                0 <= i < old(self).flat().len() && dated_of(
                    #[trigger] old(self).flat()[i],
                    product_id,
                ) implies positions.contains(i) by {
                old(self).lemma_flat_pos(i);
                assert(holds_id(old(self).flat()[i], product_id));
                assert(hits(old(self).flat(), product_id).contains(i));
                let k = choose|k: int|
                    0 <= k < hits(old(self).flat(), product_id).len() && hits(
                        old(self).flat(),
                        product_id,
                    )[k] == i;
                let t = items@[k];
                assert((t.0 as int, t.1 as int, t.2 as int) == old(self).triple_of(i));
                assert(old(self).dated_at(t));
                assert(Warehouse::position_collected(rem@, t));
                let a = choose|a: int| 0 <= a < rem@.len() && (#[trigger] rem@[a]).0 == t;
                old(self).lemma_valid_pos(t.0 as int, t.1 as int, t.2 as int);
                assert(positions[a] == i);
            }
            lemma_dated_cover_bound(old(self).flat(), product_id, positions);
            assert(rem@.len() == count_dated_id(old(self).flat(), product_id));
        }
        let mut rem = rem;
        if rem.len() < qty {
            return match self.remove_all_items(product_id) {
                Ok(()) => Ok(()),
                Err(e) => Err(e),
            };
        }
        let ghost mut removed: Seq<int> = Seq::empty();
        let mut k: usize = 0;
        while k < qty
            invariant
                0 <= k <= qty,
                self.wf(),
                self.same_shape(*old(self)),
                self.capacity == old(self).capacity,
                self.row_count == old(self).row_count,
                self.column_count == old(self).column_count,
                self.available_space == old(self).available_space + k,
                count_id(self.flat(), product_id) == count_id(old(self).flat(), product_id) - k,
                self.flat().len() == old(self).flat().len(),
                rem@.len() + k >= qty,
                removed.len() == k,
                forall|a: int, b: int| 0 <= a < b < removed.len() ==> removed[a] != removed[b],
                forall|a: int|
                    0 <= a < removed.len() ==> 0 <= #[trigger] removed[a] < old(self).flat().len() && dated_of(old(self).flat()[removed[a]], product_id),
                forall|i: int|
                    0 <= i < old(self).flat().len() ==> #[trigger] self.flat()[i] == (
                    if removed.contains(i) {
                        None
                    } else {
                        old(self).flat()[i]
                    }),
                forall|a: int, b: int| 0 <= a < b < rem@.len() ==> rem@[a].0 != rem@[b].0,
                forall|a: int|
                    0 <= a < rem@.len() ==> old(self).dated_at((#[trigger] rem@[a]).0) && holds_id(
                        old(self).flat()[old(self).pos_of(
                            rem@[a].0.0 as int,
                            rem@[a].0.1 as int,
                            rem@[a].0.2 as int,
                        )],
                        product_id,
                    ) && !removed.contains(
                        old(self).pos_of(
                            rem@[a].0.0 as int,
                            rem@[a].0.1 as int,
                            rem@[a].0.2 as int,
                        ),
                    ),
                forall|i: int|
                    0 <= i < old(self).flat().len() && dated_of(
                        #[trigger] old(self).flat()[i],
                        product_id,
                    ) && !removed.contains(i) ==> exists|a: int|
                        0 <= a < rem@.len() && old(self).pos_of(
                            (#[trigger] rem@[a]).0.0 as int,
                            rem@[a].0.1 as int,
                            rem@[a].0.2 as int,
                        ) == i,
                forall|a: int, b: int|
                    0 <= a < removed.len() && 0 <= b < rem@.len() ==> occ_date(
                        old(self).flat()[#[trigger] removed[a]],
                    ).le((#[trigger] rem@[b]).1),
                forall|a: int|
                    0 <= a < rem@.len() ==> (#[trigger] rem@[a]).1 == occ_date(
                        old(self).flat()[old(self).pos_of(
                            rem@[a].0.0 as int,
                            rem@[a].0.1 as int,
                            rem@[a].0.2 as int,
                        )],
                    ),
            decreases qty - k,
        {
            let m = rem.len();
            let mut idx: usize = 0;
            let mut a: usize = 1;
            proof {
                Date::lemma_le_total(rem@[0].1, rem@[0].1);
            }
            while a < m
                invariant
                    1 <= a <= m,
                    m == rem@.len(),
                    0 <= idx < a,
                    forall|b: int| 0 <= b < a ==> rem@[idx as int].1.le((#[trigger] rem@[b]).1),
                decreases m - a,
            {
                if rem[a].1.is_le(&rem[idx].1) {
                    let ghost previdx = idx;
                    idx = a;
                    proof {
                        Date::lemma_le_total(rem@[a as int].1, rem@[a as int].1);
                        assert forall|b: int| 0 <= b < a + 1 implies rem@[idx as int].1.le(
                            (#[trigger] rem@[b]).1,
                        ) by {
                            Date::lemma_le_trans(
                                rem@[idx as int].1,
                                rem@[previdx as int].1,
                                rem@[b].1,
                            );
                        }
                    }
                } else {
                    proof {
                        Date::lemma_le_total(rem@[a as int].1, rem@[idx as int].1);
                    }
                }
                a = a + 1;
            }
            let t = rem[idx].0;
            let ghost pt = old(self).pos_of(t.0 as int, t.1 as int, t.2 as int);
            proof {
                assert(old(self).dated_at(t));
                old(self).lemma_valid_pos(t.0 as int, t.1 as int, t.2 as int);
                Warehouse::lemma_same_shape_pos(*self, *old(self));
                assert(!removed.contains(pt));
                assert(self.flat()[pt] == old(self).flat()[pt]);
            }
            let ghost pre = *self;
            match self.remove_item(t.0, t.1, t.2) {
                Ok(()) => {},
                Err(e) => {
                    proof {
                        assert(false);
                    }
                    return Err(e);
                },
            }
            proof {
                assert(self.flat() == pre.flat().update(pt, None));
                lemma_count_id_update(pre.flat(), pt, None, product_id);
            }
            let ghost removed0 = removed;
            let ghost rem0 = rem@;
            proof {
                removed = removed.push(pt);
            }
            rem.remove(idx);
            proof {
                assert forall|a2: int, b2: int|
                    0 <= a2 < b2 < removed.len() implies removed[a2] != removed[b2] by {
                    if b2 == removed.len() - 1 {
                        assert(!removed0.contains(removed0[a2]) ==> false);
                        assert(removed[b2] == pt);
                        let orig = a2;
                        assert(removed0[orig] == removed[a2]);
                        if removed[a2] == pt {
                            assert(removed0.contains(pt));
                            assert(!removed0.contains(pt));
                        }
                    }
                }
                assert forall|i: int|
                    0 <= i < old(self).flat().len() implies #[trigger] self.flat()[i] == (
                    if removed.contains(i) {
                        None
                    } else {
                        old(self).flat()[i]
                    }) by {
                    if removed0.contains(i) {
                        let w = choose|w: int| 0 <= w < removed0.len() && removed0[w] == i;
                        assert(removed[w] == i);
                        assert(removed.contains(i));
                        assert(i != pt);
                    } else if i == pt {
                        assert(removed[removed.len() - 1] == pt);
                        assert(removed.contains(pt));
                    } else {
                        if removed.contains(i) {
                            let w = choose|w: int| 0 <= w < removed.len() && removed[w] == i;
                            assert(w < removed0.len() ==> removed0[w] == i);
                        }
                    }
                }
                assert forall|a2: int, b2: int|
                    0 <= a2 < b2 < rem@.len() implies rem@[a2].0 != rem@[b2].0 by {
                    assert(rem@[a2] == if a2 < idx {
                        rem0[a2]
                    } else {
                        rem0[a2 + 1]
                    });
                    assert(rem@[b2] == if b2 < idx {
                        rem0[b2]
                    } else {
                        rem0[b2 + 1]
                    });
                }
                assert forall|a2: int|
                    0 <= a2 < rem@.len() implies old(self).dated_at((#[trigger] rem@[a2]).0)
                    && holds_id(
                    old(self).flat()[old(self).pos_of(
                        rem@[a2].0.0 as int,
                        rem@[a2].0.1 as int,
                        rem@[a2].0.2 as int,
                    )],
                    product_id,
                ) && !removed.contains(
                    old(self).pos_of(
                        rem@[a2].0.0 as int,
                        rem@[a2].0.1 as int,
                        rem@[a2].0.2 as int,
                    ),
                ) && (#[trigger] rem@[a2]).1 == occ_date(
                    old(self).flat()[old(self).pos_of(
                        rem@[a2].0.0 as int,
                        rem@[a2].0.1 as int,
                        rem@[a2].0.2 as int,
                    )],
                ) by {
                    let orig = if a2 < idx {
                        a2
                    } else {
                        a2 + 1
                    };
                    assert(rem@[a2] == rem0[orig]);
                    assert(rem0[orig].0 != rem0[idx as int].0);
                    old(self).lemma_valid_pos(
                        rem0[orig].0.0 as int,
                        rem0[orig].0.1 as int,
                        rem0[orig].0.2 as int,
                    );
                    old(self).lemma_valid_pos(t.0 as int, t.1 as int, t.2 as int);
                    let pa = old(self).pos_of(
                        rem0[orig].0.0 as int,
                        rem0[orig].0.1 as int,
                        rem0[orig].0.2 as int,
                    );
                    assert(pa != pt);
                    if removed.contains(pa) {
                        let w = choose|w: int| 0 <= w < removed.len() && removed[w] == pa;
                        if w < removed0.len() {
                            assert(removed0[w] == pa);
                            assert(!removed0.contains(pa) ==> false);
                        } else {
                            assert(removed[w] == pt);
                        }
                        assert(false);
                    }
                }
                assert forall|i: int|
                    0 <= i < old(self).flat().len() && dated_of(
                        #[trigger] old(self).flat()[i],
                        product_id,
                    ) && !removed.contains(i) implies exists|a2: int|
                    0 <= a2 < rem@.len() && old(self).pos_of(
                        (#[trigger] rem@[a2]).0.0 as int,
                        rem@[a2].0.1 as int,
                        rem@[a2].0.2 as int,
                    ) == i by {
                    assert(!removed0.contains(i)) by {
                        if removed0.contains(i) {
                            let w = choose|w: int| 0 <= w < removed0.len() && removed0[w] == i;
                            assert(removed[w] == i);
                        }
                    }
                    let a0 = choose|a0: int|
                        0 <= a0 < rem0.len() && old(self).pos_of(
                            (#[trigger] rem0[a0]).0.0 as int,
                            rem0[a0].0.1 as int,
                            rem0[a0].0.2 as int,
                        ) == i;
                    assert(i != pt) by {
                        assert(removed[removed.len() - 1] == pt);
                    }
                    assert(a0 != idx) by {
                        if a0 == idx {
                            assert(old(self).pos_of(
                                rem0[idx as int].0.0 as int,
                                rem0[idx as int].0.1 as int,
                                rem0[idx as int].0.2 as int,
                            ) == pt);
                        }
                    }
                    let a2 = if a0 < idx {
                        a0
                    } else {
                        a0 - 1
                    };
                    assert(rem@[a2] == rem0[a0]);
                }
                assert forall|a2: int, b2: int|
                    0 <= a2 < removed.len() && 0 <= b2 < rem@.len() implies occ_date(
                    old(self).flat()[#[trigger] removed[a2]],
                ).le((#[trigger] rem@[b2]).1) by {
                    let orig = if b2 < idx {
                        b2
                    } else {
                        b2 + 1
                    };
                    assert(rem@[b2] == rem0[orig]);
                    if a2 < removed0.len() {
                        assert(removed[a2] == removed0[a2]);
                        assert(occ_date(old(self).flat()[removed0[a2]]).le(rem0[orig].1));
                    } else {
                        assert(removed[a2] == pt);
                        assert(occ_date(old(self).flat()[pt]) == rem0[idx as int].1);
                        assert(rem0[idx as int].1.le(rem0[orig].1));
                    }
                }
            }
            k = k + 1;
        }
        proof {
            assert(Warehouse::removed_earliest(
                old(self).flat(),
                self.flat(),
                product_id,
                qty as int,
                removed,
            )) by {
                assert forall|a: int, i: int|
                    0 <= a < removed.len() && 0 <= i < old(self).flat().len() && dated_of(
                        #[trigger] old(self).flat()[i],
                        product_id,
                    ) && !removed.contains(i) implies occ_date(
                    old(self).flat()[#[trigger] removed[a]],
                ).le(occ_date(old(self).flat()[i])) by {
                    let b = choose|b: int|
                        0 <= b < rem@.len() && old(self).pos_of(
                            (#[trigger] rem@[b]).0.0 as int,
                            rem@[b].0.1 as int,
                            rem@[b].0.2 as int,
                        ) == i;
                    assert(rem@[b].1 == occ_date(old(self).flat()[i]));
                }
            }
        }
        Ok(())
    }
}

/// Capacity bookkeeping aggregates exactly: the grid's capacity and free
/// space are the sums of its rows', and each row's are the sums of its
/// columns'. This holds in every well-formed state, so it holds after every
/// operation, each of which preserves well-formedness.
pub proof fn lemma_capacity_aggregates(w: Warehouse)
    requires
        w.wf(),
    ensures
        w.capacity == sum_ints(w.rows@.map_values(|r: Row| r.capacity as int)),
        w.available_space == sum_ints(w.rows@.map_values(|r: Row| r.available_space as int)),
        forall|k: int|
            0 <= k < w.rows@.len() ==> (#[trigger] w.rows@[k]).capacity as int == sum_ints(
                w.rows@[k].columns@.map_values(|c: Column| c.capacity as int),
            ) && w.rows@[k].available_space as int == sum_ints(
                w.rows@[k].columns@.map_values(|c: Column| c.available_space as int),
            ),
{
    let f = |o: Occupancy| if o is None { 1int } else { 0int };
    crate::seqtools::lemma_cat_len_sum(w.row_occs());
    assert(w.row_occs().map_values(|b: Seq<Occupancy>| b.len() as int) =~= w.rows@.map_values(
        |r: Row| r.capacity as int,
    ));
    lemma_weight_cat(w.row_occs(), f);
    assert(block_weights(w.row_occs(), f) =~= w.rows@.map_values(
        |r: Row| r.available_space as int,
    ));
    assert forall|k: int|
        0 <= k < w.rows@.len() implies (#[trigger] w.rows@[k]).capacity as int == sum_ints(
        w.rows@[k].columns@.map_values(|c: Column| c.capacity as int),
    ) && w.rows@[k].available_space as int == sum_ints(
        w.rows@[k].columns@.map_values(|c: Column| c.available_space as int),
    ) by {
        let row = w.rows@[k];
        crate::seqtools::lemma_cat_len_sum(row.col_occs());
        assert(row.col_occs().map_values(|b: Seq<Occupancy>| b.len() as int)
            =~= row.columns@.map_values(|c: Column| c.capacity as int));
        lemma_weight_cat(row.col_occs(), f);
        assert(block_weights(row.col_occs(), f) =~= row.columns@.map_values(
            |c: Column| c.available_space as int,
        ));
    }
}

/// Round trip: after any sequence of successful placements of a product that
/// the grid did not hold before, removing all of its items leaves zero
/// occurrences and restores the free space to its value before the
/// placements. The two middle hypotheses are exactly what the placement
/// contract guarantees, summed over the sequence of calls.
pub proof fn lemma_round_trip(
    pre: Warehouse,
    mid: Warehouse,
    post: Warehouse,
    product_id: u32,
    total_added: int,
)
    requires
        count_id(pre.flat(), product_id) == 0,
        count_id(mid.flat(), product_id) == total_added,
        mid.available_space == pre.available_space - total_added,
        post.flat() == erase_id(mid.flat(), product_id),
        post.available_space == mid.available_space + count_id(mid.flat(), product_id),
    ensures
        count_id(post.flat(), product_id) == 0,
        !has_id_in(post.flat(), product_id),
        post.available_space == pre.available_space,
{
    lemma_erase_id(mid.flat(), product_id);
    lemma_count_id_zero(post.flat(), product_id);
}

/// Contiguity after a clean placement: when every occurrence of a product
/// occupies one run of consecutive flat positions lying inside a single
/// column, the product is stored contiguously in the sense of the per-product
/// test: same row, same column, zone numbers stepping by one. This covers
/// placements of a fresh product, and continuations of a contiguous one,
/// whenever the chosen run does not cross a column boundary; a run that does
/// cross one leaves the product scattered over two columns.
pub proof fn lemma_column_run_is_contiguous(w: Warehouse, id: u32, r: int, c: int, z: int, len: int)
    requires
        w.wf(),
        w.valid_pos(r, c, z),
        len >= 0,
        z - 1 + len <= w.rows@[r - 1].col_occs()[c - 1].len(),
        forall|i: int|
            0 <= i < w.flat().len() ==> (holds_id(#[trigger] w.flat()[i], id) <==> w.pos_of(r, c, z)
                <= i < w.pos_of(r, c, z) + len),
    ensures
        w.stored_contiguously(id),
{
    lemma_hits(w.flat(), id);
    w.lemma_valid_pos(r, c, z);
    let h = hits(w.flat(), id);
    let p0 = w.pos_of(r, c, z);
    let row = w.rows@[r - 1];
    let rowstart = offset_of(w.row_occs(), r - 1);
    let colstart = rowstart + offset_of(row.col_occs(), c - 1);
    crate::seqtools::lemma_offset_bounds(row.col_occs(), c - 1);
    crate::seqtools::lemma_offset_bounds(row.col_occs(), c as int);
    assert(offset_of(row.col_occs(), c as int) == offset_of(row.col_occs(), c - 1)
        + row.col_occs()[c - 1].len());
    crate::seqtools::lemma_offset_total(row.col_occs());
    assert forall|j: int| 0 <= j < h.len() - 1 implies {
        let a = w.triple_of(#[trigger] h[j]);
        let b = w.triple_of(h[j + 1]);
        b.0 == a.0 && b.1 == a.1 && b.2 == a.2 + 1
    } by {
        let pa = h[j];
        let pb = h[j + 1];
        assert(holds_id(w.flat()[pa], id));
        assert(holds_id(w.flat()[pb], id));
        assert(p0 <= pa < p0 + len);
        assert(p0 <= pb < p0 + len);
        if pb > pa + 1 {
            assert(holds_id(w.flat()[pa + 1], id));
            assert(h.contains(pa + 1));
            let j2 = choose|j2: int| 0 <= j2 < h.len() && h[j2] == pa + 1;
            if j2 <= j {
                if j2 < j {
                    assert(h[j2] < h[j]);
                }
                assert(false);
            }
            if j2 >= j + 1 {
                if j2 > j + 1 {
                    assert(h[j + 1] < h[j2]);
                }
                assert(false);
            }
            assert(false);
        }
        assert forall|p: int| p0 <= p < p0 + len implies w.triple_of(p) == (r, c, p - colstart
            + 1) by {
            crate::seqtools::lemma_block_of_offset(w.row_occs(), r - 1, p - rowstart);
            crate::seqtools::lemma_block_of_offset(row.col_occs(), c - 1, p - colstart);
        }
    }
}

/// Defragmentation correctness for the moved units: when the grid's
/// defragmentation has moved the grouped, dated units of a product into the
/// region starting at `start` (the relation its contract states), the region
/// holds dated units whose expiration dates run non-decreasing along it. The
/// law speaks of the moved units alone: undated occupants are never moved,
/// so a product with undated units can stay partly outside the region.
pub proof fn lemma_defrag_region_ordered(
    pre: Warehouse,
    post: Warehouse,
    groups: Seq<(Date, Vec<(usize, usize, usize)>)>,
    start: int,
)
    requires
        forall|j: int, q: int|
            0 <= j < groups.len() && 0 <= q < (#[trigger] groups[j]).1@.len() ==> pre.dated_at(
                #[trigger] groups[j].1@[q],
            ) && pre.date_of(groups[j].1@[q]) == groups[j].0,
        forall|j1: int, j2: int|
            0 <= j1 < j2 < groups.len() ==> (#[trigger] groups[j1]).0.le((#[trigger] groups[j2]).0),
        forall|q: int|
            0 <= q < Warehouse::group_positions(groups).len() ==> #[trigger] post.flat()[start + q]
                == pre.flat()[pre.pos_of(
                (Warehouse::group_positions(groups)[q]).0 as int,
                (Warehouse::group_positions(groups)[q]).1 as int,
                (Warehouse::group_positions(groups)[q]).2 as int,
            )],
    ensures
        forall|q1: int, q2: int|
            0 <= q1 <= q2 < Warehouse::group_positions(groups).len() ==> {
                let u1 = #[trigger] post.flat()[start + q1];
                let u2 = #[trigger] post.flat()[start + q2];
                u1 matches Some(p1) && u2 matches Some(p2) && (p1.1 matches Some(d1) && (
                p2.1 matches Some(d2) && d1.le(d2)))
            },
{
    let gseq = groups.map_values(|g: (Date, Vec<(usize, usize, usize)>)| g.1@);
    assert forall|q1: int, q2: int|
        0 <= q1 <= q2 < Warehouse::group_positions(groups).len() implies {
        let u1 = #[trigger] post.flat()[start + q1];
        let u2 = #[trigger] post.flat()[start + q2];
        u1 matches Some(p1) && u2 matches Some(p2) && (p1.1 matches Some(d1) && (p2.1 matches Some(
            d2,
        ) && d1.le(d2)))
    } by {
        crate::seqtools::lemma_block_of(gseq, q1);
        crate::seqtools::lemma_block_of(gseq, q2);
        crate::seqtools::lemma_block_of_mono(gseq, q1, q2);
        let j1 = block_of(gseq, q1);
        let j2 = block_of(gseq, q2);
        let t1 = Warehouse::group_positions(groups)[q1];
        let t2 = Warehouse::group_positions(groups)[q2];
        assert(t1 == groups[j1].1@[q1 - offset_of(gseq, j1)]);
        assert(t2 == groups[j2].1@[q2 - offset_of(gseq, j2)]);
        assert(pre.dated_at(t1) && pre.date_of(t1) == groups[j1].0);
        assert(pre.dated_at(t2) && pre.date_of(t2) == groups[j2].0);
        if j1 == j2 {
            Date::lemma_le_total(groups[j1].0, groups[j1].0);
        }
    }
}

impl Default for Warehouse {
    fn default() -> (w: Self)
        ensures
            w.rows@.len() == 0,
            w.wf(),
    {
        Warehouse::new()
    }
}

} // verus!
