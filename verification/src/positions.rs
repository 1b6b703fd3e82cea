//! The position calculator: from the bands to a column count and a column
//! offset for every event.

use crate::matrix::band_views;
use crate::types::{EventPosition, EventsMatrix};
use vstd::prelude::*;

verus! {

/// Some identifier of band `a` stands in band `b` too.
pub open spec fn shares_id(a: Seq<u16>, b: Seq<u16>) -> bool {
    exists|i: int| 0 <= i < a.len() && b.contains(#[trigger] a[i])
}

/// The length of the longest among the first `n` bands that share an
/// identifier with band `r`; 0 if none does.
pub open spec fn widest_sharing(bands: Seq<Seq<u16>>, r: int, n: int) -> nat
    decreases n,
{
    if n <= 0 {
        0
    } else {
        let before = widest_sharing(bands, r, n - 1);
        if shares_id(bands[r], bands[n - 1]) && bands[n - 1].len() > before {
            bands[n - 1].len()
        } else {
            before
        }
    }
}

/// The number of columns of band `r`: the length of the longest band that
/// shares an identifier with it.
pub open spec fn band_width(bands: Seq<Seq<u16>>, r: int) -> nat {
    widest_sharing(bands, r, bands.len() as int)
}

/// The identifier `id` has a position in `placed`.
pub open spec fn is_placed(placed: Seq<EventPosition>, id: u16) -> bool {
    exists|k: int| 0 <= k < placed.len() && #[trigger] placed[k].id == id
}

/// The positions after the first `n` members of band `r` were looked at: a
/// member that has no position yet gets one, with the band's number of
/// columns and its own place in the band as offset.
pub open spec fn place_band(
    bands: Seq<Seq<u16>>,
    r: int,
    n: int,
    placed: Seq<EventPosition>,
) -> Seq<EventPosition>
    decreases n,
{
    if n <= 0 {
        placed
    } else {
        let before = place_band(bands, r, n - 1, placed);
        let id = bands[r][n - 1];
        if is_placed(before, id) {
            before
        } else {
            before.push(
                EventPosition {
                    id,
                    columns: band_width(bands, r) as usize,
                    offset: (n - 1) as usize,
                },
            )
        }
    }
}

/// The positions after the first `n` bands were gone through.
pub open spec fn place_bands(bands: Seq<Seq<u16>>, n: int) -> Seq<EventPosition>
    decreases n,
{
    if n <= 0 {
        Seq::empty()
    } else {
        place_band(bands, n - 1, bands[n - 1].len() as int, place_bands(bands, n - 1))
    }
}

/// The positions of all identifiers in the bands: one for each, in the order
/// in which the identifiers first appear, band after band.
pub open spec fn positions_of(bands: Seq<Seq<u16>>) -> Seq<EventPosition> {
    place_bands(bands, bands.len() as int)
}

/// The longest band's length bounds the number of columns of every band.
pub proof fn lemma_widest_sharing_bounds(bands: Seq<Seq<u16>>, r: int, n: int, bound: nat)
    requires
        0 <= n <= bands.len(),
        forall|b: int| 0 <= b < n ==> (#[trigger] bands[b]).len() <= bound,
    ensures
        widest_sharing(bands, r, n) <= bound,
    decreases n,
{
    if n > 0 {
        lemma_widest_sharing_bounds(bands, r, n - 1, bound);
    }
}

/// A band that is not empty has at least as many columns as it has members.
pub proof fn lemma_widest_sharing_own(bands: Seq<Seq<u16>>, r: int, n: int)
    requires
        0 <= r < n <= bands.len(),
        bands[r].len() > 0,
    ensures
        widest_sharing(bands, r, n) >= bands[r].len(),
    decreases n,
{
    if n - 1 == r {
        assert(bands[r].contains(bands[r][0]));
        assert(shares_id(bands[r], bands[r]));
    } else {
        lemma_widest_sharing_own(bands, r, n - 1);
    }
}

/// The identifier `id` first appears in band `b`, and there first at place `j`.
pub open spec fn first_seen_at(bands: Seq<Seq<u16>>, id: u16, b: int, j: int) -> bool {
    &&& 0 <= b < bands.len()
    &&& 0 <= j < bands[b].len()
    &&& bands[b][j] == id
    &&& forall|c: int| 0 <= c < b ==> !(#[trigger] bands[c]).contains(id)
    &&& forall|i: int| 0 <= i < j ==> #[trigger] bands[b][i] != id
}

/// The position is the one that its identifier gets where it first appears,
/// in band `b` at place `j`: the band's number of columns, and the place as
/// offset.
pub open spec fn seated_at(bands: Seq<Seq<u16>>, position: EventPosition, b: int, j: int) -> bool {
    &&& first_seen_at(bands, position.id, b, j)
    &&& position.columns == band_width(bands, b) as usize
    &&& position.offset == j as usize
}

/// The position is the one that its identifier gets where it first appears,
/// and that is in one of the first `n` bands.
pub open spec fn seated(bands: Seq<Seq<u16>>, position: EventPosition, n: int) -> bool {
    exists|b: int, j: int| 0 <= b < n && #[trigger] seated_at(bands, position, b, j)
}

/// No identifier has two positions.
pub open spec fn distinct_ids(positions: Seq<EventPosition>) -> bool {
    forall|k: int, l: int|
        #![trigger positions[k], positions[l]]
        0 <= k < l < positions.len() ==> positions[k].id != positions[l].id
}

proof fn lemma_place_band(bands: Seq<Seq<u16>>, r: int, n: int, placed: Seq<EventPosition>)
    requires
        0 <= r < bands.len(),
        0 <= n <= bands[r].len(),
        distinct_ids(placed),
        forall|c: int, i: int|
            0 <= c < r && 0 <= i < bands[c].len() ==> #[trigger] is_placed(placed, bands[c][i]),
        forall|k: int| 0 <= k < placed.len() ==> #[trigger] seated(bands, placed[k], r),
    ensures
        distinct_ids(place_band(bands, r, n, placed)),
        placed.len() <= place_band(bands, r, n, placed).len(),
        place_band(bands, r, n, placed).subrange(0, placed.len() as int) == placed,
        forall|i: int|
            0 <= i < n ==> #[trigger] is_placed(place_band(bands, r, n, placed), bands[r][i]),
        forall|k: int|
            0 <= k < place_band(bands, r, n, placed).len() ==> #[trigger] seated(
                bands,
                place_band(bands, r, n, placed)[k],
                r + 1,
            ),
    decreases n,
{
    let after = place_band(bands, r, n, placed);
    if n <= 0 {
        assert(placed.subrange(0, placed.len() as int) =~= placed);
        assert forall|k: int| 0 <= k < after.len() implies #[trigger] seated(
            bands,
            after[k],
            r + 1,
        ) by {
            assert(seated(bands, placed[k], r));
            let (b, j) = choose|b: int, j: int|
                0 <= b < r && #[trigger] seated_at(bands, placed[k], b, j);
            assert(0 <= b < r + 1 && seated_at(bands, after[k], b, j));
        }
    } else {
        lemma_place_band(bands, r, n - 1, placed);
        let before = place_band(bands, r, n - 1, placed);
        let id = bands[r][n - 1];
        assert(before.subrange(0, placed.len() as int) == placed);
        assert(after.subrange(0, placed.len() as int) =~= before.subrange(0, placed.len() as int));
        if is_placed(before, id) {
        } else {
            let seat = EventPosition {
                id,
                columns: band_width(bands, r) as usize,
                offset: (n - 1) as usize,
            };
            assert(after == before.push(seat));
            assert forall|c: int| 0 <= c < r implies !(#[trigger] bands[c]).contains(id) by {
                if bands[c].contains(id) {
                    let i = choose|i: int| 0 <= i < bands[c].len() && bands[c][i] == id;
                    assert(is_placed(placed, bands[c][i]));
                    let k = choose|k: int| 0 <= k < placed.len() && #[trigger] placed[k].id == id;
                    assert(before.subrange(0, placed.len() as int)[k] == before[k]);
                    assert(before[k].id == id);
                }
            }
            assert forall|i: int| 0 <= i < n - 1 implies #[trigger] bands[r][i] != id by {
                assert(is_placed(before, bands[r][i]));
            }
            assert(seated_at(bands, seat, r, n - 1));
            assert(seated(bands, seat, r + 1));
            assert forall|k: int| 0 <= k < after.len() implies #[trigger] seated(
                bands,
                after[k],
                r + 1,
            ) by {
                if k < before.len() {
                    assert(after[k] == before[k]);
                } else {
                    assert(after[k] == seat);
                }
            }
            assert forall|k: int, l: int| 0 <= k < l < after.len() implies (#[trigger] after[k]).id
                != (#[trigger] after[l]).id by {
                if l < before.len() {
                    assert(after[k] == before[k] && after[l] == before[l]);
                } else {
                    assert(after[k] == before[k]);
                    assert(before[k].id != id);
                }
            }
        }
        assert forall|i: int| 0 <= i < n implies #[trigger] is_placed(after, bands[r][i]) by {
            if i < n - 1 {
                assert(is_placed(before, bands[r][i]));
                let k = choose|k: int|
                    0 <= k < before.len() && #[trigger] before[k].id == bands[r][i];
                assert(after[k].id == bands[r][i]);
            } else if is_placed(before, id) {
            } else {
                assert(after[after.len() - 1].id == id);
            }
        }
    }
}

proof fn lemma_place_bands(bands: Seq<Seq<u16>>, n: int)
    requires
        0 <= n <= bands.len(),
    ensures
        distinct_ids(place_bands(bands, n)),
        forall|c: int, i: int|
            0 <= c < n && 0 <= i < bands[c].len() ==> #[trigger] is_placed(
                place_bands(bands, n),
                bands[c][i],
            ),
        forall|k: int|
            0 <= k < place_bands(bands, n).len() ==> #[trigger] seated(
                bands,
                place_bands(bands, n)[k],
                n,
            ),
    decreases n,
{
    if n > 0 {
        let placed = place_bands(bands, n - 1);
        let after = place_bands(bands, n);
        lemma_place_bands(bands, n - 1);
        lemma_place_band(bands, n - 1, bands[n - 1].len() as int, placed);
        assert forall|c: int, i: int|
            0 <= c < n && 0 <= i < bands[c].len() implies #[trigger] is_placed(
            after,
            bands[c][i],
        ) by {
            if c < n - 1 {
                assert(is_placed(placed, bands[c][i]));
                let k = choose|k: int|
                    0 <= k < placed.len() && #[trigger] placed[k].id == bands[c][i];
                assert(after.subrange(0, placed.len() as int)[k] == after[k]);
                assert(after[k].id == bands[c][i]);
            }
        }
        assert forall|k: int| 0 <= k < after.len() implies #[trigger] seated(
            bands,
            after[k],
            n,
        ) by {
            assert(seated(bands, after[k], n - 1 + 1));
        }
    }
}

/// What the positions are: every identifier in the bands has exactly one,
/// and it is the one of the place where the identifier first appears: the
/// number of columns of that band, and the place in it as offset.
pub proof fn lemma_positions_of(bands: Seq<Seq<u16>>)
    ensures
        distinct_ids(positions_of(bands)),
        forall|b: int, j: int|
            0 <= b < bands.len() && 0 <= j < bands[b].len() ==> #[trigger] is_placed(
                positions_of(bands),
                bands[b][j],
            ),
        forall|k: int|
            0 <= k < positions_of(bands).len() ==> #[trigger] seated(
                bands,
                positions_of(bands)[k],
                bands.len() as int,
            ),
{
    lemma_place_bands(bands, bands.len() as int);
}

/// The number of columns of a band is the length of one of the bands that
/// share an identifier with it, and no such band is longer.
pub proof fn lemma_widest_sharing(bands: Seq<Seq<u16>>, r: int, n: int)
    requires
        0 <= n <= bands.len(),
    ensures
        forall|b: int|
            0 <= b < n && shares_id(bands[r], #[trigger] bands[b]) ==> bands[b].len()
                <= widest_sharing(bands, r, n),
        widest_sharing(bands, r, n) > 0 ==> exists|b: int|
            0 <= b < n && shares_id(bands[r], #[trigger] bands[b]) && bands[b].len()
                == widest_sharing(bands, r, n),
    decreases n,
{
    if n > 0 {
        lemma_widest_sharing(bands, r, n - 1);
        let before = widest_sharing(bands, r, n - 1);
        if shares_id(bands[r], bands[n - 1]) && bands[n - 1].len() > before {
        } else if before > 0 {
            let b = choose|b: int|
                0 <= b < n - 1 && shares_id(bands[r], #[trigger] bands[b]) && bands[b].len()
                    == before;
            assert(0 <= b < n && shares_id(bands[r], bands[b]));
        }
    }
}

/// No band has more members than a machine can count.
pub open spec fn bands_fit(bands: Seq<Seq<u16>>) -> bool {
    forall|b: int| 0 <= b < bands.len() ==> (#[trigger] bands[b]).len() <= usize::MAX
}

/// Every position has at least one column, so that the share of the width
/// that it stands for, one column of them, is more than nothing and at most
/// the whole.
pub proof fn lemma_columns_at_least_one(bands: Seq<Seq<u16>>)
    requires
        bands_fit(bands),
    ensures
        forall|k: int|
            0 <= k < positions_of(bands).len() ==> (#[trigger] positions_of(bands)[k]).columns >= 1,
{
    assert forall|k: int| 0 <= k < positions_of(bands).len() implies (#[trigger] positions_of(
        bands,
    )[k]).columns >= 1 by {
        let position = positions_of(bands)[k];
        assert(seated(bands, position, bands.len() as int)) by {
            lemma_positions_of(bands);
        }
        let (b, j) = choose|b: int, j: int|
            0 <= b < bands.len() && #[trigger] seated_at(bands, position, b, j);
        lemma_widest_sharing_own(bands, b, bands.len() as int);
        lemma_widest_sharing_bounds(bands, b, bands.len() as int, usize::MAX as nat);
    }
}

/// The band holds an identifier of the cluster.
pub open spec fn touches(band: Seq<u16>, cluster: Set<u16>) -> bool {
    exists|i: int| 0 <= i < band.len() && cluster.contains(#[trigger] band[i])
}

/// A band that holds an identifier of the cluster holds no other identifiers.
pub open spec fn cluster_of_bands(bands: Seq<Seq<u16>>, cluster: Set<u16>) -> bool {
    forall|b: int, i: int|
        0 <= b < bands.len() && 0 <= i < bands[b].len() && touches(bands[b], cluster)
            ==> cluster.contains(#[trigger] bands[b][i])
}

/// Band `w` holds an identifier of the cluster, and no band that does is
/// longer.
pub open spec fn widest_of_cluster(bands: Seq<Seq<u16>>, cluster: Set<u16>, w: int) -> bool {
    &&& 0 <= w < bands.len()
    &&& touches(bands[w], cluster)
    &&& forall|b: int|
        0 <= b < bands.len() && #[trigger] touches(bands[b], cluster) ==> bands[b].len()
            <= bands[w].len()
}

/// Band `r` shares an identifier with a longest of the bands that hold an
/// identifier of the cluster.
pub open spec fn meets_widest(bands: Seq<Seq<u16>>, cluster: Set<u16>, r: int) -> bool {
    exists|w: int| #[trigger] widest_of_cluster(bands, cluster, w) && shares_id(bands[r], bands[w])
}

/// Every band that holds an identifier of the cluster shares an identifier
/// with a longest of these bands.
pub open spec fn cluster_bands_meet_widest(bands: Seq<Seq<u16>>, cluster: Set<u16>) -> bool {
    forall|r: int|
        0 <= r < bands.len() && touches(bands[r], cluster) ==> #[trigger] meets_widest(
            bands,
            cluster,
            r,
        )
}

/// In a cluster whose bands all share an identifier with a longest of them,
/// every identifier gets the same number of columns: the length of the
/// longest band that holds an identifier of the cluster.
pub proof fn lemma_cluster_width(bands: Seq<Seq<u16>>, cluster: Set<u16>, k: int)
    requires
        cluster_of_bands(bands, cluster),
        cluster_bands_meet_widest(bands, cluster),
        bands_fit(bands),
        0 <= k < positions_of(bands).len(),
        cluster.contains(positions_of(bands)[k].id),
    ensures
        forall|b: int|
            0 <= b < bands.len() && #[trigger] touches(bands[b], cluster) ==> bands[b].len()
                <= positions_of(bands)[k].columns,
        exists|b: int|
            0 <= b < bands.len() && #[trigger] touches(bands[b], cluster) && bands[b].len()
                == positions_of(bands)[k].columns,
{
    let position = positions_of(bands)[k];
    assert(seated(bands, position, bands.len() as int)) by {
        lemma_positions_of(bands);
    }
    let (r, j) = choose|r: int, j: int|
        0 <= r < bands.len() && #[trigger] seated_at(bands, position, r, j);
    let width = band_width(bands, r);
    assert(bands[r].len() <= width <= usize::MAX) by {
        lemma_widest_sharing_own(bands, r, bands.len() as int);
        lemma_widest_sharing_bounds(bands, r, bands.len() as int, usize::MAX as nat);
    }
    assert(position.columns == width);
    assert(touches(bands[r], cluster)) by {
        assert(cluster.contains(bands[r][j]));
    }
    assert(meets_widest(bands, cluster, r));
    let w = choose|w: int|
        #[trigger] widest_of_cluster(bands, cluster, w) && shares_id(bands[r], bands[w]);
    lemma_widest_sharing(bands, r, bands.len() as int);
    assert(bands[w].len() <= width);
    let widest = choose|b: int|
        0 <= b < bands.len() && shares_id(bands[r], #[trigger] bands[b]) && bands[b].len() == width;
    assert(touches(bands[widest], cluster)) by {
        let i = choose|i: int|
            0 <= i < bands[r].len() && bands[widest].contains(#[trigger] bands[r][i]);
        assert(cluster.contains(bands[r][i]));
        let h = choose|h: int| 0 <= h < bands[widest].len() && bands[widest][h] == bands[r][i];
        assert(cluster.contains(bands[widest][h]));
    }
    assert(bands[widest].len() <= bands[w].len());
    assert(touches(bands[w], cluster) && bands[w].len() == position.columns);
}

/// Band `b` holds each member at the place at which the member first
/// appeared in the bands.
pub open spec fn keeps_places(bands: Seq<Seq<u16>>, b: int) -> bool {
    forall|j: int, r: int, i: int|
        0 <= j < bands[b].len() && #[trigger] first_seen_at(bands, bands[b][j], r, i) ==> i == j
}

/// In a band that keeps the places of its members, the offset of a member is
/// its place in the band: no two members of the band get the same offset.
pub proof fn lemma_offsets_in_band(bands: Seq<Seq<u16>>, b: int, i: int, j: int, k: int, l: int)
    requires
        0 <= b < bands.len(),
        keeps_places(bands, b),
        bands[b].len() <= usize::MAX,
        0 <= i < bands[b].len(),
        0 <= j < bands[b].len(),
        0 <= k < positions_of(bands).len(),
        0 <= l < positions_of(bands).len(),
        positions_of(bands)[k].id == bands[b][i],
        positions_of(bands)[l].id == bands[b][j],
    ensures
        positions_of(bands)[k].offset == i,
        positions_of(bands)[l].offset == j,
        i != j ==> positions_of(bands)[k].offset != positions_of(bands)[l].offset,
{
    let first = positions_of(bands)[k];
    let second = positions_of(bands)[l];
    let n = bands.len() as int;
    assert(seated(bands, first, n) && seated(bands, second, n)) by {
        lemma_positions_of(bands);
    }
    let (r, x) = choose|r: int, x: int|
        0 <= r < bands.len() && #[trigger] seated_at(bands, first, r, x);
    let (t, y) = choose|t: int, y: int|
        0 <= t < bands.len() && #[trigger] seated_at(bands, second, t, y);
    assert(first_seen_at(bands, bands[b][i], r, x));
    assert(first_seen_at(bands, bands[b][j], t, y));
}

fn contains_id(row: &Vec<u16>, id: u16) -> (found: bool)
    ensures
        found == row@.contains(id),
{
    let mut i: usize = 0;
    while i < row.len()
        invariant
            i <= row.len(),
            forall|j: int| 0 <= j < i ==> row@[j] != id,
        decreases row.len() - i,
    {
        if row[i] == id {
            return true;
        }
        i += 1;
    }
    false
}

fn has_shared_id(row: &Vec<u16>, cur_row: &Vec<u16>) -> (shared: bool)
    ensures
        shared == shares_id(row@, cur_row@),
{
    let mut i: usize = 0;
    while i < row.len()
        invariant
            i <= row.len(),
            forall|j: int| 0 <= j < i ==> !cur_row@.contains(#[trigger] row@[j]),
        decreases row.len() - i,
    {
        if contains_id(cur_row, row[i]) {
            return true;
        }
        i += 1;
    }
    false
}

fn is_calculated(positions: &Vec<EventPosition>, id: u16) -> (found: bool)
    ensures
        found == is_placed(positions@, id),
{
    let mut i: usize = 0;
    while i < positions.len()
        invariant
            i <= positions.len(),
            forall|j: int| 0 <= j < i ==> positions@[j].id != id,
        decreases positions.len() - i,
    {
        if positions[i].id == id {
            return true;
        }
        i += 1;
    }
    false
}

/// The number of columns of band `r`.
pub fn width_of_band(matrix: &EventsMatrix, r: usize) -> (width: usize)
    requires
        r < matrix.len(),
    ensures
        width == band_width(band_views(matrix@), r as int),
{
    let ghost bands = band_views(matrix@);
    let mut width: usize = 0;
    let mut b: usize = 0;
    while b < matrix.len()
        invariant
            b <= matrix.len(),
            r < matrix.len(),
            bands == band_views(matrix@),
            width == widest_sharing(bands, r as int, b as int),
        decreases matrix.len() - b,
    {
        if has_shared_id(&matrix[r], &matrix[b]) && matrix[b].len() > width {
            width = matrix[b].len();
        }
        b += 1;
    }
    width
}

/// Gives every identifier in the bands its position: the number of columns of
/// the band in which it first appears, and its place in that band.
pub fn calculate(matrix: EventsMatrix) -> (positions: Vec<EventPosition>)
    ensures
        positions@ == positions_of(band_views(matrix@)),
        forall|k: int| 0 <= k < positions.len() ==> (#[trigger] positions@[k]).columns >= 1,
{
    let ghost bands = band_views(matrix@);
    proof {
        assert forall|b: int| 0 <= b < bands.len() implies (#[trigger] bands[b]).len()
            <= usize::MAX by {
            assert(bands[b].len() == matrix@[b].len());
        }
        lemma_columns_at_least_one(bands);
    }
    let mut positions: Vec<EventPosition> = Vec::new();
    let mut r: usize = 0;
    while r < matrix.len()
        invariant
            r <= matrix.len(),
            bands == band_views(matrix@),
            positions@ == place_bands(bands, r as int),
        decreases matrix.len() - r,
    {
        let columns = width_of_band(&matrix, r);
        let row = &matrix[r];
        let mut offset: usize = 0;
        while offset < row.len()
            invariant
                offset <= row.len(),
                r < matrix.len(),
                *row == matrix@[r as int],
                bands == band_views(matrix@),
                columns == band_width(bands, r as int),
                positions@ == place_band(
                    bands,
                    r as int,
                    offset as int,
                    place_bands(bands, r as int),
                ),
            decreases row.len() - offset,
        {
            if !is_calculated(&positions, row[offset]) {
                positions.push(
                    EventPosition { id: row[offset], columns, offset },
                );
            }
            offset += 1;
        }
        r += 1;
    }
    positions
}

} // verus!
