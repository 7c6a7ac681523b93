//! A frame's bundle: its objects and its points split by whether some
//! object's box holds them, with a count of points per object.
use vstd::prelude::*;
use crate::objects::KittiObject;
use crate::pcd::InfoPoint;

verus! {

/// The data shown for one frame.
#[derive(Debug)]
pub struct FrameData {
    pub objects: Vec<KittiObject>,
    /// Points inside at least one object's box.
    pub points_in_range: Vec<InfoPoint>,
    /// Points inside no object's box.
    pub points_out_range: Vec<InfoPoint>,
    /// For each object, how many points its own box holds (boxes may overlap).
    pub num_points_map: Vec<usize>,
}

/// Whether some entry of a row is set.
pub open spec fn any_set(row: Seq<bool>) -> bool {
    exists|o: int| 0 <= o < row.len() && #[trigger] row[o]
}

/// The rows of a membership matrix.
pub open spec fn rows(inside: Seq<Vec<bool>>) -> Seq<Seq<bool>> {
    inside.map_values(|r: Vec<bool>| r@)
}

/// The points whose row has some entry set (`want`) or none (`!want`), in order.
pub open spec fn select(points: Seq<InfoPoint>, inside: Seq<Seq<bool>>, want: bool) -> Seq<InfoPoint>
    decreases points.len(),
{
    if points.len() == 0 || inside.len() != points.len() {
        Seq::empty()
    } else {
        let rest = select(points.drop_last(), inside.drop_last(), want);
        if any_set(inside.last()) == want {
            rest.push(points.last())
        } else {
            rest
        }
    }
}

/// How many rows have entry `o` set.
pub open spec fn count_set(inside: Seq<Seq<bool>>, o: int) -> nat
    decreases inside.len(),
{
    if inside.len() == 0 {
        0
    } else {
        count_set(inside.drop_last(), o) + if inside.last()[o] {
            1nat
        } else {
            0nat
        }
    }
}

/// Whether a matrix has one row per point and one column per object.
pub open spec fn membership_shape(inside: Seq<Seq<bool>>, n_points: nat, n_objects: nat) -> bool {
    &&& inside.len() == n_points
    &&& forall|p: int| 0 <= p < inside.len() ==> (#[trigger] inside[p]).len() == n_objects
}

fn any_in_row(row: &Vec<bool>) -> (r: bool)
    ensures
        r == any_set(row@),
{
    let mut o: usize = 0;
    while o < row.len()
        invariant
            o <= row.len(),
            forall|j: int| 0 <= j < o ==> !row@[j],
        decreases row.len() - o,
    {
        if row[o] {
            return true;
        }
        o = o + 1;
    }
    false
}

/// Every point lands in exactly one of the two lists.
pub proof fn lemma_select_partition(points: Seq<InfoPoint>, inside: Seq<Seq<bool>>)
    requires
        inside.len() == points.len(),
    ensures
        select(points, inside, true).len() + select(points, inside, false).len() == points.len(),
    decreases points.len(),
{
    if points.len() > 0 {
        lemma_select_partition(points.drop_last(), inside.drop_last());
    }
}

/// A point that some box holds is among the points in range, and a point
/// that no box holds is among the points out of range.
pub proof fn lemma_select_classifies(points: Seq<InfoPoint>, inside: Seq<Seq<bool>>, p: int)
    requires
        inside.len() == points.len(),
        0 <= p < points.len(),
    ensures
        select(points, inside, any_set(inside[p])).contains(points[p]),
        !select(points, inside, !any_set(inside[p])).contains(points[p]) || exists|q: int|
            0 <= q < points.len() && q != p && points[q] == points[p],
    decreases points.len(),
{
    let want = any_set(inside[p]);
    let n = points.len();
    if p == n - 1 {
        let rest = select(points.drop_last(), inside.drop_last(), want);
        assert(select(points, inside, want) == rest.push(points[p]));
        assert(select(points, inside, want)[rest.len() as int] == points[p]);
    } else {
        lemma_select_classifies(points.drop_last(), inside.drop_last(), p);
        assert(points.drop_last()[p] == points[p]);
        assert(inside.drop_last()[p] == inside[p]);
        let rest = select(points.drop_last(), inside.drop_last(), want);
        let j = choose|j: int| 0 <= j < rest.len() && rest[j] == points[p];
        let full = select(points, inside, want);
        if any_set(inside.last()) == want {
            assert(full[j] == points[p]);
        } else {
            assert(full[j] == points[p]);
        }
    }
    lemma_select_subset(points, inside, !want, p);
}

/// Every point in a selection comes from a row with the selected outcome.
proof fn lemma_select_subset(points: Seq<InfoPoint>, inside: Seq<Seq<bool>>, want: bool, p: int)
    requires
        inside.len() == points.len(),
        0 <= p < points.len(),
        any_set(inside[p]) != want,
    ensures
        !select(points, inside, want).contains(points[p]) || exists|q: int|
            0 <= q < points.len() && q != p && points[q] == points[p],
    decreases points.len(),
{
    let n = points.len();
    let sel = select(points, inside, want);
    let rest = select(points.drop_last(), inside.drop_last(), want);
    if sel.contains(points[p]) {
        let j = choose|j: int| 0 <= j < sel.len() && sel[j] == points[p];
        if p == n - 1 {
            assert(sel == rest);
            lemma_select_origin(points.drop_last(), inside.drop_last(), want, j);
            let q = choose|q: int| 0 <= q < n - 1 && points.drop_last()[q] == rest[j];
            assert(points[q] == points[p]);
        } else {
            lemma_select_subset(points.drop_last(), inside.drop_last(), want, p);
            assert(points.drop_last()[p] == points[p]);
            assert(inside.drop_last()[p] == inside[p]);
            if j < rest.len() {
                assert(rest[j] == sel[j]);
                assert(rest.contains(points[p]));
                let q = choose|q: int|
                    0 <= q < n - 1 && q != p && points.drop_last()[q] == points.drop_last()[p];
                assert(points[q] == points[p]);
            } else {
                assert(points[n - 1] == points[p]);
            }
        }
    }
}

/// Every point in a selection is one of the points.
proof fn lemma_select_origin(points: Seq<InfoPoint>, inside: Seq<Seq<bool>>, want: bool, j: int)
    requires
        inside.len() == points.len(),
        0 <= j < select(points, inside, want).len(),
    ensures
        exists|q: int| 0 <= q < points.len() && points[q] == select(points, inside, want)[j],
    decreases points.len(),
{
    let n = points.len();
    let rest = select(points.drop_last(), inside.drop_last(), want);
    if j < rest.len() {
        lemma_select_origin(points.drop_last(), inside.drop_last(), want, j);
        let q = choose|q: int| 0 <= q < n - 1 && points.drop_last()[q] == rest[j];
        assert(points[q] == select(points, inside, want)[j]);
    } else {
        assert(points[n - 1] == select(points, inside, want)[j]);
    }
}

/// Assembles a frame from its objects, its points, and the membership
/// matrix `inside`, where `inside[p][o]` says whether object `o`'s box
/// holds point `p`. A point goes to `points_in_range` when some box holds
/// it and to `points_out_range` when none does, keeping the points' order;
/// `num_points_map[o]` counts the points that box `o` holds.
pub fn assemble_frame(objects: Vec<KittiObject>, points: &Vec<InfoPoint>, inside: &Vec<Vec<bool>>) -> (r: FrameData)
    requires
        membership_shape(rows(inside@), points.len() as nat, objects.len() as nat),
    ensures
        r.objects@ == objects@,
        r.points_in_range@ == select(points@, rows(inside@), true),
        r.points_out_range@ == select(points@, rows(inside@), false),
        r.num_points_map@.len() == objects@.len(),
        forall|o: int|
            0 <= o < objects@.len() ==> #[trigger] r.num_points_map@[o] == count_set(rows(inside@), o),
{
    let ghost m = rows(inside@);
    let mut points_in_range: Vec<InfoPoint> = Vec::new();
    let mut points_out_range: Vec<InfoPoint> = Vec::new();
    let mut p: usize = 0;
    proof {
        assert(points@.take(0) =~= Seq::<InfoPoint>::empty());
    }
    while p < points.len()
        invariant
            p <= points.len(),
            m == rows(inside@),
            membership_shape(m, points.len() as nat, objects.len() as nat),
            points_in_range@ == select(points@.take(p as int), m.take(p as int), true),
            points_out_range@ == select(points@.take(p as int), m.take(p as int), false),
        decreases points.len() - p,
    {
        proof {
            assert(points@.take(p + 1).drop_last() =~= points@.take(p as int));
            assert(m.take(p + 1).drop_last() =~= m.take(p as int));
            assert(m[p as int] == inside@[p as int]@);
        }
        if any_in_row(&inside[p]) {
            points_in_range.push(points[p]);
        } else {
            points_out_range.push(points[p]);
        }
        p = p + 1;
    }
    proof {
        assert(points@.take(points.len() as int) =~= points@);
        assert(m.take(points.len() as int) =~= m);
    }
    let mut num_points_map: Vec<usize> = Vec::new();
    let mut o: usize = 0;
    while o < objects.len()
        invariant
            o <= objects.len(),
            m == rows(inside@),
            membership_shape(m, points.len() as nat, objects.len() as nat),
            num_points_map@.len() == o,
            forall|j: int| 0 <= j < o ==> #[trigger] num_points_map@[j] == count_set(m, j),
        decreases objects.len() - o,
    {
        let mut count: usize = 0;
        let mut q: usize = 0;
        proof {
            assert(m.take(0) =~= Seq::<Seq<bool>>::empty());
        }
        while q < points.len()
            invariant
                q <= points.len(),
                o < objects.len(),
                m == rows(inside@),
                membership_shape(m, points.len() as nat, objects.len() as nat),
                count == count_set(m.take(q as int), o as int),
                count <= q,
            decreases points.len() - q,
        {
            proof {
                assert(m.take(q + 1).drop_last() =~= m.take(q as int));
                assert(m[q as int] == inside@[q as int]@);
            }
            if inside[q][o] {
                count = count + 1;
            }
            q = q + 1;
        }
        proof {
            assert(m.take(points.len() as int) =~= m);
        }
        num_points_map.push(count);
        o = o + 1;
    }
    FrameData { objects, points_in_range, points_out_range, num_points_map }
}

} // verus!
