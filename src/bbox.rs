//! Boxes: the axis-aligned image box and the oriented 3D box.
use vstd::prelude::*;
use crate::decimal::{
    Decimal, sum_of, difference_of, half_of, pow10, lemma_denotes_unique,
    lemma_denotes_rescale, lemma_at_scale_shift, lemma_fits_unshift, lemma_normal_form_exists, negated, halvable,
};

verus! {

/// A point or vector with exact coordinates.
#[derive(Debug, Clone, Copy, PartialEq, Eq, Structural)]
pub struct Vec3 {
    pub x: Decimal,
    pub y: Decimal,
    pub z: Decimal,
}

impl Vec3 {
    pub open spec fn wf(self) -> bool {
        self.x.wf() && self.y.wf() && self.z.wf()
    }

    pub fn new(x: Decimal, y: Decimal, z: Decimal) -> (r: Vec3)
        ensures
            r == (Vec3 { x, y, z }),
    {
        Vec3 { x, y, z }
    }
}

/// An image box, held as top, left, height and width.
#[derive(Debug, Clone, Copy, PartialEq, Eq, Structural)]
pub struct BBox2D {
    pub t: Decimal,
    pub l: Decimal,
    pub h: Decimal,
    pub w: Decimal,
}

impl BBox2D {
    /// The box with corners `[top, left, bottom, right]`.
    pub fn from_tlbr(tlbr: [Decimal; 4]) -> (r: BBox2D)
        requires
            tlbr[0].wf(),
            tlbr[1].wf(),
            tlbr[2].wf(),
            tlbr[3].wf(),
            Decimal::difference_fits(tlbr[2], tlbr[0]),
            Decimal::difference_fits(tlbr[3], tlbr[1]),
        ensures
            r == (BBox2D {
                t: tlbr[0],
                l: tlbr[1],
                h: difference_of(tlbr[2], tlbr[0]),
                w: difference_of(tlbr[3], tlbr[1]),
            }),
            r.wf(),
    {
        let t = tlbr[0];
        let l = tlbr[1];
        let b = tlbr[2];
        let rr = tlbr[3];
        let h = b.checked_sub(&t).unwrap();
        let w = rr.checked_sub(&l).unwrap();
        BBox2D { t, l, h, w }
    }

    /// The box with `[top, left, height, width]`.
    pub fn from_tlhw(tlhw: [Decimal; 4]) -> (r: BBox2D)
        ensures
            r == (BBox2D { t: tlhw[0], l: tlhw[1], h: tlhw[2], w: tlhw[3] }),
    {
        BBox2D { t: tlhw[0], l: tlhw[1], h: tlhw[2], w: tlhw[3] }
    }

    pub open spec fn wf(self) -> bool {
        self.t.wf() && self.l.wf() && self.h.wf() && self.w.wf()
    }

    /// `[top, left, height, width]`.
    pub fn tlhw(&self) -> (r: [Decimal; 4])
        ensures
            r@ == seq![self.t, self.l, self.h, self.w],
    {
        let r = [self.t, self.l, self.h, self.w];
        proof {
            assert(r@ =~= seq![self.t, self.l, self.h, self.w]);
        }
        r
    }

    /// `[top, left, bottom, right]`.
    pub fn tlbr(&self) -> (r: [Decimal; 4])
        requires
            self.wf(),
            Decimal::sum_fits(self.t, self.h),
            Decimal::sum_fits(self.l, self.w),
        ensures
            r@ == seq![self.t, self.l, sum_of(self.t, self.h), sum_of(self.l, self.w)],
    {
        let b = self.t.checked_add(&self.h).unwrap();
        let rr = self.l.checked_add(&self.w).unwrap();
        let r = [self.t, self.l, b, rr];
        proof {
            assert(r@ =~= seq![self.t, self.l, b, rr]);
        }
        r
    }
}

/// An angle of `radians + quarter_turns * pi/2`: the quarter turns keep
/// the fixed offsets of the heading conventions exact.
#[derive(Debug, Clone, Copy, PartialEq, Eq, Structural)]
pub struct Angle {
    pub radians: Decimal,
    pub quarter_turns: i8,
}

/// The frame in which a box's center is expressed.
#[derive(Debug, Clone, Copy, PartialEq, Eq, Structural)]
pub enum Frame {
    /// The point-cloud sensor's frame.
    Sensor,
    /// The rectified camera frame: the calibration's rectified-camera to
    /// sensor transform still has to be applied to the center.
    RectifiedCamera,
}

/// A rigid pose: a translation and a rotation by Euler angles
/// (roll about x, pitch about y, yaw about z).
#[derive(Debug, Clone, Copy, PartialEq, Eq, Structural)]
pub struct Pose {
    pub translation: Vec3,
    pub frame: Frame,
    pub roll: Angle,
    pub pitch: Angle,
    pub yaw: Angle,
}

/// An oriented box: side lengths along its local axes and its pose.
#[derive(Debug, Clone, Copy, PartialEq, Eq, Structural)]
pub struct BBox3D {
    pub extents: Vec3,
    pub pose: Pose,
}

/// Half of `e`, with the sign chosen by `positive`.
pub open spec fn signed_half(e: Decimal, positive: bool) -> Decimal {
    if positive {
        half_of(e)
    } else {
        negated(half_of(e))
    }
}

/// The corner of a box of `extents` centred at the origin, on the positive
/// side of each axis whose choice is true.
pub open spec fn corner(extents: Vec3, x_choice: bool, y_choice: bool, z_choice: bool) -> Vec3 {
    Vec3 {
        x: signed_half(extents.x, x_choice),
        y: signed_half(extents.y, y_choice),
        z: signed_half(extents.z, z_choice),
    }
}

/// The corner for a mask: bit 0 chooses the x side, bit 1 the y side,
/// bit 2 the z side (a set bit is the positive side).
pub open spec fn corner_of_mask(extents: Vec3, mask: int) -> Vec3 {
    corner(extents, mask % 2 == 1, (mask / 2) % 2 == 1, (mask / 4) % 2 == 1)
}

/// The pairs of corner indices that a wireframe joins: the twelve edges,
/// then two diagonals (1-7 and 3-5) that mark the heading.
pub open spec fn box_edge_pairs() -> Seq<(usize, usize)> {
    seq![
        (0usize, 1usize), (0, 2), (1, 3), (2, 3), (4, 5), (4, 6), (5, 7), (6, 7),
        (0, 4), (1, 5), (2, 6), (3, 7), (1, 7), (3, 5),
    ]
}

/// The pairs of corner indices that a wireframe joins.
pub fn box_edges() -> (r: Vec<(usize, usize)>)
    ensures
        r@ == box_edge_pairs(),
{
    let r = vec![
        (0usize, 1usize), (0, 2), (1, 3), (2, 3), (4, 5), (4, 6), (5, 7), (6, 7),
        (0, 4), (1, 5), (2, 6), (3, 7), (1, 7), (3, 5),
    ];
    proof {
        assert(r@ =~= box_edge_pairs());
    }
    r
}

fn signed_half_exec(e: Decimal, positive: bool) -> (r: Decimal)
    requires
        e.wf(),
        halvable(e),
    ensures
        r == signed_half(e, positive),
        r.wf(),
{
    let h = e.checked_half().unwrap();
    if positive {
        h
    } else {
        h.neg()
    }
}

impl BBox3D {
    /// Whether every half extent can be computed.
    pub open spec fn halvable(self) -> bool {
        &&& self.extents.wf()
        &&& halvable(self.extents.x)
        &&& halvable(self.extents.y)
        &&& halvable(self.extents.z)
    }

    /// Whether every half extent can be computed.
    pub fn has_halves(&self) -> (r: bool)
        ensures
            r == self.halvable(),
    {
        let e = &self.extents;
        e.x.is_wf() && e.y.is_wf() && e.z.is_wf() && e.x.is_halvable() && e.y.is_halvable()
            && e.z.is_halvable()
    }

    /// A corner in the box's own frame: `extents / 2` with the chosen signs.
    /// The pose carries it to the box's place.
    pub fn vertex_offset(&self, x_choice: bool, y_choice: bool, z_choice: bool) -> (r: Vec3)
        requires
            self.halvable(),
        ensures
            r == corner(self.extents, x_choice, y_choice, z_choice),
    {
        Vec3 {
            x: signed_half_exec(self.extents.x, x_choice),
            y: signed_half_exec(self.extents.y, y_choice),
            z: signed_half_exec(self.extents.z, z_choice),
        }
    }

    /// The eight corners in the box's own frame, in mask order 0 to 7.
    pub fn vertex_offsets(&self) -> (r: Vec<Vec3>)
        requires
            self.halvable(),
        ensures
            r.len() == 8,
            forall|m: int| 0 <= m < 8 ==> #[trigger] r@[m] == corner_of_mask(self.extents, m),
    {
        let mut r: Vec<Vec3> = Vec::new();
        let mut mask: usize = 0;
        while mask < 8
            invariant
                mask <= 8,
                self.halvable(),
                r.len() == mask,
                forall|m: int| 0 <= m < mask ==> #[trigger] r@[m] == corner_of_mask(self.extents, m),
            decreases 8 - mask,
        {
            let v = self.vertex_offset(mask % 2 == 1, (mask / 2) % 2 == 1, (mask / 4) % 2 == 1);
            r.push(v);
            mask = mask + 1;
        }
        r
    }
}

/// Going from corners to height and width and back gives the corners again:
/// `from_tlbr(c).tlbr() == c` for every `c` that `from_tlbr` accepts.
pub proof fn lemma_tlbr_round_trip(lo: Decimal, hi: Decimal)
    requires
        lo.wf(),
        hi.wf(),
        Decimal::difference_fits(hi, lo),
    ensures
        difference_of(hi, lo).wf(),
        Decimal::sum_fits(lo, difference_of(hi, lo)),
        sum_of(lo, difference_of(hi, lo)) == hi,
{
    let s = Decimal::common_scale(hi, lo);
    let d = difference_of(hi, lo);
    let dv = hi.at_scale(s) - lo.at_scale(s);
    lemma_normal_form_exists(dv, s);
    assert(d.denotes(dv, s));
    let s2 = Decimal::common_scale(lo, d);
    assert(s2 <= s);
    let k = (s - s2) as nat;
    lemma_at_scale_shift(lo, s2, s);
    lemma_at_scale_shift(d, s2, s);
    assert(d.at_scale(s) == dv);
    lemma_fits_unshift(lo.at_scale(s2), k);
    lemma_fits_unshift(d.at_scale(s2), k);
    let sv = lo.at_scale(s2) + d.at_scale(s2);
    assert(sv * pow10(k) == lo.at_scale(s) + d.at_scale(s)) by (nonlinear_arith)
        requires
            lo.at_scale(s) == lo.at_scale(s2) * pow10(k),
            d.at_scale(s) == d.at_scale(s2) * pow10(k),
            sv == lo.at_scale(s2) + d.at_scale(s2),
    ;
    assert(sv * pow10(k) == hi.at_scale(s));
    lemma_fits_unshift(sv, k);
    let r = sum_of(lo, d);
    lemma_normal_form_exists(sv, s2);
    assert(r.denotes(sv, s2));
    lemma_denotes_rescale(r, sv, s2, s);
    assert(hi.denotes(hi.at_scale(s), s));
    lemma_denotes_unique(r, hi, hi.at_scale(s), s);
}

/// A box built from corners `[t, l, b, r]` gives back exactly those
/// corners: `from_tlbr([t, l, b, r]).tlbr() == [t, l, b, r]`, for every
/// input that `from_tlbr` accepts (no ordering of the corners is needed).
pub proof fn lemma_bbox2d_round_trip(t: Decimal, l: Decimal, b: Decimal, r: Decimal)
    requires
        t.wf(),
        l.wf(),
        b.wf(),
        r.wf(),
        Decimal::difference_fits(b, t),
        Decimal::difference_fits(r, l),
    ensures
        ({
            let bx = BBox2D { t, l, h: difference_of(b, t), w: difference_of(r, l) };
            &&& bx.wf()
            &&& Decimal::sum_fits(bx.t, bx.h)
            &&& Decimal::sum_fits(bx.l, bx.w)
            &&& seq![bx.t, bx.l, sum_of(bx.t, bx.h), sum_of(bx.l, bx.w)] == seq![t, l, b, r]
        }),
{
    lemma_tlbr_round_trip(t, b);
    lemma_tlbr_round_trip(l, r);
}

} // verus!
