//! Annotated objects and the three annotation formats that produce them.
use vstd::prelude::*;
use crate::decimal::{Decimal, parse_decimal, parses, decimal_of, half_of, halvable, negated, difference_of};
use crate::text::{views, lines, split_keep, split_lines, split_on, copy_bytes};
use crate::calib::bytes_eq;
use crate::bbox::{Angle, BBox2D, BBox3D, Frame, Pose, Vec3};
use crate::PcdFormat;

verus! {

/// Why an annotation was refused.
#[derive(Debug, Clone, Copy, PartialEq, Eq, Structural)]
pub enum AnnError {
    /// A label line has fewer than fifteen fields.
    MissingFields,
    /// A field that must hold a number does not.
    InvalidNumber,
    /// A box computed from the fields does not fit the number range.
    OutOfRange,
    /// A figure refers to an object key that no object has.
    ObjectNotFound,
}

/// One annotated object.
#[derive(Debug)]
pub struct KittiObject {
    pub class: Vec<u8>,
    pub bbox3d: BBox3D,
    pub bbox2d: BBox2D,
    pub score: Option<Decimal>,
    pub object_key: Option<Vec<u8>>,
}

/// An annotated object with its byte strings as sequences.
pub struct ObjectModel {
    pub class: Seq<u8>,
    pub bbox3d: BBox3D,
    pub bbox2d: BBox2D,
    pub score: Option<Decimal>,
    pub object_key: Option<Seq<u8>>,
}

impl KittiObject {
    pub open spec fn model(&self) -> ObjectModel {
        ObjectModel {
            class: self.class@,
            bbox3d: self.bbox3d,
            bbox2d: self.bbox2d,
            score: self.score,
            object_key: match self.object_key {
                Some(k) => Some(k@),
                None => None,
            },
        }
    }

    /// Whether the class is `Cyclist` or `Scooter`.
    pub fn is_scooter(&self) -> (r: bool)
        ensures
            r == (self.class@ == class_cyclist() || self.class@ == class_scooter()),
    {
        let cyclist: [u8; 7] = [67u8, 121u8, 99u8, 108u8, 105u8, 115u8, 116u8];
        let scooter: [u8; 7] = [83u8, 99u8, 111u8, 111u8, 116u8, 101u8, 114u8];
        proof {
            assert(cyclist@ =~= class_cyclist());
            assert(scooter@ =~= class_scooter());
        }
        bytes_eq(self.class.as_slice(), cyclist.as_slice()) || bytes_eq(
            self.class.as_slice(),
            scooter.as_slice(),
        )
    }
}

pub open spec fn class_cyclist() -> Seq<u8> {
    seq![67u8, 121u8, 99u8, 108u8, 105u8, 115u8, 116u8]
}

pub open spec fn class_scooter() -> Seq<u8> {
    seq![83u8, 99u8, 111u8, 111u8, 116u8, 101u8, 114u8]
}

pub open spec fn models(v: Seq<KittiObject>) -> Seq<ObjectModel> {
    v.map_values(|o: KittiObject| o.model())
}

pub open spec fn zero_angle() -> Angle {
    Angle { radians: Decimal { mantissa: 0, scale: 0 }, quarter_turns: 0 }
}

// ---- text label lines -------------------------------------------------

/// The fields of a label line, split on single spaces.
pub open spec fn fields_of(line: Seq<u8>) -> Seq<Seq<u8>> {
    split_keep(line, seq![32u8])
}

/// Whether every numeric field of a label line (fifteen fields or more) is a number.
pub open spec fn label_numbers_parse(f: Seq<Seq<u8>>) -> bool {
    &&& forall|i: int| 4 <= i < 15 ==> parses(#[trigger] f[i])
    &&& (f.len() >= 16 ==> parses(f[15]))
}

/// The number in field `i`.
pub open spec fn num(f: Seq<Seq<u8>>, i: int) -> Decimal {
    decimal_of(f[i])
}

/// Whether the image box of a label line can be computed.
pub open spec fn label_box2d_fits(f: Seq<Seq<u8>>) -> bool {
    &&& Decimal::difference_fits(num(f, 7), num(f, 5))
    &&& Decimal::difference_fits(num(f, 6), num(f, 4))
}

/// The image box of a label line: fields 4 to 7 are left, top, right, bottom.
pub open spec fn label_box2d(f: Seq<Seq<u8>>) -> BBox2D {
    BBox2D {
        t: num(f, 5),
        l: num(f, 4),
        h: difference_of(num(f, 7), num(f, 5)),
        w: difference_of(num(f, 6), num(f, 4)),
    }
}

/// The score of a label line: field 15 when there is one.
pub open spec fn label_score(f: Seq<Seq<u8>>) -> Option<Decimal> {
    if f.len() >= 16 {
        Some(num(f, 15))
    } else {
        None
    }
}

/// Whether the primary convention can lift the center by half the height.
pub open spec fn primary_fits(f: Seq<Seq<u8>>) -> bool {
    &&& halvable(num(f, 8))
    &&& Decimal::difference_fits(num(f, 12), half_of(num(f, 8)))
}

/// The 3D box of a primary-format line. Fields 8 to 10 are height, width and
/// length, 11 to 13 the center of the box's base in the rectified camera
/// frame, 14 the yaw about the camera's vertical axis. The center is lifted
/// to the box's middle, the heading becomes `-yaw - pi/2` about the sensor's
/// vertical axis, and the extents become (length, width, height).
pub open spec fn primary_box3d(f: Seq<Seq<u8>>) -> BBox3D {
    BBox3D {
        extents: Vec3 { x: num(f, 10), y: num(f, 9), z: num(f, 8) },
        pose: Pose {
            translation: Vec3 {
                x: num(f, 11),
                y: difference_of(num(f, 12), half_of(num(f, 8))),
                z: num(f, 13),
            },
            frame: Frame::RectifiedCamera,
            roll: zero_angle(),
            pitch: zero_angle(),
            yaw: Angle { radians: negated(num(f, 14)), quarter_turns: -1i8 },
        },
    }
}

/// The 3D box of an alternate-format line: the fields are taken as they
/// stand, extents in field order and the center and yaw unchanged.
pub open spec fn philly_box3d(f: Seq<Seq<u8>>) -> BBox3D {
    BBox3D {
        extents: Vec3 { x: num(f, 8), y: num(f, 9), z: num(f, 10) },
        pose: Pose {
            translation: Vec3 { x: num(f, 11), y: num(f, 12), z: num(f, 13) },
            frame: Frame::Sensor,
            roll: zero_angle(),
            pitch: zero_angle(),
            yaw: Angle { radians: num(f, 14), quarter_turns: 0 },
        },
    }
}

/// What one label line gives: nothing for an excluded class, an object, or an error.
pub open spec fn label_line(line: Seq<u8>, exclude: Seq<Seq<u8>>, primary: bool) -> Result<
    Option<ObjectModel>,
    AnnError,
> {
    let f = fields_of(line);
    if exclude.contains(f[0]) {
        Ok(None)
    } else if f.len() < 15 {
        Err(AnnError::MissingFields)
    } else if !label_numbers_parse(f) {
        Err(AnnError::InvalidNumber)
    } else if primary && !primary_fits(f) {
        Err(AnnError::OutOfRange)
    } else if !label_box2d_fits(f) {
        Err(AnnError::OutOfRange)
    } else {
        Ok(
            Some(
                ObjectModel {
                    class: f[0],
                    bbox3d: if primary {
                        primary_box3d(f)
                    } else {
                        philly_box3d(f)
                    },
                    bbox2d: label_box2d(f),
                    score: label_score(f),
                    object_key: None,
                },
            ),
        )
    }
}

/// The objects of the label lines, in order.
pub open spec fn labels_of_lines(ls: Seq<Seq<u8>>, exclude: Seq<Seq<u8>>, primary: bool) -> Result<
    Seq<ObjectModel>,
    AnnError,
>
    decreases ls.len(),
{
    if ls.len() == 0 {
        Ok(Seq::empty())
    } else {
        match labels_of_lines(ls.drop_last(), exclude, primary) {
            Err(e) => Err(e),
            Ok(objs) => match label_line(ls.last(), exclude, primary) {
                Err(e) => Err(e),
                Ok(None) => Ok(objs),
                Ok(Some(o)) => Ok(objs.push(o)),
            },
        }
    }
}

/// The objects of a label file.
pub open spec fn labels_of(content: Seq<u8>, exclude: Seq<Seq<u8>>, primary: bool) -> Result<
    Seq<ObjectModel>,
    AnnError,
> {
    labels_of_lines(lines(content), exclude, primary)
}

pub proof fn lemma_labels_error_sticks(
    ls: Seq<Seq<u8>>,
    exclude: Seq<Seq<u8>>,
    primary: bool,
    k: int,
)
    requires
        0 <= k <= ls.len(),
        labels_of_lines(ls.take(k), exclude, primary) is Err,
    ensures
        labels_of_lines(ls, exclude, primary) == labels_of_lines(ls.take(k), exclude, primary),
    decreases ls.len() - k,
{
    if k < ls.len() {
        assert(ls.take(k + 1).drop_last() =~= ls.take(k));
        lemma_labels_error_sticks(ls, exclude, primary, k + 1);
    } else {
        assert(ls.take(k) =~= ls);
    }
}

/// Whether a list of byte strings holds `x`.
pub fn contains_bytes(list: &Vec<Vec<u8>>, x: &[u8]) -> (r: bool)
    ensures
        r == views(list@).contains(x@),
{
    let mut i: usize = 0;
    while i < list.len()
        invariant
            i <= list.len(),
            forall|j: int| 0 <= j < i ==> list@[j]@ != x@,
        decreases list.len() - i,
    {
        if bytes_eq(list[i].as_slice(), x) {
            proof {
                assert(views(list@)[i as int] == x@);
            }
            return true;
        }
        i = i + 1;
    }
    proof {
        if views(list@).contains(x@) {
            let j = choose|j: int| 0 <= j < views(list@).len() && views(list@)[j] == x@;
            assert(list@[j]@ == x@);
        }
    }
    false
}

fn field_number(f: &Vec<Vec<u8>>, i: usize) -> (r: Option<Decimal>)
    requires
        i < f.len(),
    ensures
        r is Some <==> parses(views(f@)[i as int]),
        r is Some ==> r.unwrap() == num(views(f@), i as int),
        r is Some ==> r.unwrap().wf(),
{
    proof {
        assert(views(f@)[i as int] == f@[i as int]@);
    }
    parse_decimal(f[i].as_slice())
}

fn primary_box(f: &Vec<Vec<u8>>) -> (r: Option<BBox3D>)
    requires
        f.len() >= 15,
        label_numbers_parse(views(f@)),
    ensures
        r is Some <==> primary_fits(views(f@)),
        r is Some ==> r.unwrap() == primary_box3d(views(f@)),
{
    let h = field_number(f, 8).unwrap();
    let w = field_number(f, 9).unwrap();
    let l = field_number(f, 10).unwrap();
    let x = field_number(f, 11).unwrap();
    let y = field_number(f, 12).unwrap();
    let z = field_number(f, 13).unwrap();
    let yaw = field_number(f, 14).unwrap();
    let half_h = match h.checked_half() {
        Some(v) => v,
        None => return None,
    };
    let center_y = match y.checked_sub(&half_h) {
        Some(v) => v,
        None => return None,
    };
    let zero = Angle { radians: Decimal::zero(), quarter_turns: 0 };
    Some(
        BBox3D {
            extents: Vec3 { x: l, y: w, z: h },
            pose: Pose {
                translation: Vec3 { x, y: center_y, z },
                frame: Frame::RectifiedCamera,
                roll: zero,
                pitch: zero,
                yaw: Angle { radians: yaw.neg(), quarter_turns: -1 },
            },
        },
    )
}

fn philly_box(f: &Vec<Vec<u8>>) -> (r: BBox3D)
    requires
        f.len() >= 15,
        label_numbers_parse(views(f@)),
    ensures
        r == philly_box3d(views(f@)),
{
    let lx = field_number(f, 8).unwrap();
    let ly = field_number(f, 9).unwrap();
    let lz = field_number(f, 10).unwrap();
    let x = field_number(f, 11).unwrap();
    let y = field_number(f, 12).unwrap();
    let z = field_number(f, 13).unwrap();
    let yaw = field_number(f, 14).unwrap();
    let zero = Angle { radians: Decimal::zero(), quarter_turns: 0 };
    BBox3D {
        extents: Vec3 { x: lx, y: ly, z: lz },
        pose: Pose {
            translation: Vec3 { x, y, z },
            frame: Frame::Sensor,
            roll: zero,
            pitch: zero,
            yaw: Angle { radians: yaw, quarter_turns: 0 },
        },
    }
}

/// Reads one label line.
fn parse_label_line(line: &[u8], exclude: &Vec<Vec<u8>>, primary: bool) -> (r: Result<
    Option<KittiObject>,
    AnnError,
>)
    ensures
        r is Ok <==> label_line(line@, views(exclude@), primary) is Ok,
        r is Err ==> r->Err_0 == label_line(line@, views(exclude@), primary)->Err_0,
        r is Ok ==> (r->Ok_0 is Some <==> label_line(line@, views(exclude@), primary)->Ok_0 is Some),
        r is Ok && r->Ok_0 is Some ==> r->Ok_0->Some_0.model() == label_line(
            line@,
            views(exclude@),
            primary,
        )->Ok_0->Some_0,
{
    let sep: [u8; 1] = [32u8];
    proof {
        assert(sep@ =~= seq![32u8]);
        crate::text::lemma_split_keep_nonempty(line@, seq![32u8]);
    }
    let f = split_on(line, sep.as_slice());
    let ghost fv = views(f@);
    proof {
        assert(fv[0] == f@[0]@);
    }
    if contains_bytes(exclude, f[0].as_slice()) {
        return Ok(None);
    }
    if f.len() < 15 {
        return Err(AnnError::MissingFields);
    }
    let mut i: usize = 4;
    while i < 15
        invariant
            4 <= i <= 15,
            f.len() >= 15,
            fv == views(f@),
            fv == fields_of(line@),
            !views(exclude@).contains(fv[0]),
            forall|j: int| 4 <= j < i ==> parses(#[trigger] fv[j]),
        decreases 15 - i,
    {
        if field_number(&f, i).is_none() {
            return Err(AnnError::InvalidNumber);
        }
        i = i + 1;
    }
    let score = if f.len() >= 16 {
        match field_number(&f, 15) {
            Some(s) => Some(s),
            None => {
                return Err(AnnError::InvalidNumber);
            },
        }
    } else {
        None
    };
    let bbox3d = if primary {
        match primary_box(&f) {
            Some(b) => b,
            None => {
                return Err(AnnError::OutOfRange);
            },
        }
    } else {
        philly_box(&f)
    };
    let left = field_number(&f, 4).unwrap();
    let top = field_number(&f, 5).unwrap();
    let right = field_number(&f, 6).unwrap();
    let bottom = field_number(&f, 7).unwrap();
    let h = match bottom.checked_sub(&top) {
        Some(v) => v,
        None => {
            return Err(AnnError::OutOfRange);
        },
    };
    let w = match right.checked_sub(&left) {
        Some(v) => v,
        None => {
            return Err(AnnError::OutOfRange);
        },
    };
    let bbox2d = BBox2D::from_tlbr([top, left, bottom, right]);
    let class = copy_bytes(&f[0]);
    Ok(Some(KittiObject { class, bbox3d, bbox2d, score, object_key: None }))
}

/// Reads every line of a label file, skipping the excluded classes.
fn read_labels(content: &[u8], exclude: &Vec<Vec<u8>>, primary: bool) -> (r: Result<
    Vec<KittiObject>,
    AnnError,
>)
    ensures
        r is Ok <==> labels_of(content@, views(exclude@), primary) is Ok,
        r is Ok ==> models(r->Ok_0@) == labels_of(content@, views(exclude@), primary)->Ok_0,
        r is Err ==> r->Err_0 == labels_of(content@, views(exclude@), primary)->Err_0,
{
    let ls = split_lines(content);
    let ghost lv = views(ls@);
    let ghost ex = views(exclude@);
    let mut objects: Vec<KittiObject> = Vec::new();
    let mut i: usize = 0;
    proof {
        assert(lv.take(0) =~= Seq::<Seq<u8>>::empty());
        assert(models(objects@) =~= Seq::<ObjectModel>::empty());
    }
    while i < ls.len()
        invariant
            i <= ls.len(),
            lv == views(ls@),
            lv == lines(content@),
            ex == views(exclude@),
            labels_of_lines(lv.take(i as int), ex, primary) == Ok::<Seq<ObjectModel>, AnnError>(
                models(objects@),
            ),
        decreases ls.len() - i,
    {
        proof {
            assert(lv.take(i + 1).drop_last() =~= lv.take(i as int));
            assert(lv[i as int] == ls@[i as int]@);
        }
        match parse_label_line(ls[i].as_slice(), exclude, primary) {
            Err(e) => {
                proof {
                    lemma_labels_error_sticks(lv, ex, primary, i + 1);
                }
                return Err(e);
            },
            Ok(None) => {},
            Ok(Some(o)) => {
                let ghost before = objects@;
                objects.push(o);
                proof {
                    assert(models(objects@) =~= models(before).push(o.model()));
                }
            },
        }
        i = i + 1;
    }
    proof {
        assert(lv.take(ls.len() as int) =~= lv);
    }
    Ok(objects)
}

/// Reads a label file in the primary convention: each center is lifted by
/// half the box height and left in the rectified camera frame, to be
/// carried to the sensor frame by the calibration's transform; the heading
/// becomes `-yaw - pi/2` and the extents (length, width, height).
pub fn read_ann_file(content: &[u8], exclude_classes: &Vec<Vec<u8>>) -> (r: Result<
    Vec<KittiObject>,
    AnnError,
>)
    ensures
        r is Ok <==> labels_of(content@, views(exclude_classes@), true) is Ok,
        r is Ok ==> models(r->Ok_0@) == labels_of(content@, views(exclude_classes@), true)->Ok_0,
        r is Err ==> r->Err_0 == labels_of(content@, views(exclude_classes@), true)->Err_0,
{
    read_labels(content, exclude_classes, true)
}

/// Reads a label file in the alternate convention: fields are taken as
/// they stand, with no lift of the center and no change of frame.
pub fn read_ann_file_philly(content: &[u8], exclude_classes: &Vec<Vec<u8>>) -> (r: Result<
    Vec<KittiObject>,
    AnnError,
>)
    ensures
        r is Ok <==> labels_of(content@, views(exclude_classes@), false) is Ok,
        r is Ok ==> models(r->Ok_0@) == labels_of(content@, views(exclude_classes@), false)->Ok_0,
        r is Err ==> r->Err_0 == labels_of(content@, views(exclude_classes@), false)->Err_0,
{
    read_labels(content, exclude_classes, false)
}

/// Reads a label file in the convention that `format` selects.
pub fn read_ann_file_in(format: PcdFormat, content: &[u8], exclude_classes: &Vec<Vec<u8>>) -> (r: Result<
    Vec<KittiObject>,
    AnnError,
>)
    ensures
        ({
            let want = labels_of(content@, views(exclude_classes@), format == PcdFormat::Libpcl);
            &&& r is Ok <==> want is Ok
            &&& r is Ok ==> models(r->Ok_0@) == want->Ok_0
            &&& r is Err ==> r->Err_0 == want->Err_0
        }),
{
    match format {
        PcdFormat::Philly => read_ann_file_philly(content, exclude_classes),
        PcdFormat::Libpcl => read_ann_file(content, exclude_classes),
    }
}

} // verus!
