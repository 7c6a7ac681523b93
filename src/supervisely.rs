//! Point-cloud annotations made of figures (boxes) and objects (classes
//! and tags), linked by object keys. The document is decoded outside the
//! library; these are its fields as plain values.
use vstd::prelude::*;
use crate::decimal::{Decimal, parse_decimal, parses, decimal_of};
use crate::text::copy_bytes;
use crate::calib::bytes_eq;
use crate::bbox::{Angle, BBox2D, BBox3D, Frame, Pose, Vec3};
use crate::objects::{AnnError, KittiObject, ObjectModel, models};

verus! {

/// The value of a tag.
#[derive(Debug)]
pub enum SvTagValue {
    Number(isize),
    Text(Vec<u8>),
    OneOf(Vec<u8>),
}

/// A named tag of an object, with an optional value.
#[derive(Debug)]
pub struct SvTag {
    pub name: Vec<u8>,
    pub value: Option<SvTagValue>,
}

/// An annotated object: its key, its class and its tags.
#[derive(Debug)]
pub struct SvObject {
    pub key: Vec<u8>,
    pub class_title: Vec<u8>,
    pub tags: Vec<SvTag>,
}

/// A box figure: the key of its object, its center, its Euler angles and
/// its side lengths.
#[derive(Debug)]
pub struct SvFigure {
    pub object_key: Vec<u8>,
    pub position: Vec3,
    pub rotation: Vec3,
    pub dimensions: Vec3,
}

/// `Confidence`.
pub open spec fn confidence_name() -> Seq<u8> {
    seq![67u8, 111u8, 110u8, 102u8, 105u8, 100u8, 101u8, 110u8, 99u8, 101u8]
}

/// The score given when no confidence can be read: 1.
pub open spec fn default_score() -> Decimal {
    Decimal { mantissa: 1, scale: 0 }
}

/// `i` is the first object with key `key`.
pub open spec fn is_first_object(objects: Seq<SvObject>, key: Seq<u8>, i: int) -> bool {
    &&& 0 <= i < objects.len()
    &&& objects[i].key@ == key
    &&& forall|j: int| 0 <= j < i ==> (#[trigger] objects[j]).key@ != key
}

/// The index of the first object with key `key`, if any.
pub open spec fn object_index(objects: Seq<SvObject>, key: Seq<u8>) -> Option<int> {
    if exists|i: int| is_first_object(objects, key, i) {
        Some(choose|i: int| is_first_object(objects, key, i))
    } else {
        None
    }
}

/// `i` is the first tag named `name`.
pub open spec fn is_first_tag(tags: Seq<SvTag>, name: Seq<u8>, i: int) -> bool {
    &&& 0 <= i < tags.len()
    &&& tags[i].name@ == name
    &&& forall|j: int| 0 <= j < i ==> (#[trigger] tags[j]).name@ != name
}

/// The index of the first tag named `name`, if any.
pub open spec fn tag_index(tags: Seq<SvTag>, name: Seq<u8>) -> Option<int> {
    if exists|i: int| is_first_tag(tags, name, i) {
        Some(choose|i: int| is_first_tag(tags, name, i))
    } else {
        None
    }
}

/// The score of an object: the number in the text of its first
/// `Confidence` tag; 1 when it has no such tag or the tag holds no text.
pub open spec fn confidence_of(tags: Seq<SvTag>) -> Result<Decimal, AnnError> {
    match tag_index(tags, confidence_name()) {
        None => Ok(default_score()),
        Some(i) => match tags[i].value {
            Some(SvTagValue::Text(t)) => if parses(t@) {
                Ok(decimal_of(t@))
            } else {
                Err(AnnError::InvalidNumber)
            },
            _ => Ok(default_score()),
        },
    }
}

/// The box of a figure: extents reordered to (y, z, x) of its dimensions,
/// and the yaw turned by a quarter turn.
pub open spec fn figure_box(fig: SvFigure) -> BBox3D {
    BBox3D {
        extents: Vec3 { x: fig.dimensions.y, y: fig.dimensions.z, z: fig.dimensions.x },
        pose: Pose {
            translation: fig.position,
            frame: Frame::Sensor,
            roll: Angle { radians: fig.rotation.x, quarter_turns: 0 },
            pitch: Angle { radians: fig.rotation.y, quarter_turns: 0 },
            yaw: Angle { radians: fig.rotation.z, quarter_turns: 1 },
        },
    }
}

/// The image box of objects from this format: all zero.
pub open spec fn zero_box2d() -> BBox2D {
    let z = Decimal { mantissa: 0, scale: 0 };
    BBox2D { t: z, l: z, h: z, w: z }
}

/// The object that a figure stands for.
pub open spec fn figure_object(fig: SvFigure, objects: Seq<SvObject>) -> Result<ObjectModel, AnnError> {
    match object_index(objects, fig.object_key@) {
        None => Err(AnnError::ObjectNotFound),
        Some(i) => match confidence_of(objects[i].tags@) {
            Err(e) => Err(e),
            Ok(s) => Ok(
                ObjectModel {
                    class: objects[i].class_title@,
                    bbox3d: figure_box(fig),
                    bbox2d: zero_box2d(),
                    score: Some(s),
                    object_key: Some(objects[i].key@),
                },
            ),
        },
    }
}

/// The objects of a list of figures, in order.
pub open spec fn supervisely_of(figures: Seq<SvFigure>, objects: Seq<SvObject>) -> Result<
    Seq<ObjectModel>,
    AnnError,
>
    decreases figures.len(),
{
    if figures.len() == 0 {
        Ok(Seq::empty())
    } else {
        match supervisely_of(figures.drop_last(), objects) {
            Err(e) => Err(e),
            Ok(objs) => match figure_object(figures.last(), objects) {
                Err(e) => Err(e),
                Ok(o) => Ok(objs.push(o)),
            },
        }
    }
}

pub proof fn lemma_supervisely_error_sticks(figures: Seq<SvFigure>, objects: Seq<SvObject>, k: int)
    requires
        0 <= k <= figures.len(),
        supervisely_of(figures.take(k), objects) is Err,
    ensures
        supervisely_of(figures, objects) == supervisely_of(figures.take(k), objects),
    decreases figures.len() - k,
{
    if k < figures.len() {
        assert(figures.take(k + 1).drop_last() =~= figures.take(k));
        lemma_supervisely_error_sticks(figures, objects, k + 1);
    } else {
        assert(figures.take(k) =~= figures);
    }
}

fn find_object(objects: &Vec<SvObject>, key: &[u8]) -> (r: Option<usize>)
    ensures
        r is Some ==> object_index(objects@, key@) == Some(r->Some_0 as int),
        r is None ==> object_index(objects@, key@) is None,
{
    let mut i: usize = 0;
    while i < objects.len()
        invariant
            i <= objects.len(),
            forall|j: int| 0 <= j < i ==> (#[trigger] objects@[j]).key@ != key@,
        decreases objects.len() - i,
    {
        if bytes_eq(objects[i].key.as_slice(), key) {
            proof {
                assert(is_first_object(objects@, key@, i as int));
                let c = choose|c: int| is_first_object(objects@, key@, c);
                assert(c == i) by {
                    if c < i {
                        assert(objects@[c].key@ != key@);
                    }
                    if c > i {
                        assert(objects@[i as int].key@ != key@);
                    }
                }
            }
            return Some(i);
        }
        i = i + 1;
    }
    proof {
        assert(forall|c: int| !is_first_object(objects@, key@, c));
    }
    None
}

fn find_tag(tags: &Vec<SvTag>, name: &[u8]) -> (r: Option<usize>)
    ensures
        r is Some ==> tag_index(tags@, name@) == Some(r->Some_0 as int),
        r is None ==> tag_index(tags@, name@) is None,
{
    let mut i: usize = 0;
    while i < tags.len()
        invariant
            i <= tags.len(),
            forall|j: int| 0 <= j < i ==> (#[trigger] tags@[j]).name@ != name@,
        decreases tags.len() - i,
    {
        if bytes_eq(tags[i].name.as_slice(), name) {
            proof {
                assert(is_first_tag(tags@, name@, i as int));
                let c = choose|c: int| is_first_tag(tags@, name@, c);
                assert(c == i) by {
                    if c < i {
                        assert(tags@[c].name@ != name@);
                    }
                    if c > i {
                        assert(tags@[i as int].name@ != name@);
                    }
                }
            }
            return Some(i);
        }
        i = i + 1;
    }
    proof {
        assert(forall|c: int| !is_first_tag(tags@, name@, c));
    }
    None
}

/// The score of an object from its tags.
pub fn confidence_score(tags: &Vec<SvTag>) -> (r: Result<Decimal, AnnError>)
    ensures
        r == confidence_of(tags@),
{
    let name: [u8; 10] = [67u8, 111u8, 110u8, 102u8, 105u8, 100u8, 101u8, 110u8, 99u8, 101u8];
    proof {
        assert(name@ =~= confidence_name());
    }
    match find_tag(tags, name.as_slice()) {
        None => Ok(Decimal { mantissa: 1, scale: 0 }),
        Some(i) => match &tags[i].value {
            Some(SvTagValue::Text(t)) => match parse_decimal(t.as_slice()) {
                Some(d) => Ok(d),
                None => Err(AnnError::InvalidNumber),
            },
            _ => Ok(Decimal { mantissa: 1, scale: 0 }),
        },
    }
}

/// Builds one object per figure, in figure order, from the first object
/// whose key the figure names. Its score is that object's confidence.
pub fn read_from_supervisely(figures: &Vec<SvFigure>, objects: &Vec<SvObject>) -> (r: Result<
    Vec<KittiObject>,
    AnnError,
>)
    ensures
        r is Ok <==> supervisely_of(figures@, objects@) is Ok,
        r is Ok ==> models(r->Ok_0@) == supervisely_of(figures@, objects@)->Ok_0,
        r is Err ==> r->Err_0 == supervisely_of(figures@, objects@)->Err_0,
{
    let mut out: Vec<KittiObject> = Vec::new();
    let mut i: usize = 0;
    proof {
        assert(figures@.take(0) =~= Seq::<SvFigure>::empty());
        assert(models(out@) =~= Seq::<ObjectModel>::empty());
    }
    while i < figures.len()
        invariant
            i <= figures.len(),
            supervisely_of(figures@.take(i as int), objects@) == Ok::<Seq<ObjectModel>, AnnError>(
                models(out@),
            ),
        decreases figures.len() - i,
    {
        proof {
            assert(figures@.take(i + 1).drop_last() =~= figures@.take(i as int));
        }
        let fig = &figures[i];
        let k = match find_object(objects, fig.object_key.as_slice()) {
            Some(k) => k,
            None => {
                proof {
                    lemma_supervisely_error_sticks(figures@, objects@, i + 1);
                }
                return Err(AnnError::ObjectNotFound);
            },
        };
        let obj = &objects[k];
        let score = match confidence_score(&obj.tags) {
            Ok(s) => s,
            Err(e) => {
                proof {
                    lemma_supervisely_error_sticks(figures@, objects@, i + 1);
                }
                return Err(e);
            },
        };
        let zero = Decimal::zero();
        let bbox3d = BBox3D {
            extents: Vec3 { x: fig.dimensions.y, y: fig.dimensions.z, z: fig.dimensions.x },
            pose: Pose {
                translation: fig.position,
                frame: Frame::Sensor,
                roll: Angle { radians: fig.rotation.x, quarter_turns: 0 },
                pitch: Angle { radians: fig.rotation.y, quarter_turns: 0 },
                yaw: Angle { radians: fig.rotation.z, quarter_turns: 1 },
            },
        };
        let o = KittiObject {
            class: copy_bytes(&obj.class_title),
            bbox3d,
            bbox2d: BBox2D { t: zero, l: zero, h: zero, w: zero },
            score: Some(score),
            object_key: Some(copy_bytes(&obj.key)),
        };
        let ghost before = out@;
        out.push(o);
        proof {
            assert(models(out@) =~= models(before).push(o.model()));
        }
        i = i + 1;
    }
    proof {
        assert(figures@.take(figures.len() as int) =~= figures@);
    }
    Ok(out)
}

} // verus!
