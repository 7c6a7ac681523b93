use kitti_format::bbox::{BBox2D, BBox3D, Frame, Vec3, box_edges};
use kitti_format::cache::FrameCache;
use kitti_format::calib::{CalibError, KittiCalib};
use kitti_format::decimal::{parse_decimal, Decimal};
use kitti_format::frame::assemble_frame;
use kitti_format::objects::{read_ann_file, read_ann_file_philly, AnnError, KittiObject};
use kitti_format::pcd::{decode_points, PcdError};
use kitti_format::supervisely::{
    confidence_score, read_from_supervisely, SvFigure, SvObject, SvTag, SvTagValue,
};

fn d(s: &str) -> Decimal {
    parse_decimal(s.as_bytes()).unwrap()
}

fn dec(m: i128, s: u32) -> Decimal {
    Decimal::new(m, s)
}

fn v3(x: &str, y: &str, z: &str) -> Vec3 {
    Vec3::new(d(x), d(y), d(z))
}

fn dontcare() -> Vec<Vec<u8>> {
    vec![b"DontCare".to_vec()]
}

#[test]
fn decimal_parses_plain_and_exponent_forms() {
    assert_eq!(d("1.57"), dec(157, 2));
    assert_eq!(d("-0.5"), dec(-5, 1));
    assert_eq!(d(".5"), dec(5, 1));
    assert_eq!(d("+3."), dec(3, 0));
    assert_eq!(d("1.50"), dec(15, 1));
    assert_eq!(d("7.215377e+02"), dec(7215377, 4));
    assert_eq!(d("1e3"), dec(1000, 0));
    assert_eq!(d("2.5E-3"), dec(25, 4));
    assert_eq!(d("0"), Decimal::zero());
}

#[test]
fn decimal_rejects_malformed_tokens() {
    for t in ["", "-", ".", "abc", "1.2.3", "1e", "e5", "1e+", "--1", "1 ", "nan", "inf"] {
        assert!(parse_decimal(t.as_bytes()).is_none(), "{t}");
    }
}

#[test]
fn decimal_arithmetic_is_exact() {
    assert_eq!(d("0.1").checked_add(&d("0.2")), Some(d("0.3")));
    assert_eq!(d("1.5").checked_sub(&d("0.25")), Some(d("1.25")));
    assert_eq!(d("1.5").checked_half(), Some(d("0.75")));
    assert_eq!(d("2").neg(), d("-2"));
    let big = Decimal::new(170141183460469231731687303715884105727, 0);
    assert_eq!(big.checked_add(&d("1")), None);
}

#[test]
fn bbox2d_round_trip() {
    let c = [d("10"), d("20.5"), d("110.25"), d("220")];
    let b = BBox2D::from_tlbr(c);
    assert_eq!(b.h, d("100.25"));
    assert_eq!(b.w, d("199.5"));
    assert_eq!(b.tlbr(), c);
    assert_eq!(b.tlhw(), [d("10"), d("20.5"), d("100.25"), d("199.5")]);
    let same = BBox2D::from_tlhw(b.tlhw());
    assert_eq!(same, b);
}

#[test]
fn bbox2d_round_trip_degenerate() {
    let c = [d("0"), d("0"), d("0"), d("0")];
    assert_eq!(BBox2D::from_tlbr(c).tlbr(), c);
}

fn identity_box(x: &str, y: &str, z: &str) -> BBox3D {
    let objs = read_ann_file_philly(
        format!("Car 0 0 0 0 0 0 0 {x} {y} {z} 0 0 0 0").as_bytes(),
        &vec![],
    )
    .unwrap();
    objs[0].bbox3d
}

#[test]
fn vertex_enumeration_order() {
    let b = identity_box("2", "4", "6");
    let v = b.vertex_offsets();
    assert_eq!(v.len(), 8);
    assert_eq!(v[5], v3("1", "-2", "3"));
    assert_eq!(v[0], v3("-1", "-2", "-3"));
    assert_eq!(v[7], v3("1", "2", "3"));
    assert_eq!(v[3], v3("1", "2", "-3"));
    let mut all: Vec<(i128, i128, i128)> =
        v.iter().map(|p| (p.x.mantissa, p.y.mantissa, p.z.mantissa)).collect();
    all.sort();
    all.dedup();
    assert_eq!(all.len(), 8);
    for (x, y, z) in all {
        assert!(x.abs() == 1 && y.abs() == 2 && z.abs() == 3);
    }
    assert_eq!(b.vertex_offset(true, false, true), v3("1", "-2", "3"));
}

#[test]
fn box_edges_include_heading_diagonals() {
    let e = box_edges();
    assert_eq!(e.len(), 14);
    assert_eq!(e[12], (1, 7));
    assert_eq!(e[13], (3, 5));
}

#[test]
fn cache_eviction_order() {
    let mut c: FrameCache<u32> = FrameCache::new();
    for k in 1..=32usize {
        assert_eq!(c.insert(k, k as u32 * 10), None);
    }
    assert_eq!(c.insert(33, 330), Some(1));
    assert!(!c.contains(1));
    assert_eq!(c.insert(34, 340), Some(2));
    assert!(!c.contains(2));
    assert_eq!(c.get(33), Some(&330));
    assert_eq!(c.get(3), Some(&30));
}

#[test]
fn cache_touch_changes_victim() {
    let mut c: FrameCache<u32> = FrameCache::new();
    for k in 1..=32usize {
        c.insert(k, 0);
    }
    assert!(c.touch(1));
    assert!(!c.touch(99));
    assert_eq!(c.insert(33, 0), Some(2));
    assert!(c.contains(1));
    assert_eq!(c.insert(1, 7), None);
    assert_eq!(c.get(1), Some(&7));
}

const CALIB: &str = "P0: 1 0 0 0 0 1 0 0 0 0 1 0\nFoo: 1 2 3\nR0_rect: 9.999239e-01 9.837760e-03 -7.445048e-03 -9.869795e-03 9.999421e-01 -4.278459e-03 7.402527e-03 4.351614e-03 9.999631e-01\nTr_velo_to_cam 7.533745e-03 -9.999714e-01 -6.166020e-04 -4.069766e-03 1.480249e-02 7.280733e-04 -9.998902e-01 -7.631618e-02 9.998621e-01 7.523790e-03 1.480755e-02 -2.717806e-01\n";

#[test]
fn calibration_parse() {
    let c = KittiCalib::parse(CALIB.as_bytes()).unwrap();
    let ident: Vec<Decimal> = ["1", "0", "0", "0", "0", "1", "0", "0", "0", "0", "1", "0"]
        .iter()
        .map(|s| d(s))
        .collect();
    assert_eq!(c.p0, ident);
    assert_eq!(c.r0_rect.len(), 9);
    assert_eq!(c.r0_rect[0], d("0.9999239"));
    assert_eq!(c.velo_to_cam.len(), 12);
    assert_eq!(c.velo_to_cam[11], d("-0.2717806"));
}

#[test]
fn calibration_unknown_key_is_ignored() {
    let with = KittiCalib::parse(b"P0: 1 0 0 0 0 1 0 0 0 0 1 0\nFoo: 1 2 3\n").unwrap();
    let without = KittiCalib::parse(b"P0: 1 0 0 0 0 1 0 0 0 0 1 0\n").unwrap();
    assert_eq!(with.p0, without.p0);
    assert_eq!(with.velo_to_cam, without.velo_to_cam);
    assert_eq!(with.r0_rect, without.r0_rect);
    assert!(with.r0_rect.iter().all(|x| *x == Decimal::zero()));
}

#[test]
fn calibration_errors() {
    assert_eq!(
        KittiCalib::parse(b"P0: 1 0 0 x 0 1 0 0 0 0 1 0\n").unwrap_err(),
        CalibError::InvalidNumber
    );
    assert_eq!(
        KittiCalib::parse(b"R0_rect: 1 0 0 0 1 0 0 0\n").unwrap_err(),
        CalibError::WrongValueCount
    );
    assert!(KittiCalib::parse(b"").is_ok());
}

#[test]
fn point_cloud_truncation() {
    let bytes = [0u8; 17];
    assert_eq!(decode_points(&bytes).unwrap_err(), PcdError::Truncated);
    let bytes = [0u8; 16];
    assert_eq!(decode_points(&bytes).unwrap().len(), 1);
    assert_eq!(decode_points(&[]).unwrap().len(), 0);
    assert_eq!(decode_points(&[1u8, 2, 3]).unwrap_err(), PcdError::Truncated);
}

#[test]
fn point_cloud_words_are_little_endian() {
    let mut bytes = Vec::new();
    for f in [1.0f32, -2.5, 3.25, 0.5, 4.0, 5.0, 6.0, 7.0] {
        bytes.extend_from_slice(&f.to_le_bytes());
    }
    let pts = decode_points(&bytes).unwrap();
    assert_eq!(pts.len(), 2);
    assert_eq!(f32::from_bits(pts[0].x_bits), 1.0);
    assert_eq!(f32::from_bits(pts[0].y_bits), -2.5);
    assert_eq!(f32::from_bits(pts[0].z_bits), 3.25);
    assert_eq!(f32::from_bits(pts[0].intensity_bits), 0.5);
    assert_eq!(f32::from_bits(pts[1].intensity_bits), 7.0);
    assert_eq!(pts[1].device_id, None);
    assert_eq!(pts[1].active, None);
}

const CAR: &str = "Car 0 0 0 10 20 110 220 1.5 1.6 3.8 5 1.7 30 1.57";

#[test]
fn primary_line_end_to_end() {
    let objs = read_ann_file(CAR.as_bytes(), &dontcare()).unwrap();
    assert_eq!(objs.len(), 1);
    let o = &objs[0];
    assert_eq!(o.class, b"Car".to_vec());
    assert_eq!(o.bbox3d.extents, v3("3.8", "1.6", "1.5"));
    assert_eq!(o.bbox2d.t, d("20"));
    assert_eq!(o.bbox2d.l, d("10"));
    assert_eq!(o.bbox2d.h, d("200"));
    assert_eq!(o.bbox2d.w, d("100"));
    let p = o.bbox3d.pose;
    assert_eq!(p.translation, v3("5", "0.95", "30"));
    assert_eq!(p.frame, Frame::RectifiedCamera);
    assert_eq!(p.yaw.radians, d("-1.57"));
    assert_eq!(p.yaw.quarter_turns, -1);
    assert_eq!(o.score, None);
    assert_eq!(o.object_key, None);
}

#[test]
fn primary_line_score_and_exclusion() {
    let text = format!("{CAR} 0.87\nDontCare -1 -1 -10 1 2 3 4 -1 -1 -1 -1000 -1000 -1000 -10\nDontCare x\n{CAR}\n");
    let objs = read_ann_file(text.as_bytes(), &dontcare()).unwrap();
    assert_eq!(objs.len(), 2);
    assert_eq!(objs[0].score, Some(d("0.87")));
    assert_eq!(objs[1].score, None);
}

#[test]
fn philly_line_keeps_fields() {
    let objs = read_ann_file_philly(CAR.as_bytes(), &dontcare()).unwrap();
    let o = &objs[0];
    assert_eq!(o.bbox3d.extents, v3("1.5", "1.6", "3.8"));
    assert_eq!(o.bbox3d.pose.translation, v3("5", "1.7", "30"));
    assert_eq!(o.bbox3d.pose.frame, Frame::Sensor);
    assert_eq!(o.bbox3d.pose.yaw.radians, d("1.57"));
    assert_eq!(o.bbox3d.pose.yaw.quarter_turns, 0);
    assert_eq!(o.bbox2d.h, d("200"));
}

#[test]
fn label_errors() {
    assert_eq!(
        read_ann_file(b"Car 0 0 0 10 20 110", &dontcare()).unwrap_err(),
        AnnError::MissingFields
    );
    assert_eq!(
        read_ann_file(b"Car 0 0 0 10 20 110 220 1.5 1.6 3.8 5 1.7 30 x", &dontcare()).unwrap_err(),
        AnnError::InvalidNumber
    );
    assert_eq!(
        read_ann_file(b"Car 0 0 0 10 20 110 220 1.5 1.6 3.8 5 1.7 30 1 s", &dontcare())
            .unwrap_err(),
        AnnError::InvalidNumber
    );
    assert_eq!(
        read_ann_file(b"Car 0 0 0 10  20 110 220 1.5 1.6 3.8 5 1.7 30 1", &dontcare()).unwrap_err(),
        AnnError::InvalidNumber
    );
    let huge = "170141183460469231731687303715884105727";
    let line = format!("Car 0 0 0 -{huge} 20 {huge} 220 1.5 1.6 3.8 5 1.7 30 1");
    assert!(parse_decimal(huge.as_bytes()).is_none());
    let line2 = format!("Car 0 0 0 -9e37 20 9e37 220 1.5 1.6 3.8 5 1.7 30 1");
    assert!(read_ann_file(line.as_bytes(), &dontcare()).is_err());
    assert_eq!(read_ann_file(line2.as_bytes(), &dontcare()).unwrap_err(), AnnError::OutOfRange);
    assert_eq!(read_ann_file(b"", &dontcare()).unwrap().len(), 0);
}

#[test]
fn scooter_classes() {
    let mut objs = read_ann_file_philly(CAR.as_bytes(), &vec![]).unwrap();
    let o: &mut KittiObject = &mut objs[0];
    assert!(!o.is_scooter());
    o.class = b"Cyclist".to_vec();
    assert!(o.is_scooter());
    o.class = b"Scooter".to_vec();
    assert!(o.is_scooter());
}

fn figure(key: &str) -> SvFigure {
    SvFigure {
        object_key: key.as_bytes().to_vec(),
        position: v3("1", "2", "3"),
        rotation: v3("0.1", "0.2", "0.3"),
        dimensions: v3("4", "5", "6"),
    }
}

fn object(key: &str, tags: Vec<SvTag>) -> SvObject {
    SvObject { key: key.as_bytes().to_vec(), class_title: b"Car".to_vec(), tags }
}

fn tag(name: &str, value: Option<SvTagValue>) -> SvTag {
    SvTag { name: name.as_bytes().to_vec(), value }
}

#[test]
fn supervisely_objects() {
    let objects = vec![
        object("a", vec![tag("Confidence", Some(SvTagValue::Text(b"0.75".to_vec())))]),
        object("b", vec![]),
    ];
    let objs = read_from_supervisely(&vec![figure("b"), figure("a")], &objects).unwrap();
    assert_eq!(objs.len(), 2);
    assert_eq!(objs[0].object_key, Some(b"b".to_vec()));
    assert_eq!(objs[0].score, Some(d("1")));
    assert_eq!(objs[1].score, Some(d("0.75")));
    let b = objs[1].bbox3d;
    assert_eq!(b.extents, v3("5", "6", "4"));
    assert_eq!(b.pose.translation, v3("1", "2", "3"));
    assert_eq!(b.pose.roll.radians, d("0.1"));
    assert_eq!(b.pose.pitch.radians, d("0.2"));
    assert_eq!(b.pose.yaw.radians, d("0.3"));
    assert_eq!(b.pose.yaw.quarter_turns, 1);
    assert_eq!(objs[1].bbox2d.tlhw(), [Decimal::zero(); 4]);
}

#[test]
fn supervisely_errors_and_defaults() {
    let objects = vec![object("a", vec![])];
    assert_eq!(
        read_from_supervisely(&vec![figure("zz")], &objects).unwrap_err(),
        AnnError::ObjectNotFound
    );
    let bad = vec![object("a", vec![tag("Confidence", Some(SvTagValue::Text(b"high".to_vec())))])];
    assert_eq!(read_from_supervisely(&vec![figure("a")], &bad).unwrap_err(), AnnError::InvalidNumber);
    assert_eq!(
        confidence_score(&vec![tag("Confidence", Some(SvTagValue::Number(3)))]),
        Ok(d("1"))
    );
    assert_eq!(confidence_score(&vec![tag("Confidence", None)]), Ok(d("1")));
    assert_eq!(
        confidence_score(&vec![
            tag("Other", Some(SvTagValue::Text(b"0.2".to_vec()))),
            tag("Confidence", Some(SvTagValue::Text(b"0.4".to_vec()))),
            tag("Confidence", Some(SvTagValue::Text(b"0.9".to_vec()))),
        ]),
        Ok(d("0.4"))
    );
}

#[test]
fn frame_partition_and_counts() {
    let objs = read_ann_file_philly(format!("{CAR}\n{CAR}").as_bytes(), &vec![]).unwrap();
    let pts = decode_points(&[0u8; 64]).unwrap();
    let inside = vec![
        vec![true, false],
        vec![false, false],
        vec![true, true],
        vec![false, true],
    ];
    let f = assemble_frame(objs, &pts, &inside);
    assert_eq!(f.objects.len(), 2);
    assert_eq!(f.points_in_range.len(), 3);
    assert_eq!(f.points_out_range.len(), 1);
    assert_eq!(f.num_points_map, vec![2, 2]);
}

#[test]
fn frame_point_outside_every_box() {
    let pts = decode_points(&[0u8; 32]).unwrap();
    let f = assemble_frame(Vec::new(), &pts, &vec![vec![], vec![]]);
    assert_eq!(f.points_in_range.len(), 0);
    assert_eq!(f.points_out_range.len(), 2);
    assert!(f.num_points_map.is_empty());
}

#[test]
fn half_extents_checks() {
    assert!(identity_box("2", "4", "6").has_halves());
    let huge = "1e38";
    assert!(!identity_box(huge, "4", "6").has_halves());
    assert!(d("3").is_wf());
    assert!(!Decimal { mantissa: 10, scale: 1 }.is_wf());
    assert!(d("1.5").is_halvable());
}
