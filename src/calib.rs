//! Per-frame calibration records: lines `KEY: v1 v2 ...` holding the
//! projection matrix, the sensor-to-camera matrix and the rectification
//! rotation, each in row-major order.
use vstd::prelude::*;
use crate::decimal::{Decimal, parse_decimal, parses, decimal_of};
use crate::text::{views, words, lines, split_lines, split_words};

verus! {

/// Why a calibration record was refused.
#[derive(Debug, Clone, Copy, PartialEq, Eq, Structural)]
pub enum CalibError {
    /// A value of a recognised key is not a number.
    InvalidNumber,
    /// A recognised key carries the wrong number of values.
    WrongValueCount,
}

/// The three matrices of a calibration record, row-major.
#[derive(Debug)]
pub struct KittiCalib {
    /// Rectified camera (3D) to image (2D), 3x4.
    pub p0: Vec<Decimal>,
    /// Sensor to camera, 3x4: a rotation and a translation column.
    pub velo_to_cam: Vec<Decimal>,
    /// Rectification rotation, 3x3.
    pub r0_rect: Vec<Decimal>,
}

/// The three matrices as sequences of entries.
pub type CalibModel = (Seq<Decimal>, Seq<Decimal>, Seq<Decimal>);

pub open spec fn key_p0() -> Seq<u8> {
    seq![80u8, 48u8]
}

pub open spec fn key_velo_to_cam() -> Seq<u8> {
    seq![84u8, 114u8, 95u8, 118u8, 101u8, 108u8, 111u8, 95u8, 116u8, 111u8, 95u8, 99u8, 97u8, 109u8]
}

pub open spec fn key_r0_rect() -> Seq<u8> {
    seq![82u8, 48u8, 95u8, 114u8, 101u8, 99u8, 116u8]
}

/// `n` zero entries.
pub open spec fn zeros(n: nat) -> Seq<Decimal> {
    Seq::new(n, |i: int| Decimal { mantissa: 0, scale: 0 })
}

/// The entries given by value tokens, for a matrix of `n` entries.
pub open spec fn matrix_of(ws: Seq<Seq<u8>>, n: nat) -> Result<Seq<Decimal>, CalibError> {
    if !(forall|i: int| 0 <= i < ws.len() ==> parses(#[trigger] ws[i])) {
        Err(CalibError::InvalidNumber)
    } else if ws.len() != n {
        Err(CalibError::WrongValueCount)
    } else {
        Ok(ws.map_values(|t: Seq<u8>| decimal_of(t)))
    }
}

/// The effect of one line: a recognised key replaces its matrix, any other line is ignored.
pub open spec fn calib_step(acc: Result<CalibModel, CalibError>, line: Seq<u8>) -> Result<
    CalibModel,
    CalibError,
> {
    match acc {
        Err(e) => Err(e),
        Ok(m) => {
            let w = words(line);
            if w.len() == 0 {
                Ok(m)
            } else if w[0] == key_p0() {
                match matrix_of(w.skip(1), 12) {
                    Ok(p) => Ok((p, m.1, m.2)),
                    Err(e) => Err(e),
                }
            } else if w[0] == key_velo_to_cam() {
                match matrix_of(w.skip(1), 12) {
                    Ok(v) => Ok((m.0, v, m.2)),
                    Err(e) => Err(e),
                }
            } else if w[0] == key_r0_rect() {
                match matrix_of(w.skip(1), 9) {
                    Ok(r) => Ok((m.0, m.1, r)),
                    Err(e) => Err(e),
                }
            } else {
                Ok(m)
            }
        },
    }
}

/// The matrices after reading lines in order, starting from zero matrices.
pub open spec fn calib_lines(ls: Seq<Seq<u8>>) -> Result<CalibModel, CalibError>
    decreases ls.len(),
{
    if ls.len() == 0 {
        Ok((zeros(12), zeros(12), zeros(9)))
    } else {
        calib_step(calib_lines(ls.drop_last()), ls.last())
    }
}

/// The matrices that a calibration record defines.
pub open spec fn calib_of(content: Seq<u8>) -> Result<CalibModel, CalibError> {
    calib_lines(lines(content))
}

/// Whether a line carries none of the recognised keys.
pub open spec fn ignored_line(line: Seq<u8>) -> bool {
    let w = words(line);
    w.len() == 0 || (w[0] != key_p0() && w[0] != key_velo_to_cam() && w[0] != key_r0_rect())
}

/// A line with an unrecognised key, wherever it stands in a record, neither
/// causes an error nor changes any matrix.
pub proof fn lemma_unknown_key_ignored(ls: Seq<Seq<u8>>, i: int, line: Seq<u8>)
    requires
        0 <= i <= ls.len(),
        ignored_line(line),
    ensures
        calib_lines(ls.insert(i, line)) == calib_lines(ls),
    decreases ls.len(),
{
    let with = ls.insert(i, line);
    if i == ls.len() {
        assert(with.drop_last() =~= ls);
        assert(with.last() == line);
    } else {
        assert(with.drop_last() =~= ls.drop_last().insert(i, line));
        assert(with.last() == ls.last());
        lemma_unknown_key_ignored(ls.drop_last(), i, line);
    }
}

/// Once a line is refused, the whole record is refused with that error.
pub proof fn lemma_calib_error_sticks(ls: Seq<Seq<u8>>, k: int)
    requires
        0 <= k <= ls.len(),
        calib_lines(ls.take(k)) is Err,
    ensures
        calib_lines(ls) == calib_lines(ls.take(k)),
    decreases ls.len() - k,
{
    if k < ls.len() {
        assert(ls.take(k + 1).drop_last() =~= ls.take(k));
        lemma_calib_error_sticks(ls, k + 1);
    } else {
        assert(ls.take(k) =~= ls);
    }
}

/// Whether two byte strings are equal.
pub fn bytes_eq(a: &[u8], b: &[u8]) -> (r: bool)
    ensures
        r == (a@ == b@),
{
    if a.len() != b.len() {
        return false;
    }
    let mut i: usize = 0;
    while i < a.len()
        invariant
            i <= a.len(),
            a.len() == b.len(),
            forall|j: int| 0 <= j < i ==> a@[j] == b@[j],
        decreases a.len() - i,
    {
        if a[i] != b[i] {
            return false;
        }
        i = i + 1;
    }
    proof {
        assert(a@ =~= b@);
    }
    true
}

fn zero_entries(n: usize) -> (r: Vec<Decimal>)
    ensures
        r@ == zeros(n as nat),
{
    let mut v: Vec<Decimal> = Vec::new();
    let mut i: usize = 0;
    while i < n
        invariant
            i <= n,
            v@ =~= zeros(i as nat),
        decreases n - i,
    {
        v.push(Decimal::zero());
        i = i + 1;
    }
    v
}

/// Parses the value tokens `w[1..]` into a matrix of `n` entries.
fn parse_matrix(w: &Vec<Vec<u8>>, n: usize) -> (r: Result<Vec<Decimal>, CalibError>)
    requires
        w.len() >= 1,
    ensures
        r is Ok <==> matrix_of(views(w@).skip(1), n as nat) is Ok,
        r is Ok ==> r.unwrap()@ == matrix_of(views(w@).skip(1), n as nat).unwrap(),
        r is Err ==> r->Err_0 == matrix_of(views(w@).skip(1), n as nat)->Err_0,
{
    let ghost ws = views(w@).skip(1);
    let mut vals: Vec<Decimal> = Vec::new();
    let mut i: usize = 1;
    while i < w.len()
        invariant
            1 <= i <= w.len(),
            ws == views(w@).skip(1),
            vals@ =~= ws.take(i - 1).map_values(|t: Seq<u8>| decimal_of(t)),
            forall|j: int| 0 <= j < i - 1 ==> parses(#[trigger] ws[j]),
        decreases w.len() - i,
    {
        assert(ws[i - 1] == w@[i as int]@);
        match parse_decimal(w[i].as_slice()) {
            Some(d) => {
                vals.push(d);
            },
            None => {
                return Err(CalibError::InvalidNumber);
            },
        }
        i = i + 1;
    }
    if w.len() - 1 != n {
        return Err(CalibError::WrongValueCount);
    }
    proof {
        assert(ws.take(ws.len() as int) =~= ws);
    }
    Ok(vals)
}

impl KittiCalib {
    pub open spec fn model(&self) -> CalibModel {
        (self.p0@, self.velo_to_cam@, self.r0_rect@)
    }

    /// Reads a calibration record. Unrecognised keys are ignored; a
    /// recognised key that occurs again replaces the earlier values; a
    /// key that never occurs leaves its matrix zero.
    pub fn parse(content: &[u8]) -> (r: Result<KittiCalib, CalibError>)
        ensures
            r is Ok <==> calib_of(content@) is Ok,
            r is Ok ==> r.unwrap().model() == calib_of(content@).unwrap(),
            r is Err ==> r->Err_0 == calib_of(content@)->Err_0,
    {
        let ls = split_lines(content);
        let ghost lv = views(ls@);
        let key_p0_bytes: [u8; 2] = [80u8, 48u8];
        let key_velo_bytes: [u8; 14] = [
            84u8, 114u8, 95u8, 118u8, 101u8, 108u8, 111u8, 95u8, 116u8, 111u8, 95u8, 99u8, 97u8, 109u8,
        ];
        let key_r0_bytes: [u8; 7] = [82u8, 48u8, 95u8, 114u8, 101u8, 99u8, 116u8];
        proof {
            assert(key_p0_bytes@ =~= key_p0());
            assert(key_velo_bytes@ =~= key_velo_to_cam());
            assert(key_r0_bytes@ =~= key_r0_rect());
        }
        let mut calib = KittiCalib {
            p0: zero_entries(12),
            velo_to_cam: zero_entries(12),
            r0_rect: zero_entries(9),
        };
        let mut i: usize = 0;
        proof {
            assert(lv.take(0).len() == 0);
        }
        while i < ls.len()
            invariant
                i <= ls.len(),
                lv == views(ls@),
                lv == lines(content@),
                key_p0_bytes@ == key_p0(),
                key_velo_bytes@ == key_velo_to_cam(),
                key_r0_bytes@ == key_r0_rect(),
                calib_lines(lv.take(i as int)) == Ok::<CalibModel, CalibError>(calib.model()),
            decreases ls.len() - i,
        {
            proof {
                assert(lv.take(i + 1).drop_last() =~= lv.take(i as int));
                assert(lv[i as int] == ls@[i as int]@);
            }
            let w = split_words(ls[i].as_slice());
            let ghost wv = views(w@);
            if w.len() > 0 {
                proof {
                    assert(wv[0] == w@[0]@);
                }
                if bytes_eq(w[0].as_slice(), key_p0_bytes.as_slice()) {
                    match parse_matrix(&w, 12) {
                        Ok(m) => {
                            calib.p0 = m;
                        },
                        Err(e) => {
                            proof {
                                lemma_calib_error_sticks(lv, i + 1);
                            }
                            return Err(e);
                        },
                    }
                } else if bytes_eq(w[0].as_slice(), key_velo_bytes.as_slice()) {
                    match parse_matrix(&w, 12) {
                        Ok(m) => {
                            calib.velo_to_cam = m;
                        },
                        Err(e) => {
                            proof {
                                lemma_calib_error_sticks(lv, i + 1);
                            }
                            return Err(e);
                        },
                    }
                } else if bytes_eq(w[0].as_slice(), key_r0_bytes.as_slice()) {
                    match parse_matrix(&w, 9) {
                        Ok(m) => {
                            calib.r0_rect = m;
                        },
                        Err(e) => {
                            proof {
                                lemma_calib_error_sticks(lv, i + 1);
                            }
                            return Err(e);
                        },
                    }
                }
            }
            i = i + 1;
        }
        proof {
            assert(lv.take(ls.len() as int) =~= lv);
        }
        Ok(calib)
    }
}

} // verus!
