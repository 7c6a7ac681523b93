//! Frame files: a frame's files are named by its index written with at
//! least six digits (`000042.txt`); the frames of a data set are the
//! label files found, in name order.
use vstd::prelude::*;
use crate::text::views;

verus! {

/// The decimal digits of `n`.
pub open spec fn digits_of(n: nat) -> Seq<u8>
    decreases n,
{
    if n < 10 {
        seq![(48 + n) as u8]
    } else {
        digits_of(n / 10).push((48 + n % 10) as u8)
    }
}

/// `s` with zeros in front up to `width` bytes.
pub open spec fn zero_padded(s: Seq<u8>, width: nat) -> Seq<u8> {
    if s.len() < width {
        Seq::new((width - s.len()) as nat, |i: int| 48u8) + s
    } else {
        s
    }
}

/// The value of a string of decimal digits.
pub open spec fn digits_value(s: Seq<u8>) -> nat
    decreases s.len(),
{
    if s.len() == 0 {
        0
    } else {
        digits_value(s.drop_last()) * 10 + (s.last() - 48) as nat
    }
}

pub open spec fn all_digits(s: Seq<u8>) -> bool {
    forall|i: int| 0 <= i < s.len() ==> 48 <= #[trigger] s[i] <= 57
}

/// The index a file-name stem denotes: digits, optionally after a `+`.
pub open spec fn index_value(stem: Seq<u8>) -> Option<nat> {
    let d = if stem.len() > 0 && stem[0] == 43 {
        stem.skip(1)
    } else {
        stem
    };
    if d.len() > 0 && all_digits(d) && digits_value(d) <= usize::MAX {
        Some(digits_value(d))
    } else {
        None
    }
}

/// `.txt`.
pub open spec fn txt_suffix() -> Seq<u8> {
    seq![46u8, 116u8, 120u8, 116u8]
}

/// The stem of a label file name: the name without its `.txt`
/// extension, when it has one after a non-empty stem.
pub open spec fn txt_stem(name: Seq<u8>) -> Option<Seq<u8>> {
    if name.len() > 4 && name.skip(name.len() - 4) == txt_suffix() {
        Some(name.take(name.len() - 4))
    } else {
        None
    }
}

/// Why frame indices could not be read from file names.
#[derive(Debug, Clone, Copy, PartialEq, Eq, Structural)]
pub enum IndexError {
    /// A label file's stem is not an index.
    InvalidIndex,
}

/// The indices of the label files among `names`, in order; other names are skipped.
pub open spec fn indices_of(names: Seq<Seq<u8>>) -> Result<Seq<usize>, IndexError>
    decreases names.len(),
{
    if names.len() == 0 {
        Ok(Seq::empty())
    } else {
        match indices_of(names.drop_last()) {
            Err(e) => Err(e),
            Ok(ix) => match txt_stem(names.last()) {
                None => Ok(ix),
                Some(stem) => match index_value(stem) {
                    None => Err(IndexError::InvalidIndex),
                    Some(v) => Ok(ix.push(v as usize)),
                },
            },
        }
    }
}

proof fn lemma_prefix_value_bounded(s: Seq<u8>, k: int)
    requires
        0 <= k <= s.len(),
    ensures
        digits_value(s.take(k)) <= digits_value(s),
    decreases s.len() - k,
{
    if k < s.len() {
        lemma_prefix_value_bounded(s, k + 1);
        assert(s.take(k + 1).drop_last() =~= s.take(k));
    } else {
        assert(s.take(k) =~= s);
    }
}

pub proof fn lemma_indices_error_sticks(names: Seq<Seq<u8>>, k: int)
    requires
        0 <= k <= names.len(),
        indices_of(names.take(k)) is Err,
    ensures
        indices_of(names) == indices_of(names.take(k)),
    decreases names.len() - k,
{
    if k < names.len() {
        assert(names.take(k + 1).drop_last() =~= names.take(k));
        lemma_indices_error_sticks(names, k + 1);
    } else {
        assert(names.take(k) =~= names);
    }
}

fn push_digits(n: usize, out: &mut Vec<u8>)
    ensures
        final(out)@ == old(out)@ + digits_of(n as nat),
    decreases n,
{
    if n >= 10 {
        push_digits(n / 10, out);
    }
    out.push(48 + (n % 10) as u8);
    proof {
        assert(old(out)@ + digits_of(n as nat) =~= final(out)@);
    }
}

/// A frame's file stem: its index written with at least six digits.
pub fn frame_stem(index: usize) -> (r: Vec<u8>)
    ensures
        r@ == zero_padded(digits_of(index as nat), 6),
{
    let mut digits: Vec<u8> = Vec::new();
    push_digits(index, &mut digits);
    proof {
        assert(digits@ =~= digits_of(index as nat));
    }
    let mut out: Vec<u8> = Vec::new();
    let mut pad: usize = 0;
    let n_pad: usize = if digits.len() < 6 { 6 - digits.len() } else { 0 };
    while pad < n_pad
        invariant
            pad <= n_pad,
            out@ =~= Seq::new(pad as nat, |i: int| 48u8),
        decreases n_pad - pad,
    {
        out.push(48u8);
        pad = pad + 1;
    }
    let mut i: usize = 0;
    while i < digits.len()
        invariant
            i <= digits.len(),
            out@ =~= Seq::new(n_pad as nat, |j: int| 48u8) + digits@.take(i as int),
        decreases digits.len() - i,
    {
        out.push(digits[i]);
        i = i + 1;
    }
    proof {
        assert(digits@.take(digits.len() as int) =~= digits@);
        if digits@.len() >= 6 {
            assert(out@ =~= digits@);
        }
    }
    out
}

/// Reads the index that a file-name stem denotes.
pub fn parse_index(stem: &[u8]) -> (r: Option<usize>)
    ensures
        r is Some <==> index_value(stem@) is Some,
        r is Some ==> r->Some_0 == index_value(stem@)->Some_0,
{
    let start: usize = if stem.len() > 0 && stem[0] == 43 { 1 } else { 0 };
    let ghost d = if stem@.len() > 0 && stem@[0] == 43 {
        stem@.skip(1)
    } else {
        stem@
    };
    proof {
        assert(d =~= stem@.skip(start as int));
    }
    if start >= stem.len() {
        return None;
    }
    let mut v: usize = 0;
    let mut i: usize = start;
    while i < stem.len()
        invariant
            start <= i <= stem.len(),
            d == stem@.skip(start as int),
            d == (if stem@.len() > 0 && stem@[0] == 43 {
                stem@.skip(1)
            } else {
                stem@
            }),
            d.len() > 0,
            all_digits(d.take(i - start)),
            v == digits_value(d.take(i - start)),
        decreases stem.len() - i,
    {
        let c = stem[i];
        let ghost k = i - start;
        proof {
            assert(d.take(k + 1).drop_last() =~= d.take(k));
            assert(d[k] == c);
        }
        if c < 48 || c > 57 {
            proof {
                assert(!all_digits(d));
                assert(index_value(stem@) is None);
            }
            return None;
        }
        let digit = (c - 48) as usize;
        if v > (usize::MAX - digit) / 10 {
            proof {
                assert(digits_value(d.take(k + 1)) == v * 10 + digit);
                assert(v * 10 + digit > usize::MAX) by (nonlinear_arith)
                    requires
                        v > (usize::MAX - digit) / 10,
                        digit <= 9,
                ;
                lemma_prefix_value_bounded(d, k + 1);
                assert(digits_value(d) > usize::MAX);
                assert(index_value(stem@) is None);
            }
            return None;
        }
        proof {
            assert(v * 10 + digit <= usize::MAX) by (nonlinear_arith)
                requires
                    v <= (usize::MAX - digit) / 10,
                    digit <= 9,
            ;
            assert forall|j: int| 0 <= j < k + 1 implies 48 <= #[trigger] d.take(k + 1)[j] <= 57 by {
                if j < k {
                    assert(d.take(k + 1)[j] == d.take(k)[j]);
                }
            }
        }
        v = v * 10 + digit;
        i = i + 1;
    }
    proof {
        assert(d.take(stem@.len() - start) =~= d);
    }
    Some(v)
}

/// The frame indices of a directory listing: for each name that ends in
/// `.txt` after a non-empty stem, in order, the index its stem denotes.
pub fn indices_from_file_names(names: &Vec<Vec<u8>>) -> (r: Result<Vec<usize>, IndexError>)
    ensures
        r is Ok <==> indices_of(views(names@)) is Ok,
        r is Ok ==> r->Ok_0@ == indices_of(views(names@))->Ok_0,
        r is Err ==> r->Err_0 == indices_of(views(names@))->Err_0,
{
    let ghost nv = views(names@);
    let mut out: Vec<usize> = Vec::new();
    let mut i: usize = 0;
    proof {
        assert(nv.take(0) =~= Seq::<Seq<u8>>::empty());
    }
    while i < names.len()
        invariant
            i <= names.len(),
            nv == views(names@),
            indices_of(nv.take(i as int)) == Ok::<Seq<usize>, IndexError>(out@),
        decreases names.len() - i,
    {
        proof {
            assert(nv.take(i + 1).drop_last() =~= nv.take(i as int));
            assert(nv[i as int] == names@[i as int]@);
        }
        let name = &names[i];
        let n = name.len();
        let is_txt = n > 4 && name[n - 4] == 46 && name[n - 3] == 116 && name[n - 2] == 120
            && name[n - 1] == 116;
        proof {
            let s = name@.skip(n - 4);
            if n > 4 {
                if is_txt {
                    assert(s =~= txt_suffix());
                } else {
                    if s == txt_suffix() {
                        assert(s[0] == name@[n - 4]);
                        assert(s[1] == name@[n - 3]);
                        assert(s[2] == name@[n - 2]);
                        assert(s[3] == name@[n - 1]);
                    }
                }
            }
        }
        if is_txt {
            let stem = vstd::slice::slice_subrange(name.as_slice(), 0, n - 4);
            proof {
                assert(stem@ =~= name@.take(n - 4));
            }
            match parse_index(stem) {
                Some(v) => {
                    out.push(v);
                },
                None => {
                    proof {
                        lemma_indices_error_sticks(nv, i + 1);
                    }
                    return Err(IndexError::InvalidIndex);
                },
            }
        }
        i = i + 1;
    }
    proof {
        assert(nv.take(names.len() as int) =~= nv);
    }
    Ok(out)
}

} // verus!
