//! Splitting of text records into lines and fields.
use vstd::prelude::*;

verus! {

/// The pieces of `s` between bytes of `seps`, empty pieces included
/// (`"a  b"` split on spaces is `["a", "", "b"]`).
pub open spec fn split_keep(s: Seq<u8>, seps: Seq<u8>) -> Seq<Seq<u8>>
    decreases s.len(),
{
    if s.len() == 0 {
        seq![Seq::<u8>::empty()]
    } else {
        let r = split_keep(s.drop_last(), seps);
        if seps.contains(s.last()) {
            r.push(Seq::<u8>::empty())
        } else {
            r.update(r.len() - 1, r.last().push(s.last()))
        }
    }
}

pub proof fn lemma_split_keep_nonempty(s: Seq<u8>, seps: Seq<u8>)
    ensures
        split_keep(s, seps).len() >= 1,
    decreases s.len(),
{
    if s.len() > 0 {
        lemma_split_keep_nonempty(s.drop_last(), seps);
    }
}

/// The views of a vector of byte strings.
pub open spec fn views(v: Seq<Vec<u8>>) -> Seq<Seq<u8>> {
    v.map_values(|x: Vec<u8>| x@)
}

pub proof fn lemma_views_push(v: Seq<Vec<u8>>, x: Vec<u8>)
    ensures
        views(v.push(x)) == views(v).push(x@),
{
    assert(views(v.push(x)) =~= views(v).push(x@));
}

/// A line without the carriage return that ends it, if any.
pub open spec fn strip_cr(l: Seq<u8>) -> Seq<u8> {
    if l.len() > 0 && l.last() == 13 {
        l.drop_last()
    } else {
        l
    }
}

/// The lines of a text: pieces between newlines, without a final empty
/// piece after a closing newline, each without a trailing carriage return.
pub open spec fn lines(s: Seq<u8>) -> Seq<Seq<u8>> {
    let p = split_keep(s, seq![10u8]);
    let q = if p.last().len() == 0 {
        p.drop_last()
    } else {
        p
    };
    q.map_values(|l: Seq<u8>| strip_cr(l))
}

/// The non-empty pieces of a line between spaces and colons.
pub open spec fn words(line: Seq<u8>) -> Seq<Seq<u8>> {
    split_keep(line, seq![32u8, 58u8]).filter(|w: Seq<u8>| w.len() > 0)
}

/// A copy of a byte string.
pub fn copy_bytes(v: &Vec<u8>) -> (r: Vec<u8>)
    ensures
        r@ == v@,
{
    let r = v.clone();
    proof {
        assert(r@ =~= v@);
    }
    r
}

fn is_separator(c: u8, seps: &[u8]) -> (r: bool)
    ensures
        r == seps@.contains(c),
{
    let mut i: usize = 0;
    while i < seps.len()
        invariant
            i <= seps.len(),
            forall|j: int| 0 <= j < i ==> seps@[j] != c,
        decreases seps.len() - i,
    {
        if seps[i] == c {
            return true;
        }
        i = i + 1;
    }
    false
}

/// Splits `s` at every byte of `seps`, keeping empty pieces.
pub fn split_on(s: &[u8], seps: &[u8]) -> (r: Vec<Vec<u8>>)
    ensures
        views(r@) == split_keep(s@, seps@),
{
    let mut done: Vec<Vec<u8>> = Vec::new();
    let mut cur: Vec<u8> = Vec::new();
    let mut i: usize = 0;
    proof {
        assert(s@.take(0) =~= Seq::<u8>::empty());
        assert(views(done@).push(cur@) =~= seq![Seq::<u8>::empty()]);
    }
    while i < s.len()
        invariant
            i <= s.len(),
            views(done@).push(cur@) == split_keep(s@.take(i as int), seps@),
        decreases s.len() - i,
    {
        let c = s[i];
        proof {
            assert(s@.take(i + 1).drop_last() =~= s@.take(i as int));
            lemma_split_keep_nonempty(s@.take(i as int), seps@);
        }
        let ghost prev = split_keep(s@.take(i as int), seps@);
        if is_separator(c, seps) {
            let piece = cur;
            done.push(piece);
            cur = Vec::new();
            proof {
                assert(views(done@) =~= prev);
                assert(views(done@).push(cur@) =~= prev.push(Seq::<u8>::empty()));
            }
        } else {
            cur.push(c);
            proof {
                assert(views(done@).push(cur@) =~= prev.update(
                    prev.len() - 1,
                    prev.last().push(c),
                ));
            }
        }
        i = i + 1;
    }
    proof {
        assert(s@.take(s.len() as int) =~= s@);
    }
    done.push(cur);
    proof {
        assert(views(done@) =~= split_keep(s@, seps@));
    }
    done
}

fn strip_trailing_cr(l: Vec<u8>) -> (r: Vec<u8>)
    ensures
        r@ == strip_cr(l@),
{
    let ghost orig = l@;
    let mut l = l;
    if l.len() > 0 && l[l.len() - 1] == 13 {
        l.pop();
        proof {
            assert(l@ =~= strip_cr(orig));
        }
    }
    l
}

/// Splits a text into its lines.
pub fn split_lines(s: &[u8]) -> (r: Vec<Vec<u8>>)
    ensures
        views(r@) == lines(s@),
{
    let seps: [u8; 1] = [10u8];
    let pieces = split_on(s, seps.as_slice());
    let ghost p = split_keep(s@, seq![10u8]);
    proof {
        assert(seps@ =~= seq![10u8]);
        lemma_split_keep_nonempty(s@, seq![10u8]);
    }
    let mut pieces = pieces;
    let n = pieces.len();
    let drop_last = pieces[n - 1].len() == 0;
    if drop_last {
        pieces.pop();
    }
    let ghost q = if p.last().len() == 0 {
        p.drop_last()
    } else {
        p
    };
    proof {
        assert(views(pieces@) =~= q);
    }
    let mut out: Vec<Vec<u8>> = Vec::new();
    let mut i: usize = 0;
    while i < pieces.len()
        invariant
            i <= pieces.len(),
            views(pieces@) == q,
            views(out@) =~= q.take(i as int).map_values(|l: Seq<u8>| strip_cr(l)),
        decreases pieces.len() - i,
    {
        let line = copy_bytes(&pieces[i]);
        let stripped = strip_trailing_cr(line);
        let ghost before = out@;
        out.push(stripped);
        proof {
            lemma_views_push(before, stripped);
            assert(q[i as int] == pieces@[i as int]@);
            assert(q.take(i + 1) =~= q.take(i as int).push(q[i as int]));
            assert(views(out@) =~= q.take(i + 1).map_values(|l: Seq<u8>| strip_cr(l)));
        }
        i = i + 1;
    }
    proof {
        assert(q.take(q.len() as int) =~= q);
    }
    out
}

/// The non-empty pieces of a line between spaces and colons.
pub fn split_words(line: &[u8]) -> (r: Vec<Vec<u8>>)
    ensures
        views(r@) == words(line@),
{
    let seps: [u8; 2] = [32u8, 58u8];
    proof {
        assert(seps@ =~= seq![32u8, 58u8]);
    }
    let pieces = split_on(line, seps.as_slice());
    let ghost p = split_keep(line@, seq![32u8, 58u8]);
    proof {
        reveal(Seq::filter);
        assert(p.take(0) =~= Seq::<Seq<u8>>::empty());
    }
    let mut out: Vec<Vec<u8>> = Vec::new();
    let mut i: usize = 0;
    while i < pieces.len()
        invariant
            i <= pieces.len(),
            views(pieces@) == p,
            views(out@) =~= p.take(i as int).filter(|w: Seq<u8>| w.len() > 0),
        decreases pieces.len() - i,
    {
        proof {
            assert(p.take(i + 1).drop_last() =~= p.take(i as int));
            assert(p[i as int] == pieces@[i as int]@);
        }
        let ghost before = out@;
        proof {
            assert(p.take(i + 1).last() == p[i as int]);
            reveal(Seq::filter);
        }
        if pieces[i].len() > 0 {
            let w = copy_bytes(&pieces[i]);
            out.push(w);
            proof {
                lemma_views_push(before, w);
                assert(p[i as int].len() > 0);
                assert(p.take(i + 1).filter(|w: Seq<u8>| w.len() > 0) == p.take(i as int).filter(|w: Seq<u8>| w.len() > 0).push(p[i as int]));
                assert(views(out@) =~= p.take(i + 1).filter(|w: Seq<u8>| w.len() > 0));
            }
        } else {
            proof {
                assert(p[i as int].len() == 0);
                assert(p.take(i + 1).filter(|w: Seq<u8>| w.len() > 0) == p.take(i as int).filter(|w: Seq<u8>| w.len() > 0));
                assert(views(out@) =~= p.take(i + 1).filter(|w: Seq<u8>| w.len() > 0));
            }
        }
        i = i + 1;
    }
    proof {
        assert(p.take(p.len() as int) =~= p);
    }
    out
}

} // verus!
