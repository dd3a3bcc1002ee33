//! Run-length encoding of a sequence of code lengths.
use crate::code_length_symbol::{cl_body_ok, cl_expand, CodeLengthSymbol};
use vstd::prelude::*;

verus! {

/// The symbols after one more length `cl`: a zero extends a run of zeros
/// (up to 138) or turns two zero literals into a run of three; a length
/// seen a fourth time in a row turns the last three literals into one and a
/// repeat of three, and a repeat of the previous length grows up to six;
/// else the length is sent as it is.
pub open spec fn rle_push(ret: Seq<CodeLengthSymbol>, cl: u8) -> Seq<CodeLengthSymbol> {
    let l = ret.len();
    if cl == 0 && l >= 1 && ret[l - 1] is RepeatZero && ret[l - 1]->RepeatZero_0 < 138 {
        ret.update(l - 1, CodeLengthSymbol::RepeatZero((ret[l - 1]->RepeatZero_0 + 1) as usize))
    } else if cl == 0 && l >= 2 && ret[l - 2] == CodeLengthSymbol::Literal(0) && ret[l - 1]
        == CodeLengthSymbol::Literal(0) {
        ret.drop_last().drop_last().push(CodeLengthSymbol::RepeatZero(3))
    } else if l >= 3 && ret[l - 3] == CodeLengthSymbol::Literal(cl) && ret[l - 2]
        == CodeLengthSymbol::Literal(cl) && ret[l - 1] == CodeLengthSymbol::Literal(cl) {
        ret.drop_last().drop_last().push(CodeLengthSymbol::CopyPrevious(3))
    } else if l >= 2 && ret[l - 2] == CodeLengthSymbol::Literal(cl) && ret[l - 1] is CopyPrevious
        && ret[l - 1]->CopyPrevious_0 < 6 {
        ret.update(l - 1, CodeLengthSymbol::CopyPrevious((ret[l - 1]->CopyPrevious_0 + 1) as usize))
    } else {
        ret.push(CodeLengthSymbol::Literal(cl))
    }
}

/// The run-length encoding of `lengths`, one length at a time.
pub open spec fn rle(lengths: Seq<u8>) -> Seq<CodeLengthSymbol>
    decreases lengths.len(),
{
    if lengths.len() == 0 {
        Seq::empty()
    } else {
        rle_push(rle(lengths.drop_last()), lengths.last())
    }
}

/// Run-length encodes code lengths: a run of zeros becomes one repeat of
/// zero once it reaches three, and a length seen a fourth time in a row
/// becomes a repeat of the previous length; everything else is sent as it
/// is. The symbols expand back to `lengths`.
pub fn symbolize_code_length(lengths: &[u8]) -> (r: Vec<CodeLengthSymbol>)
    requires
        forall|k: int| 0 <= k < lengths@.len() ==> lengths@[k] <= 15,
    ensures
        r@ == rle(lengths@),
        cl_body_ok(r@),
        cl_expand(r@) == lengths@,
{
    let mut ret: Vec<CodeLengthSymbol> = Vec::new();
    let mut k: usize = 0;
    while k < lengths.len()
        invariant
            k <= lengths@.len(),
            forall|m: int| 0 <= m < lengths@.len() ==> lengths@[m] <= 15,
            cl_body_ok(ret@),
            cl_expand(ret@) == lengths@.take(k as int),
            ret@ == rle(lengths@.take(k as int)),
        decreases lengths.len() - k,
    {
        let cl = lengths[k];
        let ghost before = ret@;
        let ghost e = cl_expand(before);
        proof {
            assert(lengths@.take(k + 1) =~= e.push(cl));
            assert(lengths@.take(k + 1).drop_last() =~= lengths@.take(k as int));
            assert(rle(lengths@.take(k + 1)) == rle_push(before, cl));
        }
        k = k + 1;
        let l = ret.len();
        if cl == 0 && l >= 1 {
            if let CodeLengthSymbol::RepeatZero(z) = ret[l - 1] {
                if z < 138 {
                    ret.set(l - 1, CodeLengthSymbol::RepeatZero(z + 1));
                    proof {
                        assert(ret@ =~= rle_push(before, cl));
                        assert(ret@.drop_last() =~= before.drop_last());
                        assert(cl_expand(ret@) =~= e.push(0));
                    }
                    continue;
                }
            }
        }
        if cl == 0 && l >= 2 {
            if let (CodeLengthSymbol::Literal(0), CodeLengthSymbol::Literal(0)) = (
                ret[l - 2],
                ret[l - 1],
            ) {
                ret.pop();
                ret.pop();
                ret.push(CodeLengthSymbol::RepeatZero(3));
                proof {
                    assert(ret@ =~= rle_push(before, cl));
                    let p = before.drop_last().drop_last();
                    assert(ret@.drop_last() =~= p);
                    assert(before.drop_last().last() == CodeLengthSymbol::Literal(0));
                    assert(cl_expand(before.drop_last()) == cl_expand(p).push(0));
                    assert(e == cl_expand(p).push(0).push(0));
                    assert(cl_expand(ret@) =~= e.push(0));
                    assert(cl_body_ok(before.drop_last()));
                    assert(cl_body_ok(p));
                }
                continue;
            }
        }
        if l >= 3 {
            if let (
                CodeLengthSymbol::Literal(x),
                CodeLengthSymbol::Literal(y),
                CodeLengthSymbol::Literal(z),
            ) = (ret[l - 3], ret[l - 2], ret[l - 1]) {
                if x == cl && y == cl && z == cl {
                    ret.pop();
                    ret.pop();
                    ret.push(CodeLengthSymbol::CopyPrevious(3));
                    proof {
                        assert(ret@ =~= rle_push(before, cl));
                        let p = before.drop_last().drop_last();
                        assert(ret@.drop_last() =~= p);
                        assert(p.last() == CodeLengthSymbol::Literal(cl));
                        assert(cl_expand(p) == cl_expand(p.drop_last()).push(cl));
                        assert(cl_expand(p).last() == cl);
                        assert(before.drop_last().last() == CodeLengthSymbol::Literal(cl));
                        assert(cl_expand(before.drop_last()) == cl_expand(p).push(cl));
                        assert(e == cl_expand(p).push(cl).push(cl));
                        assert(cl_expand(ret@) =~= e.push(cl));
                        assert(cl_body_ok(before.drop_last()));
                        assert(cl_body_ok(p));
                    }
                    continue;
                }
            }
        }
        if l >= 2 {
            if let (CodeLengthSymbol::Literal(x), CodeLengthSymbol::CopyPrevious(y)) = (
                ret[l - 2],
                ret[l - 1],
            ) {
                if x == cl && y < 6 {
                    ret.set(l - 1, CodeLengthSymbol::CopyPrevious(y + 1));
                    proof {
                        assert(ret@ =~= rle_push(before, cl));
                        let p = before.drop_last();
                        assert(ret@.drop_last() =~= p);
                        assert(cl_expand(p).last() == cl);
                        assert(cl_expand(ret@) =~= e.push(cl));
                    }
                    continue;
                }
            }
        }
        ret.push(CodeLengthSymbol::Literal(cl));
        proof {
            assert(ret@.drop_last() =~= before);
            assert(ret@ =~= rle_push(before, cl));
        }
    }
    proof {
        assert(lengths@.take(k as int) =~= lengths@);
    }
    ret
}

} // verus!
