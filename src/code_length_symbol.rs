//! The run-length alphabet in which a block sends its code lengths.
use crate::bits::{lsb_bits, ShortBits};
use vstd::prelude::*;

verus! {

/// One symbol of the code-length alphabet: a length, a repeat of the
/// previous length (3 to 6 times), or a run of zero lengths (3 to 138).
#[derive(Debug, Clone, Copy)]
pub enum CodeLengthSymbol {
    Literal(u8),
    CopyPrevious(usize),
    RepeatZero(usize),
}

impl CodeLengthSymbol {
    /// The symbol can be sent.
    pub open spec fn is_valid(self) -> bool {
        match self {
            CodeLengthSymbol::Literal(l) => l <= 15,
            CodeLengthSymbol::CopyPrevious(n) => 3 <= n <= 6,
            CodeLengthSymbol::RepeatZero(n) => 3 <= n <= 138,
        }
    }

    /// Its index in the code-length alphabet.
    pub open spec fn code_spec(self) -> nat {
        match self {
            CodeLengthSymbol::Literal(l) => l as nat,
            CodeLengthSymbol::CopyPrevious(_) => 16,
            CodeLengthSymbol::RepeatZero(n) => if n < 11 {
                17
            } else {
                18
            },
        }
    }

    /// The value and the width of the raw field that follows its code.
    pub open spec fn extra_spec(self) -> (nat, nat) {
        match self {
            CodeLengthSymbol::Literal(_) => (0, 0),
            CodeLengthSymbol::CopyPrevious(n) => ((n - 3) as nat, 2),
            CodeLengthSymbol::RepeatZero(n) => if n < 11 {
                ((n - 3) as nat, 3)
            } else {
                ((n - 11) as nat, 7)
            },
        }
    }

    /// Its index in the code-length alphabet.
    pub fn code(&self) -> (r: usize)
        requires
            self.is_valid(),
        ensures
            r == self.code_spec(),
            r < 19,
    {
        match *self {
            CodeLengthSymbol::Literal(length) => length as usize,
            CodeLengthSymbol::CopyPrevious(_) => 16usize,
            CodeLengthSymbol::RepeatZero(length) => {
                if length < 11 {
                    17usize
                } else {
                    18usize
                }
            },
        }
    }

    /// The raw field that follows its code: the repeat count less its
    /// minimum.
    pub fn additional_bits(&self) -> (r: ShortBits)
        requires
            self.is_valid(),
        ensures
            r.size <= 7,
            r.body == self.extra_spec().0,
            r.size == self.extra_spec().1,
            r@ == lsb_bits(self.extra_spec().0, self.extra_spec().1),
    {
        match *self {
            CodeLengthSymbol::Literal(_) => ShortBits::data(0, 0),
            CodeLengthSymbol::CopyPrevious(length) => ShortBits::data(length as u64 - 3, 2),
            CodeLengthSymbol::RepeatZero(length) => {
                if length < 11 {
                    ShortBits::data(length as u64 - 3, 3)
                } else {
                    ShortBits::data(length as u64 - 11, 7)
                }
            },
        }
    }
}

/// The lengths after reading one more symbol.
pub open spec fn cl_step(out: Seq<u8>, s: CodeLengthSymbol) -> Seq<u8> {
    match s {
        CodeLengthSymbol::Literal(l) => out.push(l),
        CodeLengthSymbol::CopyPrevious(n) => out + Seq::new(n as nat, |k: int| out.last()),
        CodeLengthSymbol::RepeatZero(n) => out + Seq::new(n as nat, |k: int| 0u8),
    }
}

/// The code lengths that a sequence of code-length symbols stands for.
pub open spec fn cl_expand(syms: Seq<CodeLengthSymbol>) -> Seq<u8>
    decreases syms.len(),
{
    if syms.len() == 0 {
        Seq::empty()
    } else {
        cl_step(cl_expand(syms.drop_last()), syms.last())
    }
}

/// Every symbol can be sent, and no repeat of the previous length comes
/// first.
pub open spec fn cl_body_ok(syms: Seq<CodeLengthSymbol>) -> bool
    decreases syms.len(),
{
    if syms.len() == 0 {
        true
    } else {
        &&& cl_body_ok(syms.drop_last())
        &&& syms.last().is_valid()
        &&& (syms.last() is CopyPrevious ==> cl_expand(syms.drop_last()).len() > 0)
    }
}

/// Every symbol of a well-formed sequence can be sent, and each stands for
/// at least one length.
pub proof fn lemma_cl_body_valid(cls: Seq<CodeLengthSymbol>)
    requires
        cl_body_ok(cls),
    ensures
        forall|m: int| 0 <= m < cls.len() ==> (#[trigger] cls[m]).is_valid(),
        cls.len() <= cl_expand(cls).len(),
    decreases cls.len(),
{
    if cls.len() > 0 {
        lemma_cl_body_valid(cls.drop_last());
        assert forall|m: int| 0 <= m < cls.len() implies (#[trigger] cls[m]).is_valid() by {
            if m < cls.len() - 1 {
                assert(cls[m] == cls.drop_last()[m]);
            }
        }
    }
}

} // verus!
