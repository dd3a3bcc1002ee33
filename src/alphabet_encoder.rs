//! The codes of one alphabet, looked up by symbol.
use crate::bits::ShortBits;
use vstd::prelude::*;

verus! {

/// The code of each symbol of an alphabet.
pub struct AlphabetEncoder {
    pub table: Vec<ShortBits>,
}

impl View for AlphabetEncoder {
    type V = Seq<Seq<bool>>;

    open spec fn view(&self) -> Seq<Seq<bool>> {
        self.table@.map_values(|b: ShortBits| b@)
    }
}

impl AlphabetEncoder {
    /// Every code has at most fifteen bits.
    pub open spec fn wf(&self) -> bool {
        forall|k: int| 0 <= k < self.table@.len() ==> (#[trigger] self.table@[k]).size <= 15
    }

    pub fn new(table: Vec<ShortBits>) -> (r: Self)
        ensures
            r.table@ == table@,
    {
        Self { table }
    }

    /// The code of symbol `alphabet`.
    pub fn encode(&self, alphabet: usize) -> (r: ShortBits)
        requires
            alphabet < self.table@.len(),
        ensures
            r == self.table@[alphabet as int],
    {
        self.table[alphabet]
    }
}

} // verus!
