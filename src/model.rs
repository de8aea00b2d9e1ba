use vstd::prelude::*;

verus! {

/// Number of distinct symbols a model distinguishes: one per byte value.
pub const SYMBOLS: usize = 256;

/// Frequency a symbol starts with in a fresh model.
pub open spec fn fresh_model() -> Seq<u32> {
    Seq::new(SYMBOLS as nat, |s: int| 1u32)
}

/// The frequency table after one occurrence of `sym` was observed: that
/// symbol's count grows by one, saturating at `u32::MAX`; no other changes.
pub open spec fn observe(freqs: Seq<u32>, sym: u8) -> Seq<u32> {
    let c = freqs[sym as int];
    freqs.update(sym as int, if c < u32::MAX { (c + 1) as u32 } else { c })
}

/// Adaptive probability model over the 256 byte values. The probability it
/// assigns to a symbol is that symbol's count over the sum of all counts.
pub struct SymbolModel {
    counts: Vec<u32>,
}

impl SymbolModel {
    pub closed spec fn view(&self) -> Seq<u32> {
        self.counts@
    }

    pub open spec fn wf(&self) -> bool {
        self@.len() == SYMBOLS
    }

    /// A model in which every symbol has been seen once.
    pub fn new() -> (m: Self)
        ensures
            m.wf(),
            m@ == fresh_model(),
    {
        let counts = vec![1u32; SYMBOLS];
        proof {
            assert(counts@ =~= fresh_model());
        }
        SymbolModel { counts }
    }

    /// How often `sym` has been counted, its initial count included.
    pub fn count(&self, sym: u8) -> (c: u32)
        requires
            self.wf(),
        ensures
            c == self@[sym as int],
    {
        self.counts[sym as usize]
    }

    /// Records one occurrence of `sym`.
    pub fn update(&mut self, sym: u8)
        requires
            old(self).wf(),
        ensures
            final(self).wf(),
            final(self)@ == observe(old(self)@, sym),
    {
        let i = sym as usize;
        let c = self.counts[i];
        if c < u32::MAX {
            self.counts.set(i, c + 1);
        }
        proof {
            assert(self@ =~= observe(old(self)@, sym));
        }
    }
}

} // verus!
