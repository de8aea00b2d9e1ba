use vstd::prelude::*;
use crate::model::{SymbolModel, fresh_model, observe};

verus! {

/// Difference of two bytes modulo 256: the symbol that carries `cur` after `prev`.
pub open spec fn byte_delta(cur: u8, prev: u8) -> u8 {
    ((cur as int - prev as int) % 256) as u8
}

/// Sum of two bytes modulo 256: the byte that `delta` leads to from `prev`.
pub open spec fn byte_sum(prev: u8, delta: u8) -> u8 {
    ((prev as int + delta as int) % 256) as u8
}

/// Slot-wise deltas of a record against the previous one.
pub open spec fn deltas(rec: Seq<u8>, lasts: Seq<u8>) -> Seq<u8> {
    Seq::new(rec.len(), |i: int| byte_delta(rec[i], lasts[i]))
}

/// Slot-wise reconstruction of a record from the previous one and its symbols.
pub open spec fn sums(lasts: Seq<u8>, syms: Seq<u8>) -> Seq<u8> {
    Seq::new(lasts.len(), |i: int| byte_sum(lasts[i], syms[i]))
}

/// Every slot's model after it observed that slot's symbol.
pub open spec fn observe_all(models: Seq<Seq<u32>>, syms: Seq<u8>) -> Seq<Seq<u32>> {
    Seq::new(models.len(), |i: int| observe(models[i], syms[i]))
}

/// Abstract state of a codec: whether the first record has gone by, the
/// bytes of the last record per slot, and the frequency table of each
/// slot's model.
pub struct CodecState {
    pub have_last: bool,
    pub lasts: Seq<u8>,
    pub models: Seq<Seq<u32>>,
}

/// State of a codec built for `count` slots that has seen no record.
pub open spec fn fresh_state(count: nat) -> CodecState {
    CodecState {
        have_last: false,
        lasts: Seq::new(count, |i: int| 0u8),
        models: Seq::new(count, |i: int| fresh_model()),
    }
}

/// What one record turns into, as values.
pub enum Packet {
    Raw(Seq<u8>),
    Symbols(Seq<u8>),
}

impl Packet {
    pub open spec fn payload(self) -> Seq<u8> {
        match self {
            Packet::Raw(b) => b,
            Packet::Symbols(s) => s,
        }
    }
}

/// One record through the compressor: the first goes out raw and touches no
/// model; any later one goes out as its slot deltas, each observed by its
/// slot's model. Either way the record becomes the new last record.
pub open spec fn compress_step(st: CodecState, rec: Seq<u8>) -> (CodecState, Packet) {
    if !st.have_last {
        (CodecState { have_last: true, lasts: rec, models: st.models }, Packet::Raw(rec))
    } else {
        let d = deltas(rec, st.lasts);
        (
            CodecState { have_last: true, lasts: rec, models: observe_all(st.models, d) },
            Packet::Symbols(d),
        )
    }
}

/// One packet through the decompressor, or `None` where the packet does not
/// fit the state (wrong kind, or a payload of another width).
pub open spec fn decompress_step(st: CodecState, p: Packet) -> Option<(CodecState, Seq<u8>)> {
    let n = st.lasts.len();
    match p {
        Packet::Raw(b) => if !st.have_last && b.len() == n {
            Some((CodecState { have_last: true, lasts: b, models: st.models }, b))
        } else {
            None
        },
        Packet::Symbols(s) => if st.have_last && s.len() == n {
            let r = sums(st.lasts, s);
            Some((CodecState { have_last: true, lasts: r, models: observe_all(st.models, s) }, r))
        } else {
            None
        },
    }
}

/// Invalid input to the codec.
#[derive(Debug, Clone, Copy, PartialEq, Eq, Structural)]
pub enum CodecError {
    /// A record, output buffer or packet payload is not `count` bytes long.
    LengthMismatch,
    /// A raw packet after the first record, or symbols before it.
    UnexpectedPacket,
}

/// Which error, if any, decompressing `p` into a buffer of `out_len` bytes
/// meets in state `st`.
pub open spec fn decompress_error(st: CodecState, p: Packet, out_len: nat) -> Option<CodecError> {
    let n = st.lasts.len();
    if out_len != n {
        Some(CodecError::LengthMismatch)
    } else if (p is Raw) == st.have_last {
        Some(CodecError::UnexpectedPacket)
    } else if p.payload().len() != n {
        Some(CodecError::LengthMismatch)
    } else {
        None
    }
}

/// What one record turns into: the raw bytes of the first record, or one
/// delta symbol per slot for every later one.
#[derive(Debug, Clone, PartialEq, Eq)]
pub enum Coded {
    Raw(Vec<u8>),
    Symbols(Vec<u8>),
}

impl Coded {
    pub open spec fn view(&self) -> Packet {
        match self {
            Coded::Raw(b) => Packet::Raw(b@),
            Coded::Symbols(s) => Packet::Symbols(s@),
        }
    }
}

/// The extra bytes of one record.
#[derive(Debug)]
pub struct ExtraBytes {
    bytes: Vec<u8>,
}

/// Codec for the `count` extra bytes of each record of a stream. One
/// instance serves one direction for its whole life; the same type serves
/// as decompressor.
pub struct ExtraBytesCompressor {
    have_last: bool,
    count: usize,
    lasts: Vec<u8>,
    models: Vec<SymbolModel>,
}

pub type ExtraBytesDecompressor = ExtraBytesCompressor;

impl ExtraBytesCompressor {
    pub closed spec fn view(&self) -> CodecState {
        CodecState {
            have_last: self.have_last,
            lasts: self.lasts@,
            models: self.models@.map_values(|m: SymbolModel| m@),
        }
    }

    pub closed spec fn wf(&self) -> bool {
        &&& self.lasts@.len() == self.count
        &&& self.models@.len() == self.count
        &&& forall|i: int| 0 <= i < self.models@.len() ==> #[trigger] self.models@[i].wf()
    }

    /// A codec for records of `count` extra bytes that has seen no record.
    pub fn new(count: usize) -> (c: Self)
        ensures
            c.wf(),
            c@ == fresh_state(count as nat),
    {
        let lasts = vec![0u8; count];
        let mut models: Vec<SymbolModel> = Vec::new();
        let mut i: usize = 0;
        while i < count
            invariant
                i <= count,
                models@.len() == i,
                forall|j: int| 0 <= j < i ==> (#[trigger] models@[j]).wf() && models@[j]@ == fresh_model(),
            decreases count - i,
        {
            models.push(SymbolModel::new());
            i = i + 1;
        }
        let c = ExtraBytesCompressor { have_last: false, count, lasts, models };
        proof {
            assert(c@.lasts =~= fresh_state(count as nat).lasts);
            assert(c@.models =~= fresh_state(count as nat).models);
        }
        c
    }

    /// Number of extra bytes in each record.
    pub fn size_of_field(&self) -> (n: usize)
        requires
            self.wf(),
        ensures
            n == self@.lasts.len(),
    {
        self.count
    }

    /// Takes the extra bytes of the next record. The first record comes back
    /// raw and leaves every model as it was; each later one comes back as
    /// the slot-wise deltas against the record before it, and each slot's
    /// model observes its delta. A record of another width is refused and
    /// changes nothing.
    pub fn compress_with(&mut self, buf: &[u8]) -> (r: Result<Coded, CodecError>)
        requires
            old(self).wf(),
        ensures
            final(self).wf(),
            match r {
                Ok(c) => buf@.len() == old(self)@.lasts.len()
                    && (final(self)@, c@) == compress_step(old(self)@, buf@),
                Err(e) => buf@.len() != old(self)@.lasts.len()
                    && e == CodecError::LengthMismatch
                    && final(self)@ == old(self)@,
            },
    {
        if buf.len() != self.count {
            return Err(CodecError::LengthMismatch);
        }
        let ghost prev = self@;
        let mut syms: Vec<u8> = Vec::new();
        let mut i: usize = 0;
        while i < self.count
            invariant
                self.wf(),
                self.count == buf@.len(),
                self.have_last == prev.have_last,
                self.models@.map_values(|m: SymbolModel| m@) == prev.models,
                i <= self.count,
                syms@.len() == i,
                forall|j: int| 0 <= j < i ==> #[trigger] syms@[j] == byte_delta(buf@[j], prev.lasts[j]),
                forall|j: int| 0 <= j < i ==> #[trigger] self.lasts@[j] == buf@[j],
                forall|j: int| i <= j < self.count ==> #[trigger] self.lasts@[j] == prev.lasts[j],
            decreases self.count - i,
        {
            let cur = buf[i];
            let d = cur.wrapping_sub(self.lasts[i]);
            syms.push(d);
            self.lasts.set(i, cur);
            i = i + 1;
        }
        proof {
            assert(self.lasts@ =~= buf@);
            assert(syms@ =~= deltas(buf@, prev.lasts));
        }
        if !self.have_last {
            self.have_last = true;
            let raw = self.lasts.clone();
            proof {
                assert(raw@ =~= buf@);
            }
            return Ok(Coded::Raw(raw));
        }
        let mut k: usize = 0;
        while k < self.count
            invariant
                self.wf(),
                self.count == buf@.len(),
                self.have_last,
                self.lasts@ == buf@,
                syms@ == deltas(buf@, prev.lasts),
                prev.models.len() == self.count,
                k <= self.count,
                forall|j: int| 0 <= j < k ==> #[trigger] self.models@[j]@ == observe(prev.models[j], syms@[j]),
                forall|j: int| k <= j < self.count ==> #[trigger] self.models@[j]@ == prev.models[j],
            decreases self.count - k,
        {
            self.models[k].update(syms[k]);
            k = k + 1;
        }
        proof {
            assert(self@.models =~= observe_all(prev.models, syms@));
        }
        Ok(Coded::Symbols(syms))
    }

    /// Takes what `compress_with` made of the next record and writes that
    /// record into `buf`. The first packet must be raw, every later one must
    /// hold symbols, and both `buf` and the payload must be `count` bytes
    /// long; otherwise the packet is refused and nothing changes.
    pub fn decompress_with(&mut self, input: &Coded, buf: &mut [u8]) -> (r: Result<(), CodecError>)
        requires
            old(self).wf(),
        ensures
            final(self).wf(),
            match r {
                Ok(()) => decompress_error(old(self)@, input@, old(buf)@.len()) is None
                    && decompress_step(old(self)@, input@) == Some((final(self)@, final(buf)@)),
                Err(e) => decompress_error(old(self)@, input@, old(buf)@.len()) == Some(e)
                    && final(self)@ == old(self)@
                    && final(buf)@ == old(buf)@,
            },
    {
        if buf.len() != self.count {
            return Err(CodecError::LengthMismatch);
        }
        let ghost prev = self@;
        match input {
            Coded::Raw(bytes) => {
                if self.have_last {
                    return Err(CodecError::UnexpectedPacket);
                }
                if bytes.len() != self.count {
                    return Err(CodecError::LengthMismatch);
                }
                let mut i: usize = 0;
                while i < self.count
                    invariant
                        self.wf(),
                        self.count == buf@.len(),
                        self.count == bytes@.len(),
                        self.have_last == prev.have_last,
                        self.models@.map_values(|m: SymbolModel| m@) == prev.models,
                        i <= self.count,
                        forall|j: int| 0 <= j < i ==> #[trigger] buf@[j] == bytes@[j],
                        forall|j: int| 0 <= j < i ==> #[trigger] self.lasts@[j] == bytes@[j],
                    decreases self.count - i,
                {
                    let b = bytes[i];
                    buf[i] = b;
                    self.lasts.set(i, b);
                    i = i + 1;
                }
                self.have_last = true;
                proof {
                    assert(buf@ =~= bytes@);
                    assert(self.lasts@ =~= bytes@);
                }
                Ok(())
            },
            Coded::Symbols(syms) => {
                if !self.have_last {
                    return Err(CodecError::UnexpectedPacket);
                }
                if syms.len() != self.count {
                    return Err(CodecError::LengthMismatch);
                }
                let mut i: usize = 0;
                while i < self.count
                    invariant
                        self.wf(),
                        self.count == buf@.len(),
                        self.count == syms@.len(),
                        self.have_last,
                        prev.models.len() == self.count,
                        prev.lasts.len() == self.count,
                        i <= self.count,
                        forall|j: int| 0 <= j < i ==> #[trigger] buf@[j] == byte_sum(prev.lasts[j], syms@[j]),
                        forall|j: int| 0 <= j < i ==> #[trigger] self.lasts@[j] == byte_sum(prev.lasts[j], syms@[j]),
                        forall|j: int| i <= j < self.count ==> #[trigger] self.lasts@[j] == prev.lasts[j],
                        forall|j: int| 0 <= j < i ==> #[trigger] self.models@[j]@ == observe(prev.models[j], syms@[j]),
                        forall|j: int| i <= j < self.count ==> #[trigger] self.models@[j]@ == prev.models[j],
                    decreases self.count - i,
                {
                    let s = syms[i];
                    let v = self.lasts[i].wrapping_add(s);
                    buf[i] = v;
                    self.lasts.set(i, v);
                    self.models[i].update(s);
                    i = i + 1;
                }
                proof {
                    assert(buf@ =~= sums(prev.lasts, syms@));
                    assert(self.lasts@ =~= sums(prev.lasts, syms@));
                    assert(self@.models =~= observe_all(prev.models, syms@));
                }
                Ok(())
            },
        }
    }

    /// The model of slot `i`, for the coder that turns its symbols into bits.
    pub fn model(&self, i: usize) -> (m: &SymbolModel)
        requires
            self.wf(),
            i < self@.lasts.len(),
        ensures
            m.wf(),
            m@ == self@.models[i as int],
    {
        &self.models[i]
    }
}

} // verus!
