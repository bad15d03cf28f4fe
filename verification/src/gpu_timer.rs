use vstd::prelude::*;

verus! {

/// Sections a frame can time.
pub const MAX_SECTIONS: usize = 16;

/// Bytes one section's pair of timestamps takes in the resolve buffer.
pub const SECTION_BYTES: usize = 16;

/// The bookkeeping of the per-frame section timer: which query slots this
/// frame has opened and under which names, and how many slots wait for their
/// results to be mapped. Sixteen sections per frame; a result arrives a frame
/// late, and a frame whose map is still in flight measures nothing.
pub struct SectionSlots {
    open: usize,
    resolved: Option<usize>,
    names: Vec<&'static str>,
}

impl SectionSlots {
    pub closed spec fn wf(&self) -> bool {
        &&& self.names@.len() == MAX_SECTIONS
        &&& self.open <= MAX_SECTIONS
        &&& self.resolved matches Some(n) ==> 0 < n <= MAX_SECTIONS
    }

    /// Slots opened this frame.
    pub closed spec fn spec_open(&self) -> nat {
        self.open as nat
    }

    /// Slots whose timestamps were resolved and wait to be mapped.
    pub closed spec fn spec_resolved(&self) -> Option<usize> {
        self.resolved
    }

    /// The name each slot was last opened under; unopened slots hold `""`.
    pub closed spec fn name_seq(&self) -> Seq<&'static str> {
        self.names@
    }

    pub fn new() -> (r: Self)
        ensures
            r.wf(),
            r.spec_open() == 0,
            r.spec_resolved() is None,
            r.name_seq() == Seq::new(MAX_SECTIONS as nat, |k: int| ""),
    {
        let mut names: Vec<&'static str> = Vec::new();
        let mut k: usize = 0;
        while k < MAX_SECTIONS
            invariant
                k <= MAX_SECTIONS,
                names@ == Seq::new(k as nat, |q: int| ""),
            decreases MAX_SECTIONS - k,
        {
            names.push("");
            k = k + 1;
            proof {
                assert(names@ =~= Seq::new(k as nat, |q: int| ""));
            }
        }
        Self { open: 0, resolved: None, names }
    }

    pub fn begin_frame(&mut self)
        requires
            old(self).wf(),
        ensures
            final(self).wf(),
            final(self).spec_open() == 0,
            final(self).spec_resolved() == old(self).spec_resolved(),
            final(self).name_seq() == old(self).name_seq(),
    {
        self.open = 0;
    }

    /// Opens the next slot under `name`, or none once all are open this frame.
    pub fn open(&mut self, name: &'static str) -> (r: Option<usize>)
        requires
            old(self).wf(),
        ensures
            final(self).wf(),
            final(self).spec_resolved() == old(self).spec_resolved(),
            old(self).spec_open() >= MAX_SECTIONS ==> r is None && *final(self) == *old(self),
            old(self).spec_open() < MAX_SECTIONS ==> {
                &&& r == Some(old(self).spec_open() as usize)
                &&& final(self).spec_open() == old(self).spec_open() + 1
                &&& final(self).name_seq() == old(self).name_seq().update(
                    old(self).spec_open() as int,
                    name,
                )
            },
    {
        if self.open >= MAX_SECTIONS {
            return None;
        }
        let slot = self.open;
        self.names.set(slot, name);
        self.open = slot + 1;
        Some(slot)
    }

    /// Starts resolving this frame's slots, unless none is open or the last
    /// map is still in flight; hands back how many slots to resolve.
    pub fn start_resolve(&mut self, in_flight: bool) -> (r: Option<usize>)
        requires
            old(self).wf(),
        ensures
            final(self).wf(),
            final(self).spec_open() == old(self).spec_open(),
            final(self).name_seq() == old(self).name_seq(),
            old(self).spec_open() == 0 || in_flight ==> r is None && *final(self) == *old(self),
            old(self).spec_open() > 0 && !in_flight ==> r == Some(old(self).spec_open() as usize)
                && final(self).spec_resolved() == r,
    {
        if self.open == 0 || in_flight {
            return None;
        }
        self.resolved = Some(self.open);
        Some(self.open)
    }

    /// After submission: the slots to map, once; later calls get none until
    /// the next resolve.
    pub fn take_resolved(&mut self) -> (r: Option<usize>)
        requires
            old(self).wf(),
        ensures
            final(self).wf(),
            r == old(self).spec_resolved(),
            final(self).spec_resolved() is None,
            final(self).spec_open() == old(self).spec_open(),
            final(self).name_seq() == old(self).name_seq(),
    {
        let r = self.resolved;
        self.resolved = None;
        r
    }

    /// The name of each slot, as the map callback records them.
    pub fn names(&self) -> (r: &[&'static str])
        ensures
            r@ == self.name_seq(),
    {
        self.names.as_slice()
    }
}

/// The little-endian 64-bit word at byte `at`.
pub open spec fn le_word(bytes: Seq<u8>, at: int) -> int {
    bytes[at] + 0x100 * bytes[at + 1] + 0x1_0000 * bytes[at + 2] + 0x100_0000 * bytes[at + 3]
        + 0x1_0000_0000 * bytes[at + 4] + 0x100_0000_0000 * bytes[at + 5] + 0x1_0000_0000_0000
        * bytes[at + 6] + 0x100_0000_0000_0000 * bytes[at + 7]
}

/// The eight bytes at `at` are `x` written little-endian: byte `i` holds
/// bits `8 i` to `8 i + 7` of `x`.
pub open spec fn holds_le_bytes(bytes: Seq<u8>, at: int, x: u64) -> bool {
    &&& 0 <= at
    &&& at + 8 <= bytes.len()
    &&& bytes[at] as u64 == x & 0xffu64
    &&& bytes[at + 1] as u64 == (x >> 8u64) & 0xffu64
    &&& bytes[at + 2] as u64 == (x >> 16u64) & 0xffu64
    &&& bytes[at + 3] as u64 == (x >> 24u64) & 0xffu64
    &&& bytes[at + 4] as u64 == (x >> 32u64) & 0xffu64
    &&& bytes[at + 5] as u64 == (x >> 40u64) & 0xffu64
    &&& bytes[at + 6] as u64 == (x >> 48u64) & 0xffu64
    &&& bytes[at + 7] as u64 == (x >> 56u64) & 0xffu64
}

/// Reading a word back gives the number written: the little-endian word of
/// the eight bytes of `x` is `x`.
pub proof fn lemma_le_word_reads_back(bytes: Seq<u8>, at: int, x: u64)
    requires
        holds_le_bytes(bytes, at, x),
    ensures
        le_word(bytes, at) == x,
{
    let b0 = bytes[at] as u64;
    let b1 = bytes[at + 1] as u64;
    let b2 = bytes[at + 2] as u64;
    let b3 = bytes[at + 3] as u64;
    let b4 = bytes[at + 4] as u64;
    let b5 = bytes[at + 5] as u64;
    let b6 = bytes[at + 6] as u64;
    let b7 = bytes[at + 7] as u64;
    assert(x == b0 + 0x100 * b1 + 0x1_0000 * b2 + 0x100_0000 * b3 + 0x1_0000_0000 * b4 + 0x100_0000_0000
        * b5 + 0x1_0000_0000_0000 * b6 + 0x100_0000_0000_0000 * b7) by (bit_vector)
        requires
            b0 == x & 0xffu64,
            b1 == (x >> 8u64) & 0xffu64,
            b2 == (x >> 16u64) & 0xffu64,
            b3 == (x >> 24u64) & 0xffu64,
            b4 == (x >> 32u64) & 0xffu64,
            b5 == (x >> 40u64) & 0xffu64,
            b6 == (x >> 48u64) & 0xffu64,
            b7 == (x >> 56u64) & 0xffu64,
    ;
}

/// A section whose start and end timestamps `s` and `e` are written in its
/// slot lasted `e - s` ticks, or none where the clock went back.
pub proof fn lemma_section_span_of_timestamps(bytes: Seq<u8>, slot: int, s: u64, e: u64)
    requires
        0 <= slot,
        holds_le_bytes(bytes, slot * 16, s),
        holds_le_bytes(bytes, slot * 16 + 8, e),
    ensures
        section_span(bytes, slot) == if e >= s {
            (e - s) as u64
        } else {
            0u64
        },
{
    lemma_le_word_reads_back(bytes, slot * 16, s);
    lemma_le_word_reads_back(bytes, slot * 16 + 8, e);
}

/// Ticks between a section's two timestamps, zero where the clock went back.
pub open spec fn section_span(bytes: Seq<u8>, slot: int) -> u64 {
    let start = le_word(bytes, slot * 16);
    let end = le_word(bytes, slot * 16 + 8);
    if end >= start {
        (end - start) as u64
    } else {
        0
    }
}

fn read_word(bytes: &[u8], at: usize) -> (r: u64)
    requires
        at + 8 <= bytes@.len(),
    ensures
        r == le_word(bytes@, at as int),
{
    bytes[at] as u64 + 0x100 * (bytes[at + 1] as u64) + 0x1_0000 * (bytes[at + 2] as u64)
        + 0x100_0000 * (bytes[at + 3] as u64) + 0x1_0000_0000 * (bytes[at + 4] as u64)
        + 0x100_0000_0000 * (bytes[at + 5] as u64) + 0x1_0000_0000_0000 * (bytes[at + 6] as u64)
        + 0x100_0000_0000_0000 * (bytes[at + 7] as u64)
}

/// Reads the resolved timestamps of the first `open` slots from the mapped
/// bytes: each slot holds its start and end tick, little-endian.
pub fn section_ticks(bytes: &[u8], open: usize) -> (r: Vec<u64>)
    requires
        open <= MAX_SECTIONS,
        open * SECTION_BYTES <= bytes@.len(),
    ensures
        r@ == Seq::new(open as nat, |k: int| section_span(bytes@, k)),
{
    let mut ticks: Vec<u64> = Vec::new();
    let mut slot: usize = 0;
    while slot < open
        invariant
            slot <= open,
            open <= MAX_SECTIONS,
            open * SECTION_BYTES <= bytes@.len(),
            ticks@ == Seq::new(slot as nat, |k: int| section_span(bytes@, k)),
        decreases open - slot,
    {
        let at = slot * SECTION_BYTES;
        let start = read_word(bytes, at);
        let end = read_word(bytes, at + 8);
        ticks.push(end.saturating_sub(start));
        slot = slot + 1;
        proof {
            assert(ticks@ =~= Seq::new(slot as nat, |k: int| section_span(bytes@, k)));
        }
    }
    ticks
}

} // verus!
