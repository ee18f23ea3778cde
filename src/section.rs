//! Sections of a binary image: named half-open address ranges with their bytes.
use vstd::prelude::*;

verus! {

/// What a section holds.
#[derive(Clone, Copy, Debug, PartialEq, Eq, Structural)]
pub enum SectionKind {
    Code,
    Data,
    ReadOnlyData,
    Uninitialized,
    Debug,
    Other,
}

impl SectionKind {
    /// The name of the kind, as it is rendered between braces.
    pub fn name(&self) -> (r: &'static str)
        ensures
            r@ == kind_name(*self),
    {
        match self {
            SectionKind::Code => "Code",
            SectionKind::Data => "Data",
            SectionKind::ReadOnlyData => "ReadOnlyData",
            SectionKind::Uninitialized => "Uninitialized",
            SectionKind::Debug => "Debug",
            SectionKind::Other => "Other",
        }
    }
}

pub open spec fn kind_name(k: SectionKind) -> Seq<char> {
    match k {
        SectionKind::Code => "Code"@,
        SectionKind::Data => "Data"@,
        SectionKind::ReadOnlyData => "ReadOnlyData"@,
        SectionKind::Uninitialized => "Uninitialized"@,
        SectionKind::Debug => "Debug"@,
        SectionKind::Other => "Other"@,
    }
}

/// A named address range `[start, end)` of the image. The walk over a section
/// begins at `addr`, which may lie after `start` when a leading region is
/// skipped. `bytes` holds the contents of the whole range.
#[derive(Debug)]
pub struct Section {
    pub name: String,
    pub kind: SectionKind,
    pub start: usize,
    pub end: usize,
    pub addr: usize,
    pub bytes: Vec<u8>,
}

impl Section {
    /// A section is well formed when `start <= addr <= end` and it holds one
    /// byte for each address of its range.
    pub open spec fn wf(&self) -> bool {
        &&& self.start <= self.addr <= self.end
        &&& self.bytes@.len() == self.end - self.start
    }

    /// Whether `a` lies in the half-open range of the section.
    pub open spec fn contains(&self, a: int) -> bool {
        self.start <= a < self.end
    }

    /// The bytes of `[a, a + len)`.
    pub open spec fn bytes_at(&self, a: int, len: int) -> Seq<u8> {
        self.bytes@.subrange(a - self.start, a - self.start + len)
    }

    /// Checks that the section is well formed.
    pub fn is_well_formed(&self) -> (r: bool)
        ensures
            r == self.wf(),
    {
        self.start <= self.addr && self.addr <= self.end && self.bytes.len() == self.end - self.start
    }

    /// Copies the `len` bytes at `a` out of the section.
    pub fn bytes_by_addr(&self, a: usize, len: usize) -> (r: Vec<u8>)
        requires
            self.wf(),
            self.start <= a,
            a + len <= self.end,
        ensures
            r@ == self.bytes_at(a as int, len as int),
    {
        let off = a - self.start;
        let mut r: Vec<u8> = Vec::with_capacity(len);
        let mut i: usize = 0;
        while i < len
            invariant
                self.wf(),
                self.start <= a,
                a + len <= self.end,
                off == a - self.start,
                i <= len,
                r@ == self.bytes@.subrange(off as int, off + i),
            decreases len - i,
        {
            r.push(self.bytes[off + i]);
            i += 1;
            assert(r@ =~= self.bytes@.subrange(off as int, off + i));
        }
        r
    }
}

/// Sections whose ranges do not overlap, each well formed.
pub open spec fn sections_wf(s: Seq<Section>) -> bool {
    &&& forall|i: int| 0 <= i < s.len() ==> #[trigger] s[i].wf()
    &&& forall|i: int, j: int|
        0 <= i < s.len() && 0 <= j < s.len() && i != j ==> #[trigger] s[i].end <= #[trigger] s[j].start
            || s[j].end <= s[i].start
}

} // verus!
