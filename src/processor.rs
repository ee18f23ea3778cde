//! The upstream state the engine reads (sections, decoded items, function
//! symbols) and the boundary computer over it.
use std::collections::HashMap;
use std::sync::Arc;
use vstd::prelude::*;

use crate::section::{Section, sections_wf};
use crate::tokens::Token;

verus! {

broadcast use vstd::std_specs::hash::group_hash_axioms;

/// What went wrong when the upstream state was set up or queried.
#[derive(Clone, Copy, Debug, PartialEq, Eq, Structural)]
pub enum EngineError {
    /// An address lies in no section.
    AddressOutOfRange,
    /// The decoder gave an item of width zero, or two items at one address.
    DecoderInvariantViolation,
    /// A section cannot provide the bytes asked of it.
    BytesShortRead,
    /// A section is not well formed or overlaps another.
    InvalidSection,
}

/// What the decoder reports when it cannot decode at an address.
#[derive(Clone, Copy, Debug, PartialEq, Eq, Structural)]
pub enum ErrorKind {
    ExhaustedInput,
    InvalidOpcode,
    InvalidOperand,
    InvalidPrefixes,
    TooLong,
    IncompleteDecoder,
}

impl ErrorKind {
    /// The name of the variant, as the debug form shows it.
    pub fn name(&self) -> (r: &'static str)
        ensures
            r@ == error_kind_name(*self),
    {
        match self {
            ErrorKind::ExhaustedInput => "ExhaustedInput",
            ErrorKind::InvalidOpcode => "InvalidOpcode",
            ErrorKind::InvalidOperand => "InvalidOperand",
            ErrorKind::InvalidPrefixes => "InvalidPrefixes",
            ErrorKind::TooLong => "TooLong",
            ErrorKind::IncompleteDecoder => "IncompleteDecoder",
        }
    }
}

pub open spec fn error_kind_name(k: ErrorKind) -> Seq<char> {
    match k {
        ErrorKind::ExhaustedInput => "ExhaustedInput"@,
        ErrorKind::InvalidOpcode => "InvalidOpcode"@,
        ErrorKind::InvalidOperand => "InvalidOperand"@,
        ErrorKind::InvalidPrefixes => "InvalidPrefixes"@,
        ErrorKind::TooLong => "TooLong"@,
        ErrorKind::IncompleteDecoder => "IncompleteDecoder"@,
    }
}

/// A function symbol; its name is already split into coloured fragments.
#[derive(Debug)]
pub struct Symbol {
    pub name: Vec<Token>,
}

/// What the decoder holds for an address.
#[derive(Debug)]
pub enum Decoded {
    /// An instruction of `width` bytes and its rendered operands.
    Instruction { width: usize, tokens: Vec<Token> },
    /// A decoding failure that covers `size` bytes.
    Error { kind: ErrorKind, size: usize },
}

impl Decoded {
    /// How many bytes the item covers.
    pub open spec fn width(&self) -> int {
        match self {
            Decoded::Instruction { width, .. } => *width as int,
            Decoded::Error { size, .. } => *size as int,
        }
    }

    pub fn byte_width(&self) -> (r: usize)
        ensures
            r == self.width(),
    {
        match self {
            Decoded::Instruction { width, .. } => *width,
            Decoded::Error { size, .. } => *size,
        }
    }
}

/// Whether `s` is strictly increasing.
pub open spec fn strictly_increasing(s: Seq<usize>) -> bool {
    forall|i: int, j: int| 0 <= i < j < s.len() ==> s[i] < s[j]
}

/// The decoded, symbolized view of an image: its sections, the decoder's
/// results by address, and the function symbols by address.
pub struct Processor {
    sections: Vec<Arc<Section>>,
    decoded: HashMap<usize, Decoded>,
    functions: HashMap<usize, Arc<Symbol>>,
    max_instruction_width: usize,
}

impl Processor {
    pub closed spec fn sections(&self) -> Seq<Section> {
        self.sections@.map_values(|s: Arc<Section>| *s)
    }

    pub closed spec fn decoded(&self) -> Map<usize, Decoded> {
        self.decoded@
    }

    pub closed spec fn functions(&self) -> Map<usize, Symbol> {
        self.functions@.map_values(|s: Arc<Symbol>| *s)
    }

    pub closed spec fn max_width(&self) -> usize {
        self.max_instruction_width
    }

    /// Sections are well formed and disjoint; each decoded item covers at
    /// least one byte and ends within the section it starts in.
    pub open spec fn wf(&self) -> bool {
        &&& sections_wf(self.sections())
        &&& forall|a: usize| #[trigger] self.decoded().contains_key(a) ==> self.decoded()[a].width() >= 1
        &&& forall|a: usize, i: int|
            #[trigger] self.decoded().contains_key(a) && 0 <= i < self.sections().len()
                && #[trigger] self.sections()[i].contains(a as int) ==> a + self.decoded()[a].width()
                <= self.sections()[i].end
    }

    /// Whether a byte run that began at `run_start` stops at `b`: at the end of
    /// its section, at a decoded item, or at a label other than its own.
    pub open spec fn is_stop(&self, run_start: usize, b: usize, end: usize) -> bool {
        b == end || self.decoded().contains_key(b) || (b != run_start && self.functions().contains_key(b))
    }

    /// The first stop at or after `b` of the run that began at `run_start`.
    pub open spec fn run_end(&self, run_start: usize, b: usize, end: usize) -> usize
        decreases end - b,
    {
        if b >= end {
            end
        } else if self.is_stop(run_start, b, end) {
            b
        } else {
            self.run_end(run_start, (b + 1) as usize, end)
        }
    }

    /// Where the block that begins at `a` ends.
    pub open spec fn next_boundary(&self, a: usize, end: usize) -> int {
        if self.decoded().contains_key(a) {
            a + self.decoded()[a].width()
        } else {
            self.run_end(a, a, end) as int
        }
    }

    /// The boundaries from `a` to the section end `end`, each block in turn.
    pub open spec fn walk(&self, a: usize, end: usize) -> Seq<usize>
        decreases end - a,
    {
        if a >= end {
            seq![end]
        } else if a < self.next_boundary(a, end) <= end {
            seq![a] + self.walk(self.next_boundary(a, end) as usize, end)
        } else {
            seq![a, end]
        }
    }

    /// The boundaries of a section: its start, then the walk from `addr`.
    pub open spec fn section_boundaries(&self, s: Section) -> Seq<usize> {
        if s.start == s.addr {
            self.walk(s.addr, s.end)
        } else {
            seq![s.start] + self.walk(s.addr, s.end)
        }
    }

    /// Whether `x` is a boundary of some section.
    pub open spec fn is_boundary(&self, x: usize) -> bool {
        exists|i: int| 0 <= i < self.sections().len() && #[trigger] self.section_boundaries(self.sections()[i]).contains(x)
    }
}


impl Processor {
    /// The run end lies between `b` and `end`, is a stop or the end, and no
    /// address before it from `b` on is a stop.
    pub proof fn lemma_run_end(&self, run_start: usize, b: usize, end: usize)
        requires
            b <= end,
        ensures
            b <= self.run_end(run_start, b, end) <= end,
            self.is_stop(run_start, self.run_end(run_start, b, end), end),
            forall|x: usize| b <= x < self.run_end(run_start, b, end) ==> !#[trigger] self.is_stop(run_start, x, end),
        decreases end - b,
    {
        if b < end && !self.is_stop(run_start, b, end) {
            self.lemma_run_end(run_start, (b + 1) as usize, end);
        }
    }

    /// The walk from `a` starts at `a`, ends at `end`, stays within
    /// `[a, end]` and is strictly increasing.
    pub proof fn lemma_walk(&self, a: usize, end: usize)
        requires
            a <= end,
        ensures
            self.walk(a, end).len() >= 1,
            self.walk(a, end)[0] == a,
            self.walk(a, end).last() == end,
            forall|k: int| 0 <= k < self.walk(a, end).len() ==> a <= #[trigger] self.walk(a, end)[k] <= end,
            strictly_increasing(self.walk(a, end)),
        decreases end - a,
    {
        if a < end {
            let n = self.next_boundary(a, end);
            if a < n <= end {
                self.lemma_walk(n as usize, end);
                let w = self.walk(a, end);
                let r = self.walk(n as usize, end);
                assert(w == seq![a] + r);
                assert forall|k: int| 0 <= k < w.len() implies a <= #[trigger] w[k] <= end by {
                    if k > 0 {
                        assert(w[k] == r[k - 1]);
                    }
                }
                assert forall|i: int, j: int| 0 <= i < j < w.len() implies w[i] < w[j] by {
                    assert(w[j] == r[j - 1]);
                    if i > 0 {
                        assert(w[i] == r[i - 1]);
                    }
                }
            }
        }
    }

    /// The boundaries of a well-formed section start at its start, end at its
    /// end, lie within it and are strictly increasing.
    pub proof fn lemma_section_boundaries(&self, s: Section)
        requires
            s.wf(),
        ensures
            self.section_boundaries(s).len() >= 1,
            self.section_boundaries(s)[0] == s.start,
            self.section_boundaries(s).last() == s.end,
            forall|k: int| 0 <= k < self.section_boundaries(s).len()
                ==> s.start <= #[trigger] self.section_boundaries(s)[k] <= s.end,
            strictly_increasing(self.section_boundaries(s)),
    {
        self.lemma_walk(s.addr, s.end);
        let w = self.walk(s.addr, s.end);
        if s.start != s.addr {
            let b = self.section_boundaries(s);
            assert(b == seq![s.start] + w);
            assert forall|k: int| 0 <= k < b.len() implies s.start <= #[trigger] b[k] <= s.end by {
                if k > 0 {
                    assert(b[k] == w[k - 1]);
                }
            }
            assert forall|i: int, j: int| 0 <= i < j < b.len() implies b[i] < b[j] by {
                assert(b[j] == w[j - 1]);
                if i > 0 {
                    assert(b[i] == w[i - 1]);
                }
            }
        }
    }
}


impl Processor {
    /// A processor over `sections`, with nothing decoded and no symbols yet.
    /// Fails with `InvalidSection` unless every section is well formed and no
    /// two of them overlap.
    pub fn new(sections: Vec<Section>, max_instruction_width: usize) -> (r: Result<Processor, EngineError>)
        ensures
            sections_wf(sections@) <==> r is Ok,
            r is Err ==> r->Err_0 == EngineError::InvalidSection,
            r matches Ok(p) ==> {
                &&& p.wf()
                &&& p.sections() == sections@
                &&& p.decoded() == Map::<usize, Decoded>::empty()
                &&& p.functions() == Map::<usize, Symbol>::empty()
                &&& p.max_width() == max_instruction_width
            },
    {
        let n = sections.len();
        let mut i: usize = 0;
        while i < n
            invariant
                n == sections@.len(),
                i <= n,
                forall|k: int| 0 <= k < i ==> #[trigger] sections@[k].wf(),
                forall|k: int, l: int|
                    0 <= k < i && 0 <= l < n && k != l ==> #[trigger] sections@[k].end <= #[trigger] sections@[l].start
                        || sections@[l].end <= sections@[k].start,
            decreases n - i,
        {
            if !sections[i].is_well_formed() {
                return Err(EngineError::InvalidSection);
            }
            let mut j: usize = 0;
            while j < n
                invariant
                    n == sections@.len(),
                    i < n,
                    j <= n,
                    forall|l: int|
                        0 <= l < j && l != i ==> sections@[i as int].end <= #[trigger] sections@[l].start
                            || sections@[l].end <= sections@[i as int].start,
                decreases n - j,
            {
                if j != i && !(sections[i].end <= sections[j].start || sections[j].end <= sections[i].start) {
                    return Err(EngineError::InvalidSection);
                }
                j += 1;
            }
            i += 1;
        }
        let mut shared: Vec<Arc<Section>> = Vec::with_capacity(n);
        let mut rest = sections;
        let ghost all = rest@;
        while rest.len() > 0
            invariant
                shared@.map_values(|s: Arc<Section>| *s) + rest@ == all,
            decreases rest.len(),
        {
            let s = rest.remove(0);
            let ghost before = shared@;
            shared.push(Arc::new(s));
            proof {
                assert(shared@.map_values(|s: Arc<Section>| *s) =~= before.map_values(|s: Arc<Section>| *s).push(s));
            }
        }
        proof {
            assert(rest@ =~= Seq::<Section>::empty());
            assert(shared@.map_values(|s: Arc<Section>| *s) =~= all);
        }
        let p = Processor {
            sections: shared,
            decoded: HashMap::new(),
            functions: HashMap::new(),
            max_instruction_width,
        };
        proof {
            assert(p.functions() =~= Map::<usize, Symbol>::empty());
        }
        Ok(p)
    }

    /// Whether some section holds all of `[a, a + width)`.
    pub open spec fn fits(&self, a: usize, width: usize) -> bool {
        exists|i: int| 0 <= i < self.sections().len() && #[trigger] self.sections()[i].start <= a
            && a + width <= self.sections()[i].end
    }

    fn fits_exec(&self, a: usize, width: usize) -> (r: bool)
        ensures
            r == self.fits(a, width),
    {
        let n = self.sections.len();
        let mut i: usize = 0;
        while i < n
            invariant
                n == self.sections@.len(),
                i <= n,
                forall|k: int| 0 <= k < i ==> !(#[trigger] self.sections()[k].start <= a && a + width <= self.sections()[k].end),
            decreases n - i,
        {
            let s: &Section = &self.sections[i];
            assert(*s == self.sections()[i as int]);
            if s.start <= a && width <= s.end && a <= s.end - width {
                assert(self.sections()[i as int].start <= a && a + width <= self.sections()[i as int].end);
                return true;
            }
            i += 1;
        }
        false
    }

    /// Records one decoded item at `a`. Fails with
    /// `DecoderInvariantViolation` when the item is empty or `a` already holds
    /// one, and then with `AddressOutOfRange` when no section holds the item
    /// whole; nothing changes on failure.
    pub fn add_decoded(&mut self, a: usize, item: Decoded) -> (r: Result<(), EngineError>)
        requires
            old(self).wf(),
        ensures
            final(self).wf(),
            r is Ok <==> item.width() >= 1 && !old(self).decoded().contains_key(a) && old(self).fits(a, item.width() as usize),
            r == Err::<(), EngineError>(EngineError::DecoderInvariantViolation) <==> item.width() == 0
                || old(self).decoded().contains_key(a),
            r is Ok ==> final(self).decoded() == old(self).decoded().insert(a, item),
            r is Err ==> final(self).decoded() == old(self).decoded(),
            final(self).sections() == old(self).sections(),
            final(self).functions() == old(self).functions(),
            final(self).max_width() == old(self).max_width(),
    {
        let w = item.byte_width();
        if w == 0 || self.decoded.contains_key(&a) {
            return Err(EngineError::DecoderInvariantViolation);
        }
        if !self.fits_exec(a, w) {
            return Err(EngineError::AddressOutOfRange);
        }
        let ghost before = *self;
        let ghost it = item;
        self.decoded.insert(a, item);
        proof {
            let secs = self.sections();
            assert(secs == before.sections());
            assert(self.decoded() == before.decoded().insert(a, it));
            let i = choose|i: int| 0 <= i < secs.len() && #[trigger] secs[i].start <= a && a + w <= secs[i].end;
            assert forall|x: usize, k: int|
                #[trigger] self.decoded().contains_key(x) && 0 <= k < secs.len() && #[trigger] secs[k].contains(x as int)
                implies x + self.decoded()[x].width() <= secs[k].end by {
                if x == a {
                    if k != i {
                        assert(secs[i].end <= secs[k].start || secs[k].end <= secs[i].start);
                    }
                } else {
                    assert(before.decoded().contains_key(x));
                    assert(secs[k].contains(x as int));
                }
            }
        }
        Ok(())
    }

    /// Records an instruction of `width` bytes at `a`; see `add_decoded`.
    pub fn add_instruction(&mut self, a: usize, width: usize, tokens: Vec<Token>) -> (r: Result<(), EngineError>)
        requires
            old(self).wf(),
        ensures
            final(self).wf(),
            r is Ok <==> width >= 1 && !old(self).decoded().contains_key(a) && old(self).fits(a, width),
            r == Err::<(), EngineError>(EngineError::DecoderInvariantViolation) <==> width == 0
                || old(self).decoded().contains_key(a),
            r is Ok ==> final(self).decoded() == old(self).decoded().insert(a, Decoded::Instruction { width, tokens }),
            r is Err ==> final(self).decoded() == old(self).decoded(),
            final(self).sections() == old(self).sections(),
            final(self).functions() == old(self).functions(),
            final(self).max_width() == old(self).max_width(),
    {
        self.add_decoded(a, Decoded::Instruction { width, tokens })
    }

    /// Records a decoding failure of `size` bytes at `a`; see `add_decoded`.
    pub fn add_error(&mut self, a: usize, kind: ErrorKind, size: usize) -> (r: Result<(), EngineError>)
        requires
            old(self).wf(),
        ensures
            final(self).wf(),
            r is Ok <==> size >= 1 && !old(self).decoded().contains_key(a) && old(self).fits(a, size),
            r == Err::<(), EngineError>(EngineError::DecoderInvariantViolation) <==> size == 0
                || old(self).decoded().contains_key(a),
            r is Ok ==> final(self).decoded() == old(self).decoded().insert(a, Decoded::Error { kind, size }),
            r is Err ==> final(self).decoded() == old(self).decoded(),
            final(self).sections() == old(self).sections(),
            final(self).functions() == old(self).functions(),
            final(self).max_width() == old(self).max_width(),
    {
        self.add_decoded(a, Decoded::Error { kind, size })
    }

    /// Marks `a` as the start of the function `symbol`, replacing any symbol
    /// that was there.
    pub fn add_function(&mut self, a: usize, symbol: Symbol)
        requires
            old(self).wf(),
        ensures
            final(self).wf(),
            final(self).functions() == old(self).functions().insert(a, symbol),
            final(self).sections() == old(self).sections(),
            final(self).decoded() == old(self).decoded(),
            final(self).max_width() == old(self).max_width(),
    {
        let ghost sym = symbol;
        self.functions.insert(a, Arc::new(symbol));
        proof {
            assert(self.functions() =~= old(self).functions().insert(a, sym));
            assert(self.sections() == old(self).sections());
            assert(self.decoded() == old(self).decoded());
        }
    }

    /// The decoded item at `a`, if any.
    pub fn decoded_at(&self, a: usize) -> (r: Option<&Decoded>)
        ensures
            r is Some <==> self.decoded().contains_key(a),
            r matches Some(d) ==> *d == self.decoded()[a],
    {
        self.decoded.get(&a)
    }

    /// The function that starts at `a`, shared with the index.
    pub fn function_at(&self, a: usize) -> (r: Option<Arc<Symbol>>)
        ensures
            r is Some <==> self.functions().contains_key(a),
            r matches Some(s) ==> *s == self.functions()[a],
    {
        match self.functions.get(&a) {
            Some(s) => Some(s.clone()),
            None => None,
        }
    }

    /// Section `i`, shared with the processor.
    pub fn section_at(&self, i: usize) -> (r: Arc<Section>)
        requires
            i < self.sections().len(),
        ensures
            *r == self.sections()[i as int],
    {
        self.sections[i].clone()
    }

    /// The number of sections.
    pub fn section_count(&self) -> (r: usize)
        ensures
            r == self.sections().len(),
    {
        self.sections.len()
    }

    /// The widest instruction the decoder can produce.
    pub fn max_instruction_width(&self) -> (r: usize)
        ensures
            r == self.max_width(),
    {
        self.max_instruction_width
    }

    /// Scans from `a` for the end of the run of undecoded bytes that begins
    /// there: the section end, an instruction or error start, or a labelled
    /// address other than `a` itself.
    pub fn byte_run_end(&self, a: usize, end: usize) -> (r: usize)
        requires
            a <= end,
        ensures
            r == self.run_end(a, a, end),
    {
        let mut b: usize = a;
        loop
            invariant
                a <= b <= end,
                self.run_end(a, b, end) == self.run_end(a, a, end),
            ensures
                b == self.run_end(a, a, end),
            decreases end - b,
        {
            if b == end {
                break;
            }
            if self.decoded.contains_key(&b) {
                assert(self.is_stop(a, b, end));
                break;
            }
            if b != a && self.functions.contains_key(&b) {
                assert(self.functions().contains_key(b));
                assert(self.is_stop(a, b, end));
                break;
            }
            assert(!self.functions().contains_key(b) || b == a);
            b += 1;
        }
        b
    }
}


impl Processor {
    /// The boundaries of section `i`: its start, then the start of each block
    /// from its `addr` on, then its end.
    pub fn compute_section_boundaries(&self, i: usize) -> (r: Vec<usize>)
        requires
            self.wf(),
            i < self.sections().len(),
        ensures
            r@ == self.section_boundaries(self.sections()[i as int]),
    {
        let section: &Section = &self.sections[i];
        let ghost sec = self.sections()[i as int];
        assert(*section == sec);
        assert(sec.wf());
        let end = section.end;
        let mut a = section.addr;
        let mut boundaries: Vec<usize> = Vec::new();
        if section.start != a {
            boundaries.push(section.start);
        }
        proof {
            if sec.start != sec.addr {
                assert(boundaries@ == seq![sec.start]);
            }
        }
        while a != end
            invariant
                self.wf(),
                sec == self.sections()[i as int],
                i < self.sections().len(),
                sec.wf(),
                end == sec.end,
                sec.addr <= a <= end,
                boundaries@ + self.walk(a, end) == self.section_boundaries(sec),
            decreases end - a,
        {
            // A label at `a` needs no boundary of its own: the block that
            // starts there is recorded below.
            let next: usize;
            match self.decoded_at(a) {
                Some(item) => {
                    let w = item.byte_width();
                    proof {
                        assert(self.decoded().contains_key(a));
                        assert(sec.contains(a as int));
                    }
                    next = a + w;
                },
                None => {
                    next = self.byte_run_end(a, end);
                    proof {
                        self.lemma_run_end(a, a, end);
                    }
                },
            }
            assert(self.next_boundary(a, end) == next);
            assert(self.walk(a, end) == seq![a] + self.walk(next, end));
            let ghost before = boundaries@;
            boundaries.push(a);
            assert(boundaries@ + self.walk(next, end) =~= before + self.walk(a, end));
            a = next;
        }
        assert(self.walk(a, end) == seq![end]);
        let ghost before = boundaries@;
        boundaries.push(end);
        assert(boundaries@ =~= before + self.walk(a, end));
        boundaries
    }
}

/// Merges two strictly increasing lists into the strictly increasing list of
/// the values that either holds.
pub fn merge_unique(x: &Vec<usize>, y: &Vec<usize>) -> (r: Vec<usize>)
    requires
        strictly_increasing(x@),
        strictly_increasing(y@),
    ensures
        strictly_increasing(r@),
        forall|v: usize| r@.contains(v) <==> x@.contains(v) || y@.contains(v),
{
    let mut r: Vec<usize> = Vec::new();
    let mut i: usize = 0;
    let mut j: usize = 0;
    while i < x.len() || j < y.len()
        invariant
            strictly_increasing(x@),
            strictly_increasing(y@),
            i <= x@.len(),
            j <= y@.len(),
            strictly_increasing(r@),
            forall|v: usize| r@.contains(v) <==> x@.subrange(0, i as int).contains(v) || y@.subrange(0, j as int).contains(v),
            r@.len() > 0 && i < x@.len() ==> r@.last() < x@[i as int],
            r@.len() > 0 && j < y@.len() ==> r@.last() < y@[j as int],
        decreases x@.len() + y@.len() - i - j,
    {
        let ghost old_r = r@;
        let ghost oi = i;
        let ghost oj = j;
        let v: usize;
        if j >= y.len() || (i < x.len() && x[i] < y[j]) {
            v = x[i];
            i += 1;
        } else if i >= x.len() || y[j] < x[i] {
            v = y[j];
            j += 1;
        } else {
            v = x[i];
            i += 1;
            j += 1;
        }
        r.push(v);
        proof {
            assert(r@ == old_r.push(v));
            assert forall|v2: usize| r@.contains(v2) <==> x@.subrange(0, i as int).contains(v2)
                || y@.subrange(0, j as int).contains(v2) by {
                if r@.contains(v2) {
                    let k = choose|k: int| 0 <= k < r@.len() && r@[k] == v2;
                    if k < old_r.len() {
                        assert(old_r.contains(v2));
                        if x@.subrange(0, oi as int).contains(v2) {
                            let l = choose|l: int| 0 <= l < oi && x@.subrange(0, oi as int)[l] == v2;
                            assert(x@.subrange(0, i as int)[l] == v2);
                        } else {
                            let l = choose|l: int| 0 <= l < oj && y@.subrange(0, oj as int)[l] == v2;
                            assert(y@.subrange(0, j as int)[l] == v2);
                        }
                    } else if i > oi {
                        assert(x@.subrange(0, i as int)[oi as int] == v2);
                    } else {
                        assert(y@.subrange(0, j as int)[oj as int] == v2);
                    }
                }
                if x@.subrange(0, i as int).contains(v2) {
                    let l = choose|l: int| 0 <= l < i && x@.subrange(0, i as int)[l] == v2;
                    if l < oi {
                        assert(x@.subrange(0, oi as int)[l] == v2);
                        assert(old_r.contains(v2));
                        let k = choose|k: int| 0 <= k < old_r.len() && old_r[k] == v2;
                        assert(r@[k] == v2);
                    } else {
                        assert(r@[old_r.len() as int] == v2);
                    }
                }
                if y@.subrange(0, j as int).contains(v2) {
                    let l = choose|l: int| 0 <= l < j && y@.subrange(0, j as int)[l] == v2;
                    if l < oj {
                        assert(y@.subrange(0, oj as int)[l] == v2);
                        assert(old_r.contains(v2));
                        let k = choose|k: int| 0 <= k < old_r.len() && old_r[k] == v2;
                        assert(r@[k] == v2);
                    } else {
                        assert(r@[old_r.len() as int] == v2);
                    }
                }
            }
        }
    }
    proof {
        assert(x@.subrange(0, i as int) == x@);
        assert(y@.subrange(0, j as int) == y@);
    }
    r
}

impl Processor {
    /// The start of every block of every section, ascending and without
    /// repeats.
    pub fn compute_block_boundaries(&self) -> (r: Vec<usize>)
        requires
            self.wf(),
        ensures
            strictly_increasing(r@),
            forall|x: usize| r@.contains(x) <==> self.is_boundary(x),
    {
        let n = self.sections.len();
        let mut boundaries: Vec<usize> = Vec::new();
        let mut i: usize = 0;
        while i < n
            invariant
                self.wf(),
                n == self.sections().len(),
                i <= n,
                strictly_increasing(boundaries@),
                forall|x: usize| boundaries@.contains(x) <==> exists|k: int| 0 <= k < i
                    && #[trigger] self.section_boundaries(self.sections()[k]).contains(x),
            decreases n - i,
        {
            let own = self.compute_section_boundaries(i);
            proof {
                self.lemma_section_boundaries(self.sections()[i as int]);
            }
            boundaries = merge_unique(&boundaries, &own);
            i += 1;
            proof {
                assert forall|x: usize| boundaries@.contains(x) <==> exists|k: int| 0 <= k < i
                    && #[trigger] self.section_boundaries(self.sections()[k]).contains(x) by {
                    if own@.contains(x) {
                        assert(self.section_boundaries(self.sections()[i - 1]).contains(x));
                    }
                }
            }
        }
        boundaries
    }
}

} // verus!
