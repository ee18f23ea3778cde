//! Blocks: what is displayed at a boundary address, and how tall it is.
//!
//! ```text
//! <block>    = <section> <labelled>
//! <section>  = <section-end> <section-start>
//!            | <section-start>
//!            | <section-end>
//! <labelled> = <label> <real>
//! <real>     = <instruction> | <error> | <bytes>
//! ```
use std::sync::Arc;
use vstd::prelude::*;

use crate::hex::{encode_hex_bytes_truncated, hex_digits, hex_truncated, push_hex, push_hex_padded, zero_padded};
use vstd::string::StringExecFns;
use crate::processor::{error_kind_name, EngineError, ErrorKind, Processor, Symbol, Decoded};
use crate::section::{kind_name, Section};
use crate::tokens::{fragments, Color, Token, TokenStream};

verus! {

/// Bytes rendered on one line of a byte run.
pub const BYTES_CHUNK_WIDTH: usize = 32;

/// Most lines a byte run is rendered on.
pub const BYTES_MAX_LINES: usize = 100;

/// Hexadecimal digits of the address at the start of each line.
pub const ADDRESS_COLUMN_WIDTH: usize = 10;

/// What a block shows.
#[derive(Debug)]
pub enum BlockContent {
    SectionStart { section: Arc<Section> },
    SectionEnd { section: Arc<Section> },
    Label { symbol: Arc<Symbol> },
    Instruction { inst: Vec<Token>, bytes: String },
    Error { err: ErrorKind, bytes: String },
    Bytes { bytes: Vec<u8> },
}

/// A block's content as plain values.
pub enum BlockView {
    SectionStart(Section),
    SectionEnd(Section),
    Label(Symbol),
    Instruction(Seq<(Seq<char>, Color)>, Seq<char>),
    Error(ErrorKind, Seq<char>),
    Bytes(Seq<u8>),
}

impl View for BlockContent {
    type V = BlockView;

    open spec fn view(&self) -> BlockView {
        match self {
            BlockContent::SectionStart { section } => BlockView::SectionStart(**section),
            BlockContent::SectionEnd { section } => BlockView::SectionEnd(**section),
            BlockContent::Label { symbol } => BlockView::Label(**symbol),
            BlockContent::Instruction { inst, bytes } => BlockView::Instruction(fragments(inst@), bytes@),
            BlockContent::Error { err, bytes } => BlockView::Error(*err, bytes@),
            BlockContent::Bytes { bytes } => BlockView::Bytes(bytes@),
        }
    }
}

/// The smallest unit of display: content at an address.
#[derive(Debug)]
pub struct Block {
    pub addr: usize,
    pub content: BlockContent,
}

/// Lines a block takes when rendered: two for markers and labels, one for an
/// instruction or error, one per started chunk of bytes (at most the cap) for
/// a byte run.
pub open spec fn height(v: BlockView) -> nat {
    match v {
        BlockView::SectionStart(_) => 2,
        BlockView::SectionEnd(_) => 2,
        BlockView::Label(_) => 2,
        BlockView::Instruction(_, _) => 1,
        BlockView::Error(_, _) => 1,
        BlockView::Bytes(b) => {
            let lines = (b.len() + 31) / 32;
            if lines > 100 {
                100
            } else {
                lines as nat
            }
        },
    }
}

impl Block {
    /// Length of the block when tokenized, in lines.
    pub fn len(&self) -> (r: usize)
        ensures
            r == height(self.content@),
            r <= 100,
    {
        match &self.content {
            BlockContent::SectionStart { .. } => 2,
            BlockContent::SectionEnd { .. } => 2,
            BlockContent::Label { .. } => 2,
            BlockContent::Instruction { .. } => 1,
            BlockContent::Error { .. } => 1,
            BlockContent::Bytes { bytes } => {
                let lines = bytes.len() / BYTES_CHUNK_WIDTH + if bytes.len() % BYTES_CHUNK_WIDTH == 0 {
                    0
                } else {
                    1
                };
                if lines > BYTES_MAX_LINES {
                    BYTES_MAX_LINES
                } else {
                    lines
                }
            },
        }
    }
}


/// The index of the first section from `i` on that `p` holds of.
pub open spec fn find_from(secs: Seq<Section>, i: int, p: spec_fn(Section) -> bool) -> Option<int>
    decreases secs.len() - i,
{
    if i < 0 || i >= secs.len() {
        None
    } else if p(secs[i]) {
        Some(i)
    } else {
        find_from(secs, i + 1, p)
    }
}

/// Characters in the byte column of an instruction or error: three per byte
/// of the widest instruction, and one more.
pub open spec fn hex_column(max_width: usize) -> nat {
    if max_width <= (usize::MAX - 1) / 3 {
        (3 * max_width + 1) as nat
    } else {
        usize::MAX as nat
    }
}

impl Processor {
    /// The first section that starts at `a`.
    pub open spec fn section_starting(&self, a: usize) -> Option<int> {
        find_from(self.sections(), 0, |s: Section| s.start == a)
    }

    /// The first section that ends at `a`.
    pub open spec fn section_ending(&self, a: usize) -> Option<int> {
        find_from(self.sections(), 0, |s: Section| s.end == a)
    }

    /// The first section whose range holds `a`.
    pub open spec fn section_containing(&self, a: usize) -> Option<int> {
        find_from(self.sections(), 0, |s: Section| s.contains(a as int))
    }

    /// The section markers at `a`: an ending section before a starting one.
    pub open spec fn markers(&self, a: usize) -> Seq<BlockView> {
        let ends = match self.section_ending(a) {
            Some(i) => seq![BlockView::SectionEnd(self.sections()[i])],
            None => Seq::empty(),
        };
        let starts = match self.section_starting(a) {
            Some(i) => seq![BlockView::SectionStart(self.sections()[i])],
            None => Seq::empty(),
        };
        ends + starts
    }

    /// The block that covers the bytes from `a`: the decoded item there, or
    /// the run of undecoded bytes that begins there.
    pub open spec fn real_block(&self, a: usize) -> Option<BlockView> {
        match self.section_containing(a) {
            None => None,
            Some(i) => {
                let s = self.sections()[i];
                let col = hex_column(self.max_width());
                if self.decoded().contains_key(a) {
                    match self.decoded()[a] {
                        Decoded::Instruction { width, tokens } => Some(
                            BlockView::Instruction(fragments(tokens@), hex_truncated(s.bytes_at(a as int, width as int), col, true)),
                        ),
                        Decoded::Error { kind, size } => Some(
                            BlockView::Error(kind, hex_truncated(s.bytes_at(a as int, size as int), col, true)),
                        ),
                    }
                } else {
                    let e = self.run_end(a, a, s.end);
                    if e > a {
                        Some(BlockView::Bytes(s.bytes_at(a as int, e - a)))
                    } else {
                        None
                    }
                }
            },
        }
    }

    /// Everything displayed at `a`, in order: section markers, then the label
    /// and the real block when there is a real block.
    pub open spec fn blocks_at(&self, a: usize) -> Seq<BlockView> {
        self.markers(a) + match self.real_block(a) {
            None => Seq::empty(),
            Some(b) => if self.functions().contains_key(a) {
                seq![BlockView::Label(self.functions()[a]), b]
            } else {
                seq![b]
            },
        }
    }

    /// Whether `a` lies in a section or at a section's end.
    pub open spec fn in_range(&self, a: usize) -> bool {
        self.section_containing(a) is Some || self.section_ending(a) is Some
    }

    fn first_starting(&self, a: usize) -> (r: Option<usize>)
        ensures
            r matches Some(i) ==> self.section_starting(a) == Some(i as int),
            r is None ==> self.section_starting(a) is None,
    {
        let n = self.section_count();
        let mut i: usize = 0;
        while i < n
            invariant
                n == self.sections().len(),
                i <= n,
                self.section_starting(a) == find_from(self.sections(), i as int, |s: Section| s.start == a),
            decreases n - i,
        {
            let s = self.section_at(i);
            if s.start == a {
                return Some(i);
            }
            i += 1;
        }
        None
    }

    fn first_ending(&self, a: usize) -> (r: Option<usize>)
        ensures
            r matches Some(i) ==> self.section_ending(a) == Some(i as int),
            r is None ==> self.section_ending(a) is None,
    {
        let n = self.section_count();
        let mut i: usize = 0;
        while i < n
            invariant
                n == self.sections().len(),
                i <= n,
                self.section_ending(a) == find_from(self.sections(), i as int, |s: Section| s.end == a),
            decreases n - i,
        {
            let s = self.section_at(i);
            if s.end == a {
                return Some(i);
            }
            i += 1;
        }
        None
    }

    fn first_containing(&self, a: usize) -> (r: Option<usize>)
        ensures
            r matches Some(i) ==> self.section_containing(a) == Some(i as int),
            r is None ==> self.section_containing(a) is None,
    {
        let n = self.section_count();
        let mut i: usize = 0;
        while i < n
            invariant
                n == self.sections().len(),
                i <= n,
                self.section_containing(a) == find_from(self.sections(), i as int, |s: Section| s.contains(a as int)),
            decreases n - i,
        {
            let s = self.section_at(i);
            if s.start <= a && a < s.end {
                return Some(i);
            }
            i += 1;
        }
        None
    }

    fn hex_column_width(&self) -> (r: usize)
        ensures
            r == hex_column(self.max_width()),
    {
        let w = self.max_instruction_width();
        if w <= (usize::MAX - 1) / 3 {
            w * 3 + 1
        } else {
            usize::MAX
        }
    }
}


impl Processor {
    /// The real block at `a`, which section `i` holds.
    fn parse_data_or_code(&self, a: usize, i: usize) -> (r: Option<Block>)
        requires
            self.wf(),
            self.section_containing(a) == Some(i as int),
        ensures
            r matches Some(b) ==> b.addr == a && self.real_block(a) == Some(b.content@),
            r is None ==> self.real_block(a) is None,
    {
        proof {
            lemma_find_from(self.sections(), 0, |s: Section| s.contains(a as int));
        }
        let section = self.section_at(i);
        let ghost sec = self.sections()[i as int];
        assert(sec.wf());
        let col = self.hex_column_width();
        match self.decoded_at(a) {
            Some(Decoded::Instruction { width, tokens }) => {
                assert(sec.contains(a as int));
                let bytes = section.bytes_by_addr(a, *width);
                let inst = crate::tokens::duplicate_all(tokens);
                let bytes = encode_hex_bytes_truncated(bytes.as_slice(), col, true);
                return Some(Block { addr: a, content: BlockContent::Instruction { inst, bytes } });
            },
            Some(Decoded::Error { kind, size }) => {
                assert(sec.contains(a as int));
                let bytes = section.bytes_by_addr(a, *size);
                let bytes = encode_hex_bytes_truncated(bytes.as_slice(), col, true);
                return Some(Block { addr: a, content: BlockContent::Error { err: *kind, bytes } });
            },
            None => {},
        }
        assert(*section == sec);
        let end = self.byte_run_end(a, section.end);
        proof {
            self.lemma_run_end(a, a, sec.end);
        }
        if end > a {
            let bytes = section.bytes_by_addr(a, end - a);
            Some(Block { addr: a, content: BlockContent::Bytes { bytes } })
        } else {
            None
        }
    }

    /// The blocks to display at boundary `a`: the section markers there (an
    /// ending section before a starting one), then the label at `a` and the
    /// real block at `a`, when there is a real block. Fails with
    /// `AddressOutOfRange` when `a` lies in no section and ends none.
    pub fn parse_blocks(&self, a: usize) -> (r: Result<Vec<Block>, EngineError>)
        requires
            self.wf(),
        ensures
            r is Err <==> !self.in_range(a),
            r is Err ==> r->Err_0 == EngineError::AddressOutOfRange,
            r matches Ok(v) ==> {
                &&& v@.map_values(|b: Block| b.content@) == self.blocks_at(a)
                &&& forall|k: int| 0 <= k < v@.len() ==> #[trigger] v@[k].addr == a
            },
    {
        proof {
            lemma_find_from(self.sections(), 0, |s: Section| s.start == a);
            lemma_find_from(self.sections(), 0, |s: Section| s.end == a);
            lemma_find_from(self.sections(), 0, |s: Section| s.contains(a as int));
        }
        let containing = self.first_containing(a);
        let ending = self.first_ending(a);
        if containing.is_none() && ending.is_none() {
            return Err(EngineError::AddressOutOfRange);
        }
        let starting = self.first_starting(a);
        let mut blocks: Vec<Block> = Vec::new();
        match ending {
            Some(i) => {
                blocks.push(Block { addr: a, content: BlockContent::SectionEnd { section: self.section_at(i) } });
            },
            None => {},
        }
        match starting {
            Some(i) => {
                blocks.push(Block { addr: a, content: BlockContent::SectionStart { section: self.section_at(i) } });
            },
            None => {},
        }
        assert(blocks@.map_values(|b: Block| b.content@) =~= self.markers(a));
        let ghost marks = blocks@;
        match containing {
            Some(i) => {
                match self.parse_data_or_code(a, i) {
                    Some(found) => {
                        match self.function_at(a) {
                            Some(symbol) => {
                                blocks.push(Block { addr: a, content: BlockContent::Label { symbol } });
                            },
                            None => {},
                        }
                        blocks.push(found);
                    },
                    None => {},
                }
            },
            None => {},
        }
        assert(blocks@.map_values(|b: Block| b.content@) =~= self.blocks_at(a));
        Ok(blocks)
    }
}

/// The index found satisfies the predicate, lies in range, and no earlier
/// index from `i` on does.
pub proof fn lemma_find_from(secs: Seq<Section>, i: int, p: spec_fn(Section) -> bool)
    requires
        0 <= i,
    ensures
        find_from(secs, i, p) matches Some(k) ==> i <= k < secs.len() && p(secs[k])
            && forall|j: int| i <= j < k ==> !p(#[trigger] secs[j]),
        find_from(secs, i, p) is None ==> forall|j: int| i <= j < secs.len() ==> !p(#[trigger] secs[j]),
    decreases secs.len() - i,
{
    if i < secs.len() && !p(secs[i]) {
        lemma_find_from(secs, i + 1, p);
    }
}


/// The address at the head of an instruction, error or byte line: ten
/// upper-case hexadecimal digits at least, then two spaces.
pub open spec fn address_prefix(a: nat) -> Seq<char> {
    zero_padded(hex_digits(a, true), 10) + "  "@
}

/// The fragments of a section marker.
pub open spec fn render_section(verb: Seq<char>, s: Section) -> Seq<(Seq<char>, Color)> {
    seq![
        (verb, Color::White),
        (" "@ + s.name@ + " "@, Color::Blue),
        ("{"@, Color::Gray60),
        (kind_name(s.kind), Color::Magenta),
        ("} "@, Color::Gray60),
        (hex_digits(s.start as nat, false), Color::Green),
        ("-"@, Color::Gray60),
        (hex_digits(s.end as nat, false), Color::Green),
    ]
}

/// The bytes of the `k`-th line of a byte run.
pub open spec fn chunk(b: Seq<u8>, k: nat) -> Seq<u8> {
    let from: int = 32 * k as int;
    let to: int = if from + 32 <= b.len() { from + 32 } else { b.len() as int };
    b.subrange(from as int, to)
}

/// The fragments of the first `n` lines of a byte run at `a`, each ended by
/// a newline.
pub open spec fn byte_lines(a: nat, b: Seq<u8>, n: nat) -> Seq<(Seq<char>, Color)>
    decreases n,
{
    if n == 0 {
        Seq::empty()
    } else {
        let k = (n - 1) as nat;
        byte_lines(a, b, k) + seq![
            (address_prefix(a + 32 * k), Color::Gray40),
            (hex_truncated(chunk(b, k), usize::MAX as nat, false), Color::Green),
            ("\n"@, Color::White),
        ]
    }
}

/// The lines of a byte run that are shown.
pub open spec fn shown_lines(len: nat) -> nat {
    let lines = (len + 31) / 32;
    if lines > 100 {
        100
    } else {
        lines as nat
    }
}

/// The fragments a block is rendered into.
pub open spec fn render(a: usize, v: BlockView) -> Seq<(Seq<char>, Color)> {
    match v {
        BlockView::Label(sym) => seq![("\n<"@, Color::Blue)] + fragments(sym.name@) + seq![(">"@, Color::Blue)],
        BlockView::SectionStart(s) => render_section("section started"@, s),
        BlockView::SectionEnd(s) => render_section("section ended"@, s),
        BlockView::Instruction(inst, bytes) => seq![(address_prefix(a as nat), Color::Gray40), (bytes, Color::Green)]
            + inst,
        BlockView::Error(err, bytes) => seq![
            (address_prefix(a as nat), Color::Gray40),
            (bytes, Color::Green),
            ("<"@, Color::Gray40),
            (error_kind_name(err), Color::Red),
            (">"@, Color::Gray40),
        ],
        BlockView::Bytes(b) => {
            let all = byte_lines(a as nat, b, shown_lines(b.len()));
            if all.len() > 0 {
                all.drop_last()
            } else {
                all
            }
        },
    }
}

fn address_text(a: usize) -> (r: String)
    ensures
        r@ == address_prefix(a as nat),
{
    let mut s = String::new();
    push_hex_padded(&mut s, a, ADDRESS_COLUMN_WIDTH);
    proof {
        reveal_strlit("  ");
    }
    s.append("  ");
    s
}

fn hex_text(n: usize) -> (r: String)
    ensures
        r@ == hex_digits(n as nat, false),
{
    let mut s = String::new();
    push_hex(&mut s, n);
    s
}

fn copy_range(b: &Vec<u8>, from: usize, to: usize) -> (r: Vec<u8>)
    requires
        from <= to <= b@.len(),
    ensures
        r@ == b@.subrange(from as int, to as int),
{
    let mut r: Vec<u8> = Vec::with_capacity(to - from);
    let mut i: usize = from;
    while i < to
        invariant
            from <= i <= to <= b@.len(),
            r@ == b@.subrange(from as int, i as int),
        decreases to - i,
    {
        r.push(b[i]);
        i += 1;
        assert(r@ =~= b@.subrange(from as int, i as int));
    }
    r
}

fn render_section_into(stream: &mut TokenStream, verb: &'static str, s: &Section)
    ensures
        fragments(final(stream).inner@) == fragments(old(stream).inner@) + render_section(verb@, *s),
{
    let ghost start = fragments(stream.inner@);
    stream.push(verb, Color::White);
    let mut name = String::new();
    proof {
        reveal_strlit(" ");
        reveal_strlit("{");
        reveal_strlit("} ");
        reveal_strlit("-");
    }
    name.append(" ");
    name.append(s.name.as_str());
    name.append(" ");
    stream.push_owned(name, Color::Blue);
    stream.push("{", Color::Gray60);
    stream.push(s.kind.name(), Color::Magenta);
    stream.push("} ", Color::Gray60);
    stream.push_owned(hex_text(s.start), Color::Green);
    stream.push("-", Color::Gray60);
    stream.push_owned(hex_text(s.end), Color::Green);
    assert(fragments(stream.inner@) =~= start + render_section(verb@, *s));
}

impl Block {
    /// Appends the block's fragments to `stream`. A byte run is shown on at
    /// most a hundred lines of 32 bytes, without a newline after the last.
    pub fn tokenize(&self, stream: &mut TokenStream)
        requires
            self.content matches BlockContent::Bytes { bytes } ==> self.addr + bytes@.len() <= usize::MAX,
        ensures
            fragments(final(stream).inner@) == fragments(old(stream).inner@) + render(self.addr, self.content@),
    {
        let ghost start = fragments(stream.inner@);
        match &self.content {
            BlockContent::Label { symbol } => {
                proof {
                    reveal_strlit("\n<");
                    reveal_strlit(">");
                }
                stream.push("\n<", Color::Blue);
                let name = crate::tokens::duplicate_all(&symbol.name);
                let ghost mid = fragments(stream.inner@);
                let mut name = name;
                stream.inner.append(&mut name);
                assert(fragments(stream.inner@) =~= mid + fragments(symbol.name@));
                stream.push(">", Color::Blue);
                assert(fragments(stream.inner@) =~= start + render(self.addr, self.content@));
            },
            BlockContent::SectionStart { section } => {
                proof {
                    reveal_strlit("section started");
                }
                render_section_into(stream, "section started", section);
            },
            BlockContent::SectionEnd { section } => {
                proof {
                    reveal_strlit("section ended");
                }
                render_section_into(stream, "section ended", section);
            },
            BlockContent::Instruction { inst, bytes } => {
                stream.push_owned(address_text(self.addr), Color::Gray40);
                stream.push_owned(bytes.clone(), Color::Green);
                let ghost mid = fragments(stream.inner@);
                let mut copied = crate::tokens::duplicate_all(inst);
                stream.inner.append(&mut copied);
                assert(fragments(stream.inner@) =~= mid + fragments(inst@));
                assert(fragments(stream.inner@) =~= start + render(self.addr, self.content@));
            },
            BlockContent::Error { err, bytes } => {
                proof {
                    reveal_strlit("<");
                    reveal_strlit(">");
                }
                stream.push_owned(address_text(self.addr), Color::Gray40);
                stream.push_owned(bytes.clone(), Color::Green);
                stream.push("<", Color::Gray40);
                stream.push(err.name(), Color::Red);
                stream.push(">", Color::Gray40);
                assert(fragments(stream.inner@) =~= start + render(self.addr, self.content@));
            },
            BlockContent::Bytes { bytes } => {
                self.tokenize_bytes(bytes, stream);
            },
        }
    }

    fn tokenize_bytes(&self, bytes: &Vec<u8>, stream: &mut TokenStream)
        requires
            self.content == (BlockContent::Bytes { bytes: *bytes }),
            self.addr + bytes@.len() <= usize::MAX,
        ensures
            fragments(final(stream).inner@) == fragments(old(stream).inner@) + render(self.addr, self.content@),
    {
        let ghost start = fragments(stream.inner@);
        let len = bytes.len();
        let full = len / BYTES_CHUNK_WIDTH + if len % BYTES_CHUNK_WIDTH == 0 { 0 } else { 1 };
        let n = if full > BYTES_MAX_LINES { BYTES_MAX_LINES } else { full };
        assert(n == shown_lines(len as nat));
        proof {
            reveal_strlit("\n");
        }
        let mut k: usize = 0;
        while k < n
            invariant
                n == shown_lines(len as nat),
                len == bytes@.len(),
                self.addr + len <= usize::MAX,
                n <= 100,
                k <= n,
                32 * n < len + 32,
                fragments(stream.inner@) == start + byte_lines(self.addr as nat, bytes@, k as nat),
            decreases n - k,
        {
            let from = k * BYTES_CHUNK_WIDTH;
            let to = if from + BYTES_CHUNK_WIDTH <= len { from + BYTES_CHUNK_WIDTH } else { len };
            let piece = copy_range(bytes, from, to);
            stream.push_owned(address_text(self.addr + from), Color::Gray40);
            stream.push_owned(encode_hex_bytes_truncated(piece.as_slice(), usize::MAX, false), Color::Green);
            stream.push("\n", Color::White);
            k += 1;
            assert(fragments(stream.inner@) =~= start + byte_lines(self.addr as nat, bytes@, k as nat));
        }
        if n > 0 {
            let ghost before = stream.inner@;
            stream.inner.pop();
            assert(fragments(stream.inner@) =~= fragments(before).drop_last());
        }
        proof {
            let all = byte_lines(self.addr as nat, bytes@, n as nat);
            if n > 0 {
                assert(all.len() > 0);
                assert((start + all).drop_last() =~= start + all.drop_last());
            } else {
                assert(all.len() == 0);
                assert(start + all =~= start);
            }
        }
    }
}

} // verus!
