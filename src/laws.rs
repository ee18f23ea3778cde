//! Properties that relate the boundary computer and the block materializer.
use vstd::prelude::*;

use crate::blocks::{height, lemma_find_from, BlockView};
use crate::processor::{strictly_increasing, Processor};
use crate::section::Section;

verus! {

/// Whether a block covers bytes (an instruction, an error or a byte run), as
/// opposed to a marker or a label.
pub open spec fn is_real(v: BlockView) -> bool {
    match v {
        BlockView::Instruction(_, _) | BlockView::Error(_, _) | BlockView::Bytes(_) => true,
        _ => false,
    }
}

/// Two strictly increasing lists with the same elements are the same list.
pub proof fn lemma_increasing_unique(x: Seq<usize>, y: Seq<usize>)
    requires
        strictly_increasing(x),
        strictly_increasing(y),
        forall|v: usize| x.contains(v) <==> y.contains(v),
    ensures
        x == y,
    decreases x.len() + y.len(),
{
    if x.len() > 0 && y.len() > 0 {
        assert(x.contains(x[0]));
        assert(y.contains(y[0]));
        let kx = choose|k: int| 0 <= k < x.len() && x[k] == y[0];
        let ky = choose|k: int| 0 <= k < y.len() && y[k] == x[0];
        if x[0] < y[0] {
            assert(y[ky] == x[0]);
            if ky > 0 {
                assert(y[0] < y[ky]);
            }
        }
        if y[0] < x[0] {
            assert(x[kx] == y[0]);
            if kx > 0 {
                assert(x[0] < x[kx]);
            }
        }
        assert(x[0] == y[0]);
        let xs = x.drop_first();
        let ys = y.drop_first();
        assert forall|v: usize| xs.contains(v) <==> ys.contains(v) by {
            if xs.contains(v) {
                let k = choose|k: int| 0 <= k < xs.len() && xs[k] == v;
                assert(x[k + 1] == v);
                assert(x.contains(v));
                let l = choose|l: int| 0 <= l < y.len() && y[l] == v;
                assert(x[0] < v);
                assert(l != 0);
                assert(ys[l - 1] == v);
            }
            if ys.contains(v) {
                let k = choose|k: int| 0 <= k < ys.len() && ys[k] == v;
                assert(y[k + 1] == v);
                assert(y.contains(v));
                let l = choose|l: int| 0 <= l < x.len() && x[l] == v;
                assert(y[0] < v);
                assert(l != 0);
                assert(xs[l - 1] == v);
            }
        }
        lemma_increasing_unique(xs, ys);
        assert(x == seq![x[0]] + xs);
        assert(y == seq![y[0]] + ys);
    } else if x.len() > 0 {
        assert(x.contains(x[0]));
    } else if y.len() > 0 {
        assert(y.contains(y[0]));
    }
}

/// Computing the boundaries twice on the same state gives the same list:
/// any two lists that meet the boundary computer's contract are equal.
pub proof fn lemma_boundaries_deterministic(p: Processor, r1: Seq<usize>, r2: Seq<usize>)
    requires
        strictly_increasing(r1),
        forall|x: usize| r1.contains(x) <==> p.is_boundary(x),
        strictly_increasing(r2),
        forall|x: usize| r2.contains(x) <==> p.is_boundary(x),
    ensures
        r1 == r2,
{
    lemma_increasing_unique(r1, r2);
}

/// Materializing the blocks at one address twice on the same state gives
/// the same blocks.
pub proof fn lemma_parse_deterministic(p: Processor, a: usize, v1: Seq<BlockView>, v2: Seq<BlockView>)
    requires
        v1 == p.blocks_at(a),
        v2 == p.blocks_at(a),
    ensures
        v1 == v2,
{
}


/// In a well-formed state the first section that holds `a` is the only one.
pub proof fn lemma_containing_unique(p: Processor, i: int, a: usize)
    requires
        p.wf(),
        0 <= i < p.sections().len(),
        p.sections()[i].contains(a as int),
    ensures
        p.section_containing(a) == Some(i),
{
    let f = |s: Section| s.contains(a as int);
    lemma_find_from(p.sections(), 0, f);
    let secs = p.sections();
    match p.section_containing(a) {
        Some(k) => {
            if k != i {
                assert(secs[k].end <= secs[i].start || secs[i].end <= secs[k].start);
            }
        },
        None => {
            assert(!f(secs[i]));
        },
    }
}

/// Inside a section the block at `x` ends after `x` and no later than the
/// section end.
pub proof fn lemma_next_in_range(p: Processor, i: int, x: usize)
    requires
        p.wf(),
        0 <= i < p.sections().len(),
        p.sections()[i].contains(x as int),
    ensures
        x < p.next_boundary(x, p.sections()[i].end) <= p.sections()[i].end,
{
    let s = p.sections()[i];
    if !p.decoded().contains_key(x) {
        p.lemma_run_end(x, x, s.end);
        assert(!p.is_stop(x, x, s.end));
    }
}

/// Each boundary of the walk but the last is followed by the end of the
/// block that starts there.
pub proof fn lemma_walk_step(p: Processor, i: int, a: usize, k: int)
    requires
        p.wf(),
        0 <= i < p.sections().len(),
        p.sections()[i].start <= a <= p.sections()[i].end,
        0 <= k < p.walk(a, p.sections()[i].end).len() - 1,
    ensures
        p.walk(a, p.sections()[i].end)[k] < p.sections()[i].end,
        a <= p.walk(a, p.sections()[i].end)[k],
        p.walk(a, p.sections()[i].end)[k + 1] == p.next_boundary(
            p.walk(a, p.sections()[i].end)[k],
            p.sections()[i].end,
        ),
    decreases p.sections()[i].end - a,
{
    let end = p.sections()[i].end;
    if a < end {
        lemma_next_in_range(p, i, a);
        let n = p.next_boundary(a, end) as usize;
        p.lemma_walk(n, end);
        if k > 0 {
            lemma_walk_step(p, i, n, k - 1);
        }
    }
}

/// Between two consecutive boundaries `x < y` of a section, from its `addr`
/// on, lies exactly one block that covers bytes, and it covers `[x, y)`: the
/// decoded item at `x`, or else the run of undecoded bytes from `x`, which
/// the next boundary ends.
pub proof fn lemma_consecutive_boundaries(p: Processor, i: int, k: int)
    requires
        p.wf(),
        0 <= i < p.sections().len(),
        (if p.sections()[i].start == p.sections()[i].addr { 0int } else { 1int }) <= k,
        k < p.section_boundaries(p.sections()[i]).len() - 1,
    ensures
        ({
            let s = p.sections()[i];
            let x = p.section_boundaries(s)[k];
            let y = p.section_boundaries(s)[k + 1];
            &&& s.addr <= x < y <= s.end
            &&& p.section_containing(x) == Some(i)
            &&& p.decoded().contains_key(x) ==> y - x == p.decoded()[x].width()
            &&& !p.decoded().contains_key(x) ==> y == p.run_end(x, x, s.end)
                && p.real_block(x) == Some(BlockView::Bytes(s.bytes_at(x as int, y - x)))
            &&& p.real_block(x) matches Some(BlockView::Bytes(bs)) ==> bs.len() == y - x
            &&& p.real_block(x) is Some
            &&& is_real(p.blocks_at(x).last())
            &&& forall|j: int| 0 <= j < p.blocks_at(x).len() - 1 ==> !is_real(#[trigger] p.blocks_at(x)[j])
        }),
{
    let s = p.sections()[i];
    assert(s.wf());
    let w = p.walk(s.addr, s.end);
    let kk = if s.start == s.addr { k } else { k - 1 };
    if s.start != s.addr {
        assert(p.section_boundaries(s) == seq![s.start] + w);
    }
    lemma_walk_step(p, i, s.addr, kk);
    let x = w[kk];
    assert(x == p.section_boundaries(s)[k]);
    assert(s.contains(x as int));
    lemma_next_in_range(p, i, x);
    lemma_containing_unique(p, i, x);
    p.lemma_run_end(x, x, s.end);
    let ends = match p.section_ending(x) {
        Some(e) => seq![BlockView::SectionEnd(p.sections()[e])],
        None => Seq::empty(),
    };
    let starts = match p.section_starting(x) {
        Some(e) => seq![BlockView::SectionStart(p.sections()[e])],
        None => Seq::empty(),
    };
    assert(p.markers(x) == ends + starts);
    let b = p.blocks_at(x);
    assert forall|j: int| 0 <= j < b.len() - 1 implies !is_real(#[trigger] b[j]) by {
        if j < p.markers(x).len() {
            assert(b[j] == p.markers(x)[j]);
            if j < ends.len() {
                assert(p.markers(x)[j] == ends[j]);
            } else {
                assert(p.markers(x)[j] == starts[j - ends.len()]);
            }
        }
    }
}

/// A byte run holds no decoded item and no label after its first address.
pub proof fn lemma_bytes_unlabelled(p: Processor, a: usize, x: usize)
    requires
        p.wf(),
        p.real_block(a) matches Some(BlockView::Bytes(b)) && a < x < a + b.len(),
    ensures
        !p.functions().contains_key(x),
        !p.decoded().contains_key(x),
{
    let i = p.section_containing(a)->Some_0;
    lemma_find_from(p.sections(), 0, |s: Section| s.contains(a as int));
    let s = p.sections()[i];
    assert(s.wf());
    p.lemma_run_end(a, a, s.end);
    assert(!p.is_stop(a, x, s.end));
}

/// Every block at any address takes between one and a hundred lines.
pub proof fn lemma_heights(p: Processor, a: usize)
    requires
        p.wf(),
    ensures
        forall|j: int| 0 <= j < p.blocks_at(a).len() ==> 1 <= #[trigger] height(p.blocks_at(a)[j]) <= 100,
{
    let ends = match p.section_ending(a) {
        Some(e) => seq![BlockView::SectionEnd(p.sections()[e])],
        None => Seq::empty(),
    };
    let starts = match p.section_starting(a) {
        Some(e) => seq![BlockView::SectionStart(p.sections()[e])],
        None => Seq::empty(),
    };
    assert(p.markers(a) == ends + starts);
    let b = p.blocks_at(a);
    assert forall|j: int| 0 <= j < b.len() implies 1 <= #[trigger] height(b[j]) <= 100 by {
        if j < p.markers(a).len() {
            assert(b[j] == p.markers(a)[j]);
            if j < ends.len() {
                assert(p.markers(a)[j] == ends[j]);
            } else {
                assert(p.markers(a)[j] == starts[j - ends.len()]);
            }
        } else {
            match p.real_block(a) {
                Some(BlockView::Bytes(bs)) => {
                    let i = p.section_containing(a)->Some_0;
                    lemma_find_from(p.sections(), 0, |s: Section| s.contains(a as int));
                    let s = p.sections()[i];
                    assert(s.wf());
                    if !p.decoded().contains_key(a) {
                        p.lemma_run_end(a, a, s.end);
                        assert(bs.len() == p.run_end(a, a, s.end) - a);
                    }
                },
                _ => {},
            }
        }
    }
}


/// Where one section ends at `x` and another starts there, the blocks at `x`
/// are the end marker, then the start marker, then the label at `x` if any
/// and the real block of the section that starts at `x`.
pub proof fn lemma_adjacent_sections(p: Processor, i: int, j: int, x: usize)
    requires
        p.wf(),
        0 <= i < p.sections().len(),
        0 <= j < p.sections().len(),
        p.sections()[i].end == x,
        p.sections()[j].start == x,
        p.sections()[j].contains(x as int),
    ensures
        p.section_containing(x) == Some(j),
        p.real_block(x) is Some,
        p.blocks_at(x)[0] matches BlockView::SectionEnd(e) && e.end == x,
        p.blocks_at(x)[1] matches BlockView::SectionStart(st) && st.start == x,
        p.functions().contains_key(x) ==> p.blocks_at(x).len() == 4 && p.blocks_at(x)[2] == BlockView::Label(p.functions()[x])
            && p.blocks_at(x)[3] == p.real_block(x)->Some_0,
        !p.functions().contains_key(x) ==> p.blocks_at(x).len() == 3 && p.blocks_at(x)[2] == p.real_block(x)->Some_0,
{
    let secs = p.sections();
    lemma_containing_unique(p, j, x);
    lemma_next_in_range(p, j, x);
    let s = secs[j];
    assert(s.wf());
    p.lemma_run_end(x, x, s.end);
    if !p.decoded().contains_key(x) {
        assert(!p.is_stop(x, x, s.end));
    }
    lemma_find_from(secs, 0, |t: Section| t.start == x);
    lemma_find_from(secs, 0, |t: Section| t.end == x);
    let fe = |t: Section| t.end == x;
    let fs = |t: Section| t.start == x;
    assert(fe(secs[i]));
    assert(fs(secs[j]));
    let e = p.section_ending(x)->Some_0;
    let st = p.section_starting(x)->Some_0;
    assert(p.markers(x) == seq![BlockView::SectionEnd(secs[e]), BlockView::SectionStart(secs[st])]);
}

/// A label at the first address of a section that no section ends at comes
/// after the start marker and before the real block.
pub proof fn lemma_label_at_section_start(p: Processor, i: int, x: usize)
    requires
        p.wf(),
        0 <= i < p.sections().len(),
        p.sections()[i].start == x,
        p.sections()[i].contains(x as int),
        p.section_ending(x) is None,
        p.functions().contains_key(x),
    ensures
        p.blocks_at(x).len() == 3,
        p.blocks_at(x)[0] matches BlockView::SectionStart(st) && st.start == x,
        p.blocks_at(x)[1] == BlockView::Label(p.functions()[x]),
        is_real(p.blocks_at(x)[2]),
{
    let secs = p.sections();
    lemma_containing_unique(p, i, x);
    let s = secs[i];
    assert(s.wf());
    p.lemma_run_end(x, x, s.end);
    if !p.decoded().contains_key(x) {
        assert(!p.is_stop(x, x, s.end));
    }
    lemma_find_from(secs, 0, |t: Section| t.start == x);
    let fs = |t: Section| t.start == x;
    assert(fs(secs[i]));
    let st = p.section_starting(x)->Some_0;
    assert(p.markers(x) == seq![BlockView::SectionStart(secs[st])]);
}

} // verus!
