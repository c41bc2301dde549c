//! The chunker: greedy, size-bounded packing of a program into chunks, with
//! the work-list ("call stack") model its contracts are stated over.
use std::rc::Rc;
use vstd::prelude::*;
use vstd::string::StringExecFns;

use crate::program::Block;
use crate::program::BlockV;
use crate::program::Builder;
use crate::program::BuilderV;
use crate::program::block_flat;
use crate::program::block_feasible;
use crate::program::block_weight;
use crate::program::block_wf;
use crate::program::block_view;
use crate::program::builder_view;
use crate::program::expansion;
use crate::program::expansion_from;
use crate::program::feasible;
use crate::program::feasible_from;
use crate::program::flat;
use crate::program::flat_from;
use crate::program::fragment_of_block;
use crate::program::has_call;
use crate::program::leaf_fragment;
use crate::program::lemma_flat_from_mono;
use crate::program::lemma_leaf_fragment;
use crate::program::lemma_wf_at;
use crate::program::lookup;
use crate::program::weight;
use crate::program::weight_from;
use crate::program::wf;
use crate::stack_effect::StackAnalyzer;
use crate::stack_effect::StackStatus;
use crate::stack_effect::spec_altstack_input;
use crate::stack_effect::spec_altstack_output;
use crate::stack_effect::spec_stack_input;
use crate::stack_effect::spec_stack_output;
use crate::stack_effect::stack_io_sizes;
use crate::stack_effect::status_valid;

verus! {

/// The views of a sequence of owned fragments.
pub open spec fn views_of(s: Seq<Rc<Builder>>) -> Seq<BuilderV> {
    Seq::new(s.len(), |i: int| builder_view(*s[i]))
}

/// Combined structural weight of a work-list: the chunker's termination measure.
pub open spec fn stack_weight(s: Seq<BuilderV>) -> nat
    decreases s.len(),
{
    if s.len() == 0 {
        0
    } else {
        stack_weight(s.drop_last()) + weight(s.last())
    }
}

/// The instruction content a work-list still holds, in the order it will be
/// delivered (top of the stack first).
pub open spec fn stack_flat(s: Seq<BuilderV>) -> Seq<u8>
    decreases s.len(),
{
    if s.len() == 0 {
        Seq::empty()
    } else {
        flat(s.last()) + stack_flat(s.drop_last())
    }
}

/// The instruction content of a chunk's fragments, in chunk order.
pub open spec fn chunk_flat(c: Seq<BuilderV>) -> Seq<u8>
    decreases c.len(),
{
    if c.len() == 0 {
        Seq::empty()
    } else {
        chunk_flat(c.drop_last()) + flat(c.last())
    }
}

/// Every fragment of the sequence is well-formed.
pub open spec fn all_wf(s: Seq<BuilderV>) -> bool {
    forall|i: int| 0 <= i < s.len() ==> wf(#[trigger] s[i])
}

/// Every fragment of the sequence is feasible for the tolerance.
pub open spec fn all_feasible(s: Seq<BuilderV>, tol: nat) -> bool {
    forall|i: int| 0 <= i < s.len() ==> feasible(#[trigger] s[i], tol)
}

pub proof fn lemma_stack_weight_push(s: Seq<BuilderV>, v: BuilderV)
    ensures
        stack_weight(s.push(v)) == stack_weight(s) + weight(v),
{
    assert(s.push(v).drop_last() =~= s);
}

pub proof fn lemma_stack_flat_push(s: Seq<BuilderV>, v: BuilderV)
    ensures
        stack_flat(s.push(v)) == flat(v) + stack_flat(s),
{
    assert(s.push(v).drop_last() =~= s);
}

pub proof fn lemma_chunk_flat_push(c: Seq<BuilderV>, v: BuilderV)
    ensures
        chunk_flat(c.push(v)) == chunk_flat(c) + flat(v),
{
    assert(c.push(v).drop_last() =~= c);
}

pub proof fn lemma_stack_weight_append(a: Seq<BuilderV>, b: Seq<BuilderV>)
    ensures
        stack_weight(a + b) == stack_weight(a) + stack_weight(b),
    decreases b.len(),
{
    if b.len() == 0 {
        assert(a + b =~= a);
    } else {
        lemma_stack_weight_append(a, b.drop_last());
        assert((a + b).drop_last() =~= a + b.drop_last());
        assert((a + b).last() == b.last());
    }
}

pub proof fn lemma_stack_flat_append(a: Seq<BuilderV>, b: Seq<BuilderV>)
    ensures
        stack_flat(a + b) == stack_flat(b) + stack_flat(a),
    decreases b.len(),
{
    if b.len() == 0 {
        assert(a + b =~= a);
        assert(stack_flat(b) + stack_flat(a) =~= stack_flat(a));
    } else {
        lemma_stack_flat_append(a, b.drop_last());
        assert((a + b).drop_last() =~= a + b.drop_last());
        assert((a + b).last() == b.last());
        assert(flat(b.last()) + (stack_flat(b.drop_last()) + stack_flat(a)) =~= (flat(
            b.last(),
        ) + stack_flat(b.drop_last())) + stack_flat(a));
    }
}

/// What an expansion produces: its content is exactly the expanded fragment's
/// content, it weighs no more — strictly less as soon as a call is among the
/// expanded blocks — and it stays well-formed and feasible.
pub proof fn lemma_expansion_props(v: BuilderV, tol: nat, k: int)
    requires
        wf(v),
        0 <= k <= v.blocks.len(),
    ensures
        stack_flat(expansion_from(v, k)) == flat_from(v, k),
        stack_weight(expansion_from(v, k)) <= weight_from(v, k),
        (exists|i: int| k <= i < v.blocks.len() && v.blocks[i] is Call)
            ==> stack_weight(expansion_from(v, k)) < weight_from(v, k),
        all_wf(expansion_from(v, k)),
        feasible_from(v, tol, k) ==> all_feasible(expansion_from(v, k), tol),
    decreases v.blocks.len() - k,
{
    if k == v.blocks.len() {
        assert(stack_flat(expansion_from(v, k)) =~= flat_from(v, k));
    } else {
        lemma_expansion_props(v, tol, k + 1);
        let exp1 = expansion_from(v, k + 1);
        let blk = v.blocks[k];
        let f = fragment_of_block(v, blk);
        lemma_stack_weight_push(exp1, f);
        lemma_stack_flat_push(exp1, f);
        lemma_wf_at(v, 0, k);
        match blk {
            BlockV::Leaf(buf) => {
                lemma_leaf_fragment(buf, tol);
                lemma_flat_from_mono(v, 0, k);
                assert(flat_from(v, k) == block_flat(v, blk) + flat_from(v, k + 1));
                assert(buf.len() <= flat_from(v, k).len());
                assert(wf(f));
                if feasible_from(v, tol, k) {
                    assert(block_feasible(v, blk, tol));
                    assert(feasible(f, tol));
                }
            }
            BlockV::Call(id) => {
                assert(block_wf(v, blk));
                assert(f == lookup(v.map, id).unwrap());
                assert(wf(f));
                assert(weight(f) < block_weight(v, blk));
                if feasible_from(v, tol, k) {
                    assert(block_feasible(v, blk, tol));
                    assert(feasible(f, tol));
                }
            }
        }
        assert(flat_from(v, k) == block_flat(v, blk) + flat_from(v, k + 1));
        assert(weight_from(v, k) == block_weight(v, blk) + weight_from(v, k + 1));
        assert(flat(f) == block_flat(v, blk));
        assert(weight(f) <= block_weight(v, blk));
        assert(expansion_from(v, k) == exp1.push(f));
        assert(stack_flat(expansion_from(v, k)) == flat(f) + stack_flat(exp1));
        assert(stack_flat(expansion_from(v, k)) == flat_from(v, k));
        assert(stack_weight(expansion_from(v, k)) == stack_weight(exp1) + weight(f));
        assert forall|i: int| 0 <= i < expansion_from(v, k).len() implies wf(
            #[trigger] expansion_from(v, k)[i],
        ) by {
            if i < exp1.len() {
                assert(expansion_from(v, k)[i] == exp1[i]);
            } else {
                assert(expansion_from(v, k)[i] == f);
            }
        }
        if feasible_from(v, tol, k) {
            assert(feasible_from(v, tol, k + 1));
            assert forall|i: int| 0 <= i < expansion_from(v, k).len() implies feasible(
                #[trigger] expansion_from(v, k)[i],
                tol,
            ) by {
                if i < exp1.len() {
                    assert(expansion_from(v, k)[i] == exp1[i]);
                } else {
                    assert(expansion_from(v, k)[i] == f);
                }
            }
        }
        if exists|i: int| k <= i < v.blocks.len() && v.blocks[i] is Call {
            let i = choose|i: int| k <= i < v.blocks.len() && v.blocks[i] is Call;
            if i == k {
                assert(weight(f) < block_weight(v, blk));
            } else {
                assert(exists|j: int| k + 1 <= j < v.blocks.len() && v.blocks[j] is Call);
            }
        }
    }
}

/// One step of the chunk-boundary search, exactly as the chunker performs it:
/// pop the next fragment; keep growing while strictly below the window, expand
/// a too-large fragment in place, close the chunk inside the window. `None` is
/// the infeasible case: a too-large fragment with nothing to expand.
pub open spec fn next_chunk(
    stack: Seq<BuilderV>,
    acc: Seq<BuilderV>,
    acc_len: nat,
    target: nat,
    tol: nat,
) -> Option<(Seq<BuilderV>, nat, Seq<BuilderV>)>
    decreases stack_weight(stack), stack.len(),
    via next_chunk_decreases
{
    if stack.len() == 0 {
        Some((acc, acc_len, stack))
    } else {
        let b = stack.last();
        let rest = stack.drop_last();
        let cand = acc_len + flat(b).len();
        if cand < target - tol {
            next_chunk(rest, acc.push(b), cand, target, tol)
        } else if cand > target {
            if has_call(b) && wf(b) {
                next_chunk(rest + expansion(b), acc, acc_len, target, tol)
            } else {
                None
            }
        } else {
            Some((acc.push(b), cand, rest))
        }
    }
}

#[via_fn]
proof fn next_chunk_decreases(
    stack: Seq<BuilderV>,
    acc: Seq<BuilderV>,
    acc_len: nat,
    target: nat,
    tol: nat,
) {
    if stack.len() > 0 {
        let b = stack.last();
        let rest = stack.drop_last();
        assert(stack =~= rest.push(b));
        lemma_stack_weight_push(rest, b);
        if acc_len + flat(b).len() > target && has_call(b) && wf(b) {
            lemma_expansion_props(b, 0, 0);
            lemma_stack_weight_append(rest, expansion(b));
        }
    }
}

/// The work-list only ever sheds weight, and strictly so (or it shortens)
/// whenever a chunk was actually extracted from a non-empty work-list.
pub proof fn lemma_next_chunk_measure(
    stack: Seq<BuilderV>,
    acc: Seq<BuilderV>,
    acc_len: nat,
    target: nat,
    tol: nat,
)
    ensures
        next_chunk(stack, acc, acc_len, target, tol) matches Some(r) ==> {
            &&& stack_weight(r.2) <= stack_weight(stack)
            &&& (stack_weight(r.2) == stack_weight(stack) ==> r.2.len() <= stack.len())
            &&& (stack.len() > 0 ==> stack_weight(r.2) < stack_weight(stack) || (stack_weight(
                r.2,
            ) == stack_weight(stack) && r.2.len() < stack.len()))
        },
    decreases stack_weight(stack), stack.len(),
{
    if stack.len() > 0 {
        let b = stack.last();
        let rest = stack.drop_last();
        assert(stack =~= rest.push(b));
        lemma_stack_weight_push(rest, b);
        let cand = acc_len + flat(b).len();
        if cand < target - tol {
            lemma_next_chunk_measure(rest, acc.push(b), cand, target, tol);
        } else if cand > target {
            if has_call(b) && wf(b) {
                lemma_expansion_props(b, 0, 0);
                lemma_stack_weight_append(rest, expansion(b));
                lemma_next_chunk_measure(rest + expansion(b), acc, acc_len, target, tol);
            }
        }
    }
}

/// What one extracted chunk satisfies: it never exceeds the target; it is no
/// more than the tolerance below the target unless it drained the work-list;
/// its recorded size is the length of its content; and its content, followed
/// by what is left on the work-list, is exactly what the work-list held.
pub proof fn lemma_next_chunk_props(
    stack: Seq<BuilderV>,
    acc: Seq<BuilderV>,
    acc_len: nat,
    target: nat,
    tol: nat,
)
    requires
        tol <= target,
        acc_len <= target,
        acc_len == chunk_flat(acc).len(),
        all_wf(stack),
        all_wf(acc),
    ensures
        next_chunk(stack, acc, acc_len, target, tol) matches Some(r) ==> {
            &&& r.1 <= target
            &&& (r.2.len() > 0 ==> r.1 + tol >= target)
            &&& r.1 == chunk_flat(r.0).len()
            &&& chunk_flat(r.0) + stack_flat(r.2) == chunk_flat(acc) + stack_flat(stack)
            &&& all_wf(r.2)
            &&& all_wf(r.0)
        },
    decreases stack_weight(stack), stack.len(),
{
    if stack.len() > 0 {
        let b = stack.last();
        let rest = stack.drop_last();
        assert(stack =~= rest.push(b));
        lemma_stack_weight_push(rest, b);
        lemma_chunk_flat_push(acc, b);
        let cand = acc_len + flat(b).len();
        assert(wf(b));
        assert(all_wf(rest));
        if cand < target - tol {
            assert(all_wf(acc.push(b)));
            lemma_next_chunk_measure(rest, acc.push(b), cand, target, tol);
            lemma_next_chunk_props(rest, acc.push(b), cand, target, tol);
            assert((chunk_flat(acc) + flat(b)) + stack_flat(rest) =~= chunk_flat(acc) + (flat(b)
                + stack_flat(rest)));
        } else if cand > target {
            if has_call(b) && wf(b) {
                lemma_expansion_props(b, tol, 0);
                lemma_stack_weight_append(rest, expansion(b));
                lemma_stack_flat_append(rest, expansion(b));
                assert(all_wf(rest + expansion(b)));
                lemma_next_chunk_props(rest + expansion(b), acc, acc_len, target, tol);
                assert(stack_flat(rest + expansion(b)) == flat(b) + stack_flat(rest));
            }
        } else {
            assert(cand + tol >= target);
            assert((chunk_flat(acc) + flat(b)) + stack_flat(rest) =~= chunk_flat(acc) + (flat(b)
                + stack_flat(rest)));
            assert(all_wf(acc.push(b)));
        }
    }
}

/// Feasibility: on a work-list of feasible fragments the search cannot fail,
/// and everything it leaves behind is feasible again.
pub proof fn lemma_next_chunk_feasible(
    stack: Seq<BuilderV>,
    acc: Seq<BuilderV>,
    acc_len: nat,
    target: nat,
    tol: nat,
)
    requires
        tol <= target,
        acc_len + tol <= target,
        all_wf(stack),
        all_feasible(stack, tol),
    ensures
        next_chunk(stack, acc, acc_len, target, tol) is Some,
        next_chunk(stack, acc, acc_len, target, tol) matches Some(r) ==> all_wf(r.2)
            && all_feasible(r.2, tol),
    decreases stack_weight(stack), stack.len(),
{
    if stack.len() > 0 {
        let b = stack.last();
        let rest = stack.drop_last();
        assert(stack =~= rest.push(b));
        lemma_stack_weight_push(rest, b);
        let cand = acc_len + flat(b).len();
        assert(wf(b));
        assert(feasible(b, tol));
        assert(all_wf(rest));
        assert(all_feasible(rest, tol));
        if cand < target - tol {
            lemma_next_chunk_measure(rest, acc.push(b), cand, target, tol);
            lemma_next_chunk_feasible(rest, acc.push(b), cand, target, tol);
        } else if cand > target {
            assert(has_call(b)) by {
                if !has_call(b) {
                    assert(flat(b).len() <= tol);
                }
            }
            lemma_expansion_props(b, tol, 0);
            lemma_stack_weight_append(rest, expansion(b));
            assert(all_wf(rest + expansion(b)));
            assert(all_feasible(rest + expansion(b), tol));
            lemma_next_chunk_feasible(rest + expansion(b), acc, acc_len, target, tol);
        }
    }
}

/// The whole run of the chunker: the ordered sequence of (chunk, size) pairs
/// extracted until the work-list empties, or `None` on an infeasible window.
pub open spec fn chunk_sequence(stack: Seq<BuilderV>, target: nat, tol: nat) -> Option<
    Seq<(Seq<BuilderV>, nat)>,
>
    decreases stack_weight(stack), stack.len(),
    via chunk_sequence_decreases
{
    if stack.len() == 0 {
        Some(Seq::empty())
    } else {
        match next_chunk(stack, Seq::empty(), 0, target, tol) {
            None => None,
            Some(r) => match chunk_sequence(r.2, target, tol) {
                None => None,
                Some(tail) => Some(seq![(r.0, r.1)] + tail),
            },
        }
    }
}

#[via_fn]
proof fn chunk_sequence_decreases(stack: Seq<BuilderV>, target: nat, tol: nat) {
    if stack.len() > 0 {
        lemma_next_chunk_measure(stack, Seq::empty(), 0, target, tol);
    }
}

/// The instruction content of a whole chunk sequence, in order.
pub open spec fn chunks_flat(cs: Seq<(Seq<BuilderV>, nat)>) -> Seq<u8>
    decreases cs.len(),
{
    if cs.len() == 0 {
        Seq::empty()
    } else {
        chunk_flat(cs.first().0) + chunks_flat(cs.drop_first())
    }
}

/// Coverage: concatenating the emitted chunks' content, in order, reproduces
/// exactly the flattened content the work-list held — nothing is dropped,
/// duplicated, or reordered — and each recorded size is its chunk's length.
pub proof fn lemma_chunks_coverage(stack: Seq<BuilderV>, target: nat, tol: nat)
    requires
        tol <= target,
        all_wf(stack),
    ensures
        chunk_sequence(stack, target, tol) matches Some(cs) ==> chunks_flat(cs) == stack_flat(
            stack,
        ),
        chunk_sequence(stack, target, tol) matches Some(cs) ==> forall|i: int|
            0 <= i < cs.len() ==> #[trigger] cs[i].1 == chunk_flat(cs[i].0).len(),
    decreases stack_weight(stack), stack.len(),
{
    if stack.len() > 0 {
        if let Some(r) = next_chunk(stack, Seq::empty(), 0, target, tol) {
            assert(chunk_flat(Seq::<BuilderV>::empty()) =~= Seq::<u8>::empty());
            lemma_next_chunk_props(stack, Seq::empty(), 0, target, tol);
            lemma_next_chunk_measure(stack, Seq::empty(), 0, target, tol);
            lemma_chunks_coverage(r.2, target, tol);
            if let Some(tail) = chunk_sequence(r.2, target, tol) {
                let cs = seq![(r.0, r.1)] + tail;
                assert(cs.first() == (r.0, r.1));
                assert(cs.drop_first() =~= tail);
                assert(chunk_flat(r.0) + stack_flat(r.2) =~= stack_flat(stack));
                assert(chunks_flat(cs) =~= stack_flat(stack));
                assert forall|i: int| 0 <= i < cs.len() implies #[trigger] cs[i].1 == chunk_flat(
                    cs[i].0,
                ).len() by {
                    if i > 0 {
                        assert(cs[i] == tail[i - 1]);
                    }
                }
            }
        }
    }
}

/// Coverage of a whole program: chunking a work-list seeded with one program
/// reproduces exactly that program's flattened instruction content.
pub proof fn lemma_program_coverage(v: BuilderV, target: nat, tol: nat)
    requires
        tol <= target,
        wf(v),
    ensures
        chunk_sequence(seq![v], target, tol) matches Some(cs) ==> chunks_flat(cs) == flat(v),
{
    let stack = seq![v];
    assert(all_wf(stack)) by {
        assert(stack[0] == v);
    }
    lemma_chunks_coverage(stack, target, tol);
    assert(stack.drop_last() =~= Seq::<BuilderV>::empty());
    assert(stack.last() == v);
    assert(stack_flat(stack) == flat(v) + stack_flat(stack.drop_last()));
    assert(stack_flat(stack.drop_last()) =~= Seq::<u8>::empty());
    assert(flat(v) + Seq::<u8>::empty() =~= flat(v));
}

/// Window: every chunk's size is at most the target, and every chunk except
/// the last is at least `target - tol`.
pub proof fn lemma_chunks_window(stack: Seq<BuilderV>, target: nat, tol: nat)
    requires
        tol <= target,
        all_wf(stack),
    ensures
        chunk_sequence(stack, target, tol) matches Some(cs) ==> forall|i: int|
            0 <= i < cs.len() ==> #[trigger] cs[i].1 <= target && (i < cs.len() - 1 ==> cs[i].1
                + tol >= target),
    decreases stack_weight(stack), stack.len(),
{
    if stack.len() > 0 {
        if let Some(r) = next_chunk(stack, Seq::empty(), 0, target, tol) {
            assert(chunk_flat(Seq::<BuilderV>::empty()) =~= Seq::<u8>::empty());
            lemma_next_chunk_props(stack, Seq::empty(), 0, target, tol);
            lemma_next_chunk_measure(stack, Seq::empty(), 0, target, tol);
            lemma_chunks_window(r.2, target, tol);
            if let Some(tail) = chunk_sequence(r.2, target, tol) {
                let cs = seq![(r.0, r.1)] + tail;
                assert forall|i: int| 0 <= i < cs.len() implies #[trigger] cs[i].1 <= target && (i
                    < cs.len() - 1 ==> cs[i].1 + tol >= target) by {
                    if i == 0 {
                        if cs.len() > 1 {
                            assert(tail.len() > 0);
                            assert(r.2.len() > 0);
                        }
                    } else {
                        assert(cs[i] == tail[i - 1]);
                    }
                }
            }
        }
    }
}

/// Termination without failure: chunking a work-list of feasible fragments
/// always succeeds — in particular it never reports an infeasible window.
pub proof fn lemma_chunks_feasible(stack: Seq<BuilderV>, target: nat, tol: nat)
    requires
        tol <= target,
        all_wf(stack),
        all_feasible(stack, tol),
    ensures
        chunk_sequence(stack, target, tol) is Some,
    decreases stack_weight(stack), stack.len(),
{
    if stack.len() > 0 {
        lemma_next_chunk_feasible(stack, Seq::empty(), 0, target, tol);
        lemma_next_chunk_measure(stack, Seq::empty(), 0, target, tol);
        if let Some(r) = next_chunk(stack, Seq::empty(), 0, target, tol) {
            lemma_chunks_feasible(r.2, target, tol);
        }
    }
}

/// Determinism: the chunk sequence is a function of the program's view and
/// the configuration alone — equal inputs give equal chunkings.
pub proof fn lemma_chunks_deterministic(
    s1: Seq<BuilderV>,
    s2: Seq<BuilderV>,
    target: nat,
    tol: nat,
)
    requires
        s1 == s2,
    ensures
        chunk_sequence(s1, target, tol) == chunk_sequence(s2, target, tol),
{
}

/// The configured window cannot be met: a fragment grew past the target and
/// held no call that could have been expanded.
#[derive(Debug, Clone, PartialEq, Eq, Structural)]
pub struct ChunkerError;

impl ChunkerError {
    /// A human-readable description of the failure.
    pub fn message(&self) -> (r: String)
        ensures
            r@ == "Unable to chunk with set parameters"@,
    {
        String::from_str("Unable to chunk with set parameters")
    }
}

/// A produced stack-effect row is the faithful translation of some report
/// that honours the analyzer's contract; in particular its four I/O sizes
/// are non-negative.
pub open spec fn row_valid(row: (usize, usize, usize, usize, usize)) -> bool {
    exists|s: StackStatus|
        #![trigger status_valid(s)]
        status_valid(s) && row.1 == spec_stack_input(s) && row.2 == spec_stack_output(s) && row.3
            == spec_altstack_input(s) && row.4 == spec_altstack_output(s)
}

/// Failure modes of chunking combined with stack-effect analysis.
#[derive(Debug, Clone, PartialEq, Eq, Structural)]
pub enum AnalyzeError {
    /// The chunk-boundary search met an infeasible window.
    Chunking(ChunkerError),
    /// The analyzer's report broke the non-negativity contract: an
    /// internal-consistency failure, not a user-facing error.
    InvariantViolation,
}

/// Splits a program into chunks whose sizes lie in
/// `[target_chunk_size - tolerance, target_chunk_size]`, except possibly an
/// undersized final chunk.
pub struct Chunker {
    pub target_chunk_size: usize,
    pub tolerance: usize,
    pub size: usize,
    pub chunks: Vec<Vec<Rc<Builder>>>,
    pub call_stack: Vec<Rc<Builder>>,
}

impl Chunker {
    /// The views of the fragments still awaiting assignment, bottom to top.
    pub open spec fn stack(self) -> Seq<BuilderV> {
        views_of(self.call_stack@)
    }

    /// A usable chunker: a sensible window, and a well-formed work-list.
    pub open spec fn inv(self) -> bool {
        &&& 1 <= self.target_chunk_size
        &&& self.tolerance <= self.target_chunk_size
        &&& all_wf(self.stack())
    }

    /// Seeds the work-list with the whole program.
    pub fn new(builder: Builder, target_chunk_size: usize, tolerance: usize) -> (r: Chunker)
        requires
            wf(builder@),
            1 <= target_chunk_size,
            tolerance <= target_chunk_size,
        ensures
            r.inv(),
            r.target_chunk_size == target_chunk_size,
            r.tolerance == tolerance,
            r.size == flat(builder@).len(),
            r.chunks@.len() == 0,
            r.stack() == seq![builder@],
    {
        let ghost bv = builder@;
        let size = builder.len();
        let mut call_stack: Vec<Rc<Builder>> = Vec::new();
        call_stack.push(Rc::new(builder));
        let r = Chunker { target_chunk_size, tolerance, size, chunks: Vec::new(), call_stack };
        proof {
            assert(r.stack() =~= seq![bv]);
        }
        r
    }

    /// Extracts the next chunk and its exact size, leaving the not yet
    /// assigned fragments on the work-list; fails exactly when the search
    /// meets a too-large fragment with no call to expand.
    fn find_next_chunk(&mut self) -> (r: Result<(Vec<Rc<Builder>>, usize), ChunkerError>)
        requires
            old(self).inv(),
        ensures
            final(self).inv(),
            final(self).target_chunk_size == old(self).target_chunk_size,
            final(self).tolerance == old(self).tolerance,
            final(self).size == old(self).size,
            final(self).chunks == old(self).chunks,
            match r {
                Ok(p) => next_chunk(
                    old(self).stack(),
                    Seq::empty(),
                    0,
                    old(self).target_chunk_size as nat,
                    old(self).tolerance as nat,
                ) == Some((views_of(p.0@), p.1 as nat, final(self).stack())),
                Err(_) => next_chunk(
                    old(self).stack(),
                    Seq::empty(),
                    0,
                    old(self).target_chunk_size as nat,
                    old(self).tolerance as nat,
                ) is None,
            },
    {
        let ghost t = self.target_chunk_size as nat;
        let ghost tol = self.tolerance as nat;
        let ghost orig = self.stack();
        let mut result: Vec<Rc<Builder>> = Vec::new();
        let mut result_len: usize = 0;
        proof {
            assert(views_of(result@) =~= Seq::<BuilderV>::empty());
        }
        loop
            invariant
                self.inv(),
                self.target_chunk_size == old(self).target_chunk_size,
                self.tolerance == old(self).tolerance,
                self.size == old(self).size,
                self.chunks == old(self).chunks,
                t == self.target_chunk_size as nat,
                tol == self.tolerance as nat,
                orig == old(self).stack(),
                result_len <= self.target_chunk_size,
                next_chunk(orig, Seq::empty(), 0, t, tol) == next_chunk(
                    self.stack(),
                    views_of(result@),
                    result_len as nat,
                    t,
                    tol,
                ),
            decreases stack_weight(self.stack()), self.call_stack@.len(),
        {
            let ghost stack_before = self.stack();
            let ghost acc_before = views_of(result@);
            if self.call_stack.len() == 0 {
                proof {
                    assert(stack_before.len() == 0);
                }
                return Ok((result, result_len));
            }
            let builder: Rc<Builder> = match self.call_stack.pop() {
                Some(b) => b,
                None => unreached(),
            };
            let ghost bv = builder@;
            proof {
                assert(stack_before[stack_before.len() - 1] == bv);
                assert(stack_before.last() == bv);
                assert(self.stack() =~= stack_before.drop_last());
                assert(wf(bv));
                assert(all_wf(self.stack()));
            }
            let block_len = builder.len();
            let mut cand: usize = 0;
            let too_big: bool;
            match result_len.checked_add(block_len) {
                Some(c) => {
                    cand = c;
                    too_big = c > self.target_chunk_size;
                }
                None => {
                    too_big = true;
                }
            }
            let ghost spec_cand = result_len as nat + flat(bv).len();
            if !too_big && cand < self.target_chunk_size - self.tolerance {
                let ghost old_rl = result_len as nat;
                proof {
                    assert(spec_cand < t - tol);
                    assert(views_of(result@.push(builder)) =~= acc_before.push(bv));
                    assert(next_chunk(stack_before, acc_before, old_rl, t, tol) == next_chunk(
                        stack_before.drop_last(),
                        acc_before.push(bv),
                        spec_cand,
                        t,
                        tol,
                    ));
                }
                result.push(builder);
                result_len = cand;
                proof {
                    assert(next_chunk(orig, Seq::empty(), 0, t, tol) == next_chunk(
                        self.stack(),
                        views_of(result@),
                        result_len as nat,
                        t,
                        tol,
                    ));
                    assert(stack_before =~= self.stack().push(bv));
                    lemma_stack_weight_push(self.stack(), bv);
                }
            } else if too_big {
                proof {
                    assert(spec_cand > t);
                }
                if !builder.contains_call() {
                    proof {
                        assert(next_chunk(stack_before, acc_before, result_len as nat, t, tol)
                            is None);
                    }
                    return Err(ChunkerError);
                }
                let ghost rest_views = self.stack();
                let n = builder.blocks.len();
                proof {
                    assert(bv.blocks.len() == n);
                }
                let mut k: usize = n;
                proof {
                    assert(expansion_from(bv, n as int) =~= Seq::<BuilderV>::empty());
                    assert(views_of(self.call_stack@) =~= rest_views + expansion_from(
                        bv,
                        n as int,
                    ));
                }
                while k > 0
                    invariant
                        k <= n,
                        n == builder.blocks@.len(),
                        bv == builder@,
                        bv.blocks.len() == n,
                        wf(bv),
                        self.target_chunk_size == old(self).target_chunk_size,
                        self.tolerance == old(self).tolerance,
                        self.size == old(self).size,
                        self.chunks == old(self).chunks,
                        views_of(self.call_stack@) == rest_views + expansion_from(bv, k as int),
                    decreases k,
                {
                    k = k - 1;
                    let ghost stack_mid = self.call_stack@;
                    let ghost fv = fragment_of_block(bv, bv.blocks[k as int]);
                    proof {
                        assert(bv.blocks[k as int] == block_view(builder.blocks@[k as int]));
                    }
                    match &builder.blocks[k] {
                        Block::Leaf(buf) => {
                            let copy = buf.clone();
                            proof {
                                assert forall|i: int| 0 <= i < buf@.len() implies copy@[i]
                                    == buf@[i] by {
                                    assert(cloned::<u8>(buf[i], copy[i]));
                                }
                                assert(copy@ =~= buf@);
                            }
                            let mut bl: Vec<Block> = Vec::new();
                            bl.push(Block::Leaf(copy));
                            let frag = Builder { blocks: bl, script_map: Vec::new() };
                            proof {
                                assert(frag@.blocks =~= seq![BlockV::Leaf(buf@)]);
                                assert(frag@.map =~= Seq::<(u32, BuilderV)>::empty());
                                assert(frag@ == leaf_fragment(buf@));
                                assert(fragment_of_block(bv, bv.blocks[k as int]) == leaf_fragment(
                                    buf@,
                                ));
                            }
                            self.call_stack.push(Rc::new(frag));
                        }
                        Block::Call(id) => {
                            proof {
                                lemma_wf_at(bv, 0, k as int);
                            }
                            let sub = builder.resolve(*id);
                            let subrc = sub.clone();
                            proof {
                                assert(subrc@ == lookup(bv.map, *id).unwrap());
                                assert(fragment_of_block(bv, bv.blocks[k as int]) == subrc@);
                            }
                            self.call_stack.push(subrc);
                        }
                    }
                    proof {
                        assert(expansion_from(bv, k as int) == expansion_from(
                            bv,
                            k as int + 1,
                        ).push(fv));
                        assert(self.call_stack@.len() == stack_mid.len() + 1);
                        assert(builder_view(*self.call_stack@.last()) == fv);
                        assert(views_of(self.call_stack@) =~= views_of(stack_mid).push(fv));
                        assert((rest_views + expansion_from(bv, k as int + 1)).push(fv)
                            =~= rest_views + expansion_from(bv, k as int));
                        assert(views_of(self.call_stack@) == rest_views + expansion_from(
                            bv,
                            k as int,
                        ));
                    }
                }
                proof {
                    lemma_expansion_props(bv, tol, 0);
                    assert(views_of(self.call_stack@) == rest_views + expansion(bv));
                    assert forall|i: int| 0 <= i < self.stack().len() implies wf(
                        #[trigger] self.stack()[i],
                    ) by {
                        if i < rest_views.len() {
                            assert(self.stack()[i] == rest_views[i]);
                        } else {
                            assert(self.stack()[i] == expansion(bv)[i - rest_views.len()]);
                        }
                    }
                    assert(next_chunk(stack_before, acc_before, result_len as nat, t, tol)
                        == next_chunk(self.stack(), acc_before, result_len as nat, t, tol));
                    assert(stack_before =~= rest_views.push(bv));
                    lemma_stack_weight_push(rest_views, bv);
                    lemma_stack_weight_append(rest_views, expansion(bv));
                    assert(stack_weight(expansion(bv)) < weight_from(bv, 0));
                    assert(weight(bv) == weight_from(bv, 0));
                    assert(stack_weight(self.stack()) < stack_weight(stack_before));
                }
            } else {
                let ghost old_rl = result_len as nat;
                proof {
                    assert(t - tol <= spec_cand <= t);
                    assert(views_of(result@.push(builder)) =~= acc_before.push(bv));
                    assert(next_chunk(stack_before, acc_before, old_rl, t, tol) == Some(
                        (acc_before.push(bv), spec_cand, stack_before.drop_last()),
                    ));
                }
                result.push(builder);
                result_len = cand;
                proof {
                    assert(next_chunk(orig, Seq::empty(), 0, t, tol) == Some(
                        (views_of(result@), result_len as nat, self.stack()),
                    ));
                }
                return Ok((result, result_len));
            }
        }
    }

    /// Splits the whole program into chunks, retaining each chunk's fragments
    /// in `chunks` and returning the chunk sizes in program order; fails
    /// exactly when some chunk boundary cannot be met (see `ChunkerError`).
    pub fn find_chunks(&mut self) -> (r: Result<Vec<usize>, ChunkerError>)
        requires
            old(self).inv(),
        ensures
            final(self).inv(),
            final(self).target_chunk_size == old(self).target_chunk_size,
            final(self).tolerance == old(self).tolerance,
            final(self).size == old(self).size,
            match r {
                Ok(sizes) => {
                    let cs = chunk_sequence(
                        old(self).stack(),
                        old(self).target_chunk_size as nat,
                        old(self).tolerance as nat,
                    );
                    &&& cs matches Some(pairs)
                    &&& sizes@.len() == cs.unwrap().len()
                    &&& final(self).chunks@.len() == old(self).chunks@.len() + cs.unwrap().len()
                    &&& final(self).call_stack@.len() == 0
                    &&& forall|i: int|
                        0 <= i < old(self).chunks@.len() ==> final(self).chunks@[i] == old(
                            self,
                        ).chunks@[i]
                    &&& forall|i: int|
                        #![all_triggers]
                        0 <= i < cs.unwrap().len() ==> sizes@[i] as nat == cs.unwrap()[i].1
                            && views_of(
                            final(self).chunks@[old(self).chunks@.len() + i]@,
                        ) == cs.unwrap()[i].0
                },
                Err(_) => chunk_sequence(
                    old(self).stack(),
                    old(self).target_chunk_size as nat,
                    old(self).tolerance as nat,
                ) is None,
            },
    {
        let ghost t = self.target_chunk_size as nat;
        let ghost tol = self.tolerance as nat;
        let ghost orig = self.stack();
        let ghost base = self.chunks@.len();
        let mut sizes: Vec<usize> = Vec::new();
        let ghost collected = Seq::<(Seq<BuilderV>, nat)>::empty();
        while self.call_stack.len() > 0
            invariant
                self.inv(),
                self.target_chunk_size == old(self).target_chunk_size,
                self.tolerance == old(self).tolerance,
                self.size == old(self).size,
                t == self.target_chunk_size as nat,
                tol == self.tolerance as nat,
                orig == old(self).stack(),
                base == old(self).chunks@.len(),
                self.chunks@.len() == base + collected.len(),
                sizes@.len() == collected.len(),
                forall|i: int|
                    0 <= i < base ==> self.chunks@[i] == old(self).chunks@[i],
                forall|i: int|
                    #![all_triggers]
                    0 <= i < collected.len() ==> sizes@[i] as nat == collected[i].1 && views_of(
                        self.chunks@[base + i]@,
                    ) == collected[i].0,
                chunk_sequence(self.stack(), t, tol) matches Some(tail) ==> chunk_sequence(
                    orig,
                    t,
                    tol,
                ) == Some(collected + tail),
                chunk_sequence(self.stack(), t, tol) is None ==> chunk_sequence(orig, t, tol)
                    is None,
            decreases stack_weight(self.stack()), self.call_stack@.len(),
        {
            let ghost entry_stack = self.stack();
            proof {
                lemma_next_chunk_measure(entry_stack, Seq::empty(), 0, t, tol);
            }
            match self.find_next_chunk() {
                Ok(p) => {
                    let (chunk, size) = p;
                    let ghost cv = views_of(chunk@);
                    proof {
                        assert(chunk_sequence(entry_stack, t, tol) == (match chunk_sequence(
                            self.stack(),
                            t,
                            tol,
                        ) {
                            None => None::<Seq<(Seq<BuilderV>, nat)>>,
                            Some(tail) => Some(seq![(cv, size as nat)] + tail),
                        }));
                    }
                    self.chunks.push(chunk);
                    sizes.push(size);
                    proof {
                        if let Some(tail) = chunk_sequence(self.stack(), t, tol) {
                            assert(collected + (seq![(cv, size as nat)] + tail) =~= (
                            collected.push((cv, size as nat))) + tail);
                        }
                        collected = collected.push((cv, size as nat));
                    }
                }
                Err(e) => {
                    return Err(e);
                }
            }
        }
        proof {
            assert(self.stack().len() == 0);
            assert(chunk_sequence(self.stack(), t, tol) == Some(
                Seq::<(Seq<BuilderV>, nat)>::empty(),
            ));
            assert(collected + Seq::<(Seq<BuilderV>, nat)>::empty() =~= collected);
        }
        Ok(sizes)
    }

    /// Splits the whole program into chunks and, for each chunk in order,
    /// reports `(chunk_size, stack_input, stack_output, altstack_input,
    /// altstack_output)`, the last four derived from the analyzer's report
    /// under the non-negativity contract.
    pub fn find_chunks_and_analyze_stack<A: StackAnalyzer>(&mut self, analyzer: &mut A) -> (r:
        Result<Vec<(usize, usize, usize, usize, usize)>, AnalyzeError>)
        requires
            old(self).inv(),
        ensures
            final(self).inv(),
            final(self).target_chunk_size == old(self).target_chunk_size,
            final(self).tolerance == old(self).tolerance,
            final(self).size == old(self).size,
            match r {
                Ok(rows) => {
                    let cs = chunk_sequence(
                        old(self).stack(),
                        old(self).target_chunk_size as nat,
                        old(self).tolerance as nat,
                    );
                    &&& cs matches Some(pairs)
                    &&& rows@.len() == cs.unwrap().len()
                    &&& forall|i: int|
                        #![all_triggers]
                        0 <= i < cs.unwrap().len() ==> rows@[i].0 as nat == cs.unwrap()[i].1
                    &&& forall|i: int| 0 <= i < rows@.len() ==> row_valid(#[trigger] rows@[i])
                },
                Err(e) => match e {
                    AnalyzeError::Chunking(_) => chunk_sequence(
                        old(self).stack(),
                        old(self).target_chunk_size as nat,
                        old(self).tolerance as nat,
                    ) is None,
                    AnalyzeError::InvariantViolation => chunk_sequence(
                        old(self).stack(),
                        old(self).target_chunk_size as nat,
                        old(self).tolerance as nat,
                    ) is Some,
                },
            },
    {
        let ghost t = self.target_chunk_size as nat;
        let ghost tol = self.tolerance as nat;
        let ghost orig = self.stack();
        let mut chunks: Vec<(Vec<Rc<Builder>>, usize)> = Vec::new();
        let ghost collected = Seq::<(Seq<BuilderV>, nat)>::empty();
        while self.call_stack.len() > 0
            invariant
                self.inv(),
                self.target_chunk_size == old(self).target_chunk_size,
                self.tolerance == old(self).tolerance,
                self.size == old(self).size,
                self.chunks == old(self).chunks,
                t == self.target_chunk_size as nat,
                tol == self.tolerance as nat,
                orig == old(self).stack(),
                chunks@.len() == collected.len(),
                forall|i: int|
                    #![all_triggers]
                    0 <= i < collected.len() ==> chunks@[i].1 as nat == collected[i].1
                        && views_of(chunks@[i].0@) == collected[i].0,
                chunk_sequence(self.stack(), t, tol) matches Some(tail) ==> chunk_sequence(
                    orig,
                    t,
                    tol,
                ) == Some(collected + tail),
                chunk_sequence(self.stack(), t, tol) is None ==> chunk_sequence(orig, t, tol)
                    is None,
            decreases stack_weight(self.stack()), self.call_stack@.len(),
        {
            let ghost entry_stack = self.stack();
            proof {
                lemma_next_chunk_measure(entry_stack, Seq::empty(), 0, t, tol);
            }
            match self.find_next_chunk() {
                Ok(p) => {
                    let ghost cv = views_of(p.0@);
                    let ghost size = p.1 as nat;
                    proof {
                        assert(chunk_sequence(entry_stack, t, tol) == (match chunk_sequence(
                            self.stack(),
                            t,
                            tol,
                        ) {
                            None => None::<Seq<(Seq<BuilderV>, nat)>>,
                            Some(tail) => Some(seq![(cv, size)] + tail),
                        }));
                    }
                    let ghost pv = p;
                    chunks.push(p);
                    proof {
                        assert(chunks@.last() == pv);
                        assert(views_of(pv.0@) == cv);
                        if let Some(tail) = chunk_sequence(self.stack(), t, tol) {
                            assert(collected + (seq![(cv, size)] + tail) =~= (collected.push(
                                (cv, size),
                            )) + tail);
                        }
                        collected = collected.push((cv, size));
                    }
                }
                Err(e) => {
                    return Err(AnalyzeError::Chunking(e));
                }
            }
        }
        proof {
            assert(self.stack().len() == 0);
            assert(chunk_sequence(self.stack(), t, tol) == Some(
                Seq::<(Seq<BuilderV>, nat)>::empty(),
            ));
            assert(collected + Seq::<(Seq<BuilderV>, nat)>::empty() =~= collected);
        }
        let mut result: Vec<(usize, usize, usize, usize, usize)> = Vec::new();
        let n = chunks.len();
        let mut j: usize = 0;
        while j < n
            invariant
                self.inv(),
                self.target_chunk_size == old(self).target_chunk_size,
                self.tolerance == old(self).tolerance,
                self.size == old(self).size,
                self.chunks == old(self).chunks,
                t == self.target_chunk_size as nat,
                tol == self.tolerance as nat,
                orig == old(self).stack(),
                j <= n,
                n == chunks@.len(),
                result@.len() == j,
                chunk_sequence(orig, t, tol) == Some(collected),
                collected.len() == n,
                forall|i: int|
                    #![all_triggers]
                    0 <= i < collected.len() ==> chunks@[i].1 as nat == collected[i].1,
                forall|i: int|
                    #![all_triggers]
                    0 <= i < j ==> result@[i].0 as nat == collected[i].1,
                forall|i: int| 0 <= i < j ==> row_valid(#[trigger] result@[i]),
            decreases n - j,
        {
            let status = analyzer.analyze_blocks(&chunks[j].0);
            match stack_io_sizes(&status) {
                Some(io) => {
                    result.push((chunks[j].1, io.0, io.1, io.2, io.3));
                    proof {
                        assert(status_valid(status));
                        assert(result@.last() == (chunks@[j as int].1, io.0, io.1, io.2, io.3));
                        assert(row_valid(result@[j as int]));
                    }
                }
                None => {
                    return Err(AnalyzeError::InvariantViolation);
                }
            }
            j = j + 1;
        }
        Ok(result)
    }
}

} // verus!
