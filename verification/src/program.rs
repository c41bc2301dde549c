//! The program model: blocks, program fragments ("builders"), and the ghost
//! functions over them that the chunker's contracts are stated with.
use std::rc::Rc;
use vstd::prelude::*;

verus! {

/// One block of a program: an atomic, indivisible instruction buffer, or a
/// call to a named sub-program that can be resolved and unfolded further.
pub enum Block {
    Leaf(Vec<u8>),
    Call(u32),
}

/// A program fragment: an ordered sequence of blocks together with a
/// resolution table mapping call ids to shared, immutable sub-program bodies.
pub struct Builder {
    pub blocks: Vec<Block>,
    pub script_map: Vec<(u32, Rc<Builder>)>,
}

/// Ghost counterpart of `Block`.
pub enum BlockV {
    Leaf(Seq<u8>),
    Call(u32),
}

/// Ghost counterpart of `Builder`.
pub struct BuilderV {
    pub blocks: Seq<BlockV>,
    pub map: Seq<(u32, BuilderV)>,
}

pub open spec fn block_view(blk: Block) -> BlockV {
    match blk {
        Block::Leaf(buf) => BlockV::Leaf(buf@),
        Block::Call(id) => BlockV::Call(id),
    }
}

pub open spec fn builder_view(b: Builder) -> BuilderV
    decreases b, b.script_map@.len() + 1int,
{
    BuilderV {
        blocks: Seq::new(b.blocks@.len(), |i: int| block_view(b.blocks@[i])),
        map: builder_view_entries(b, 0),
    }
}

/// The views of the resolution-table entries from index `k` on.
pub open spec fn builder_view_entries(b: Builder, k: int) -> Seq<(u32, BuilderV)>
    decreases b, b.script_map@.len() - k,
    via builder_view_entries_decreases
{
    if k < 0 || k >= b.script_map@.len() {
        Seq::empty()
    } else {
        seq![(b.script_map@[k].0, builder_view(*b.script_map@[k].1))]
            + builder_view_entries(b, k + 1)
    }
}

#[via_fn]
proof fn builder_view_entries_decreases(b: Builder, k: int) {
    if 0 <= k < b.script_map@.len() {
        assert(decreases_to!(b => b.script_map));
        assert(decreases_to!(b.script_map => b.script_map[k]));
        assert(decreases_to!(b.script_map[k] => b.script_map[k].1));
        assert(decreases_to!(b => *b.script_map[k].1));
    }
}

impl View for Builder {
    type V = BuilderV;

    open spec fn view(&self) -> BuilderV {
        builder_view(*self)
    }
}

/// First matching entry of a resolution table.
pub open spec fn lookup(m: Seq<(u32, BuilderV)>, id: u32) -> Option<BuilderV>
    decreases m.len(),
{
    if m.len() == 0 {
        None
    } else if m[0].0 == id {
        Some(m[0].1)
    } else {
        lookup(m.drop_first(), id)
    }
}

/// A successful lookup returns the body stored at some index of the table.
pub proof fn lemma_lookup_index(m: Seq<(u32, BuilderV)>, id: u32)
    requires
        lookup(m, id) is Some,
    ensures
        exists|i: int|
            0 <= i < m.len() && m[i].0 == id && m[i].1 == lookup(m, id).unwrap(),
    decreases m.len(),
{
    if m.len() > 0 && m[0].0 != id {
        lemma_lookup_index(m.drop_first(), id);
        let i = choose|i: int|
            0 <= i < m.drop_first().len() && m.drop_first()[i].0 == id
                && m.drop_first()[i].1 == lookup(m.drop_first(), id).unwrap();
        assert(m[i + 1] == m.drop_first()[i]);
    }
}

/// A resolved sub-program body sits inside the resolution table, so it is
/// structurally smaller than the fragment that refers to it.
pub proof fn lemma_sub_decreases(v: BuilderV, id: u32)
    requires
        lookup(v.map, id) is Some,
    ensures
        decreases_to!(v => lookup(v.map, id).unwrap()),
{
    lemma_lookup_index(v.map, id);
    let i = choose|i: int|
        0 <= i < v.map.len() && v.map[i].0 == id && v.map[i].1 == lookup(v.map, id).unwrap();
    assert(decreases_to!(v => v.map));
    assert(decreases_to!(v.map => v.map[i]));
    assert(decreases_to!(v.map[i] => v.map[i].1));
    assert(decreases_to!(v => lookup(v.map, id).unwrap()));
}

/// The instruction content a single block contributes: a leaf contributes its
/// buffer, a call contributes the flattened content of the resolved body.
pub open spec fn block_flat(v: BuilderV, blk: BlockV) -> Seq<u8>
    decreases v, 0int, 0int,
    via block_flat_decreases
{
    match blk {
        BlockV::Leaf(buf) => buf,
        BlockV::Call(id) => if lookup(v.map, id) is Some {
            flat(lookup(v.map, id).unwrap())
        } else {
            Seq::empty()
        },
    }
}

#[via_fn]
proof fn block_flat_decreases(v: BuilderV, blk: BlockV) {
    if let BlockV::Call(id) = blk {
        if lookup(v.map, id) is Some {
            lemma_sub_decreases(v, id);
        }
    }
}

/// Flattened instruction content of blocks `k..` of `v`.
pub open spec fn flat_from(v: BuilderV, k: int) -> Seq<u8>
    decreases v, v.blocks.len() - k, 1int,
{
    if k < 0 || k >= v.blocks.len() {
        Seq::empty()
    } else {
        block_flat(v, v.blocks[k]) + flat_from(v, k + 1)
    }
}

/// Flattened instruction content of a whole fragment: the exact leaf bytes it
/// stands for, in program order, with every call resolved.
pub open spec fn flat(v: BuilderV) -> Seq<u8>
    decreases v, v.blocks.len() + 1int, 0int,
{
    flat_from(v, 0)
}

/// Structural weight a single block contributes; calls weigh one more than
/// their resolved body, so an expansion strictly sheds weight.
pub open spec fn block_weight(v: BuilderV, blk: BlockV) -> nat
    decreases v, 0int, 0int,
    via block_weight_decreases
{
    match blk {
        BlockV::Leaf(_) => 1,
        BlockV::Call(id) => if lookup(v.map, id) is Some {
            1 + weight(lookup(v.map, id).unwrap())
        } else {
            1
        },
    }
}

#[via_fn]
proof fn block_weight_decreases(v: BuilderV, blk: BlockV) {
    if let BlockV::Call(id) = blk {
        if lookup(v.map, id) is Some {
            lemma_sub_decreases(v, id);
        }
    }
}

/// Structural weight of blocks `k..` of `v`.
pub open spec fn weight_from(v: BuilderV, k: int) -> nat
    decreases v, v.blocks.len() - k, 1int,
{
    if k < 0 || k >= v.blocks.len() {
        0
    } else {
        block_weight(v, v.blocks[k]) + weight_from(v, k + 1)
    }
}

/// Structural weight of a fragment: the termination measure of chunking.
pub open spec fn weight(v: BuilderV) -> nat
    decreases v, v.blocks.len() + 1int, 0int,
{
    weight_from(v, 0)
}

/// Well-formedness of a single block: a call must resolve to a well-formed body.
pub open spec fn block_wf(v: BuilderV, blk: BlockV) -> bool
    decreases v, 0int, 0int,
    via block_wf_decreases
{
    match blk {
        BlockV::Leaf(_) => true,
        BlockV::Call(id) => lookup(v.map, id) is Some && wf(lookup(v.map, id).unwrap()),
    }
}

#[via_fn]
proof fn block_wf_decreases(v: BuilderV, blk: BlockV) {
    if let BlockV::Call(id) = blk {
        if lookup(v.map, id) is Some {
            lemma_sub_decreases(v, id);
        }
    }
}

pub open spec fn wf_from(v: BuilderV, k: int) -> bool
    decreases v, v.blocks.len() - k, 1int,
{
    if k < 0 || k >= v.blocks.len() {
        true
    } else {
        block_wf(v, v.blocks[k]) && wf_from(v, k + 1)
    }
}

/// A well-formed fragment: every call resolves (recursively) and its total
/// length fits the machine's size type.
pub open spec fn wf(v: BuilderV) -> bool
    decreases v, v.blocks.len() + 1int, 0int,
{
    flat(v).len() <= usize::MAX && wf_from(v, 0)
}

/// Feasibility of a single block for a given tolerance: leaves must fit the
/// tolerance and called bodies must be feasible in turn.
pub open spec fn block_feasible(v: BuilderV, blk: BlockV, tol: nat) -> bool
    decreases v, 0int, 0int,
    via block_feasible_decreases
{
    match blk {
        BlockV::Leaf(buf) => buf.len() <= tol,
        BlockV::Call(id) => lookup(v.map, id) is Some && feasible(
            lookup(v.map, id).unwrap(),
            tol,
        ),
    }
}

#[via_fn]
proof fn block_feasible_decreases(v: BuilderV, blk: BlockV, tol: nat) {
    if let BlockV::Call(id) = blk {
        if lookup(v.map, id) is Some {
            lemma_sub_decreases(v, id);
        }
    }
}

pub open spec fn feasible_from(v: BuilderV, tol: nat, k: int) -> bool
    decreases v, v.blocks.len() - k, 1int,
{
    if k < 0 || k >= v.blocks.len() {
        true
    } else {
        block_feasible(v, v.blocks[k], tol) && feasible_from(v, tol, k + 1)
    }
}

/// A fragment on which chunking can never fail for the window
/// `[target - tol, target]`: the fragment either fits below the tolerance or
/// can be expanded, and the same holds of everything an expansion produces.
pub open spec fn feasible(v: BuilderV, tol: nat) -> bool
    decreases v, v.blocks.len() + 1int, 0int,
{
    (flat(v).len() <= tol || has_call(v)) && feasible_from(v, tol, 0)
}

/// Whether a fragment has a call among its own (top-level) blocks.
pub open spec fn has_call(v: BuilderV) -> bool {
    exists|i: int| 0 <= i < v.blocks.len() && v.blocks[i] is Call
}

/// The fragment that wraps a single leaf buffer.
pub open spec fn leaf_fragment(buf: Seq<u8>) -> BuilderV {
    BuilderV { blocks: seq![BlockV::Leaf(buf)], map: Seq::empty() }
}

/// The work-list fragment a single block is replaced by during an expansion.
pub open spec fn fragment_of_block(v: BuilderV, blk: BlockV) -> BuilderV {
    match blk {
        BlockV::Leaf(buf) => leaf_fragment(buf),
        BlockV::Call(id) => lookup(v.map, id).unwrap(),
    }
}

/// Replacement fragments for blocks `k..` of `v`, in work-list order: pushing
/// in reverse block order leaves the fragment of block `k` on top (at the end).
pub open spec fn expansion_from(v: BuilderV, k: int) -> Seq<BuilderV>
    decreases v.blocks.len() - k,
{
    if k < 0 || k >= v.blocks.len() {
        Seq::empty()
    } else {
        expansion_from(v, k + 1).push(fragment_of_block(v, v.blocks[k]))
    }
}

/// What an expansion pushes onto the work-list in place of the fragment `v`.
pub open spec fn expansion(v: BuilderV) -> Seq<BuilderV> {
    expansion_from(v, 0)
}

/// Well-formedness of the whole fragment gives well-formedness of each block.
pub proof fn lemma_wf_at(v: BuilderV, j: int, k: int)
    requires
        wf_from(v, j),
        0 <= j <= k < v.blocks.len(),
    ensures
        block_wf(v, v.blocks[k]),
    decreases k - j,
{
    if j < k {
        lemma_wf_at(v, j + 1, k);
    }
}

/// Dropping leading blocks never lengthens the flattened content.
pub proof fn lemma_flat_from_mono(v: BuilderV, j: int, k: int)
    requires
        0 <= j <= k,
    ensures
        flat_from(v, k).len() <= flat_from(v, j).len(),
    decreases k - j,
{
    if j < k {
        lemma_flat_from_mono(v, j + 1, k);
    }
}

/// Everything the model says about the fragment wrapping a single leaf buffer.
pub proof fn lemma_leaf_fragment(buf: Seq<u8>, tol: nat)
    ensures
        flat(leaf_fragment(buf)) == buf,
        weight(leaf_fragment(buf)) == 1,
        !has_call(leaf_fragment(buf)),
        buf.len() <= usize::MAX ==> wf(leaf_fragment(buf)),
        buf.len() <= tol ==> feasible(leaf_fragment(buf), tol),
{
    let lf = leaf_fragment(buf);
    assert(flat_from(lf, 1) =~= Seq::<u8>::empty());
    assert(flat(lf) =~= buf);
    assert(weight_from(lf, 1) == 0);
    assert(wf_from(lf, 1));
    assert(feasible_from(lf, tol, 1));
}

/// `lookup` returns the first entry whose id matches.
pub proof fn lemma_lookup_first_match(m: Seq<(u32, BuilderV)>, id: u32, j: int)
    requires
        0 <= j < m.len(),
        m[j].0 == id,
        forall|k: int| 0 <= k < j ==> m[k].0 != id,
    ensures
        lookup(m, id) == Some(m[j].1),
    decreases j,
{
    if j > 0 {
        lemma_lookup_first_match(m.drop_first(), id, j - 1);
    }
}

/// With no matching entry, `lookup` finds nothing.
pub proof fn lemma_lookup_none(m: Seq<(u32, BuilderV)>, id: u32)
    requires
        forall|k: int| 0 <= k < m.len() ==> m[k].0 != id,
    ensures
        lookup(m, id) is None,
    decreases m.len(),
{
    if m.len() > 0 {
        lemma_lookup_none(m.drop_first(), id);
    }
}

/// Appending an entry leaves every successful lookup unchanged: resolution
/// takes the first match.
pub proof fn lemma_lookup_push(m: Seq<(u32, BuilderV)>, e: (u32, BuilderV), id: u32)
    requires
        lookup(m, id) is Some,
    ensures
        lookup(m.push(e), id) == lookup(m, id),
    decreases m.len(),
{
    assert(m.push(e)[0] == m[0]);
    if m[0].0 != id {
        lemma_lookup_push(m.drop_first(), e, id);
        assert(m.push(e).drop_first() =~= m.drop_first().push(e));
    }
}

/// An id that resolved to nothing resolves to a newly appended entry.
pub proof fn lemma_lookup_push_fresh(m: Seq<(u32, BuilderV)>, e: (u32, BuilderV))
    requires
        lookup(m, e.0) is None,
    ensures
        lookup(m.push(e), e.0) == Some(e.1),
    decreases m.len(),
{
    if m.len() > 0 {
        assert(m.push(e)[0] == m[0]);
        lemma_lookup_push_fresh(m.drop_first(), e);
        assert(m.push(e).drop_first() =~= m.drop_first().push(e));
    } else {
        assert(m.push(e)[0] == e);
    }
}

/// Extending the resolution table of a well-formed fragment changes neither
/// its content nor its well-formedness: every call already resolved, and it
/// still resolves to the same body.
pub proof fn lemma_extend_map_from(v1: BuilderV, v2: BuilderV, e: (u32, BuilderV), k: int)
    requires
        v2.blocks == v1.blocks,
        v2.map == v1.map.push(e),
        wf_from(v1, k),
        0 <= k <= v1.blocks.len(),
    ensures
        flat_from(v2, k) == flat_from(v1, k),
        wf_from(v2, k),
    decreases v1.blocks.len() - k,
{
    if k < v1.blocks.len() {
        lemma_extend_map_from(v1, v2, e, k + 1);
        let blk = v1.blocks[k];
        assert(block_wf(v1, blk));
        if let BlockV::Call(id2) = blk {
            lemma_lookup_push(v1.map, e, id2);
        }
        assert(block_flat(v2, blk) == block_flat(v1, blk));
        assert(block_wf(v2, blk));
    }
}

/// Appending one block to a fragment appends that block's content and asks
/// exactly that block's well-formedness in addition, the table being equal.
pub proof fn lemma_push_block_from(v1: BuilderV, v2: BuilderV, blk: BlockV, k: int)
    requires
        v2.map == v1.map,
        v2.blocks == v1.blocks.push(blk),
        0 <= k <= v1.blocks.len(),
    ensures
        flat_from(v2, k) == flat_from(v1, k) + block_flat(v1, blk),
        wf_from(v2, k) == (wf_from(v1, k) && block_wf(v1, blk)),
    decreases v1.blocks.len() - k,
{
    let n = v1.blocks.len() as int;
    if k == n {
        assert(v2.blocks[n] == blk);
        assert(flat_from(v2, n + 1) =~= Seq::<u8>::empty());
        assert(block_flat(v2, blk) == block_flat(v1, blk));
        assert(block_wf(v2, blk) == block_wf(v1, blk));
        assert(block_flat(v1, blk) + Seq::<u8>::empty() =~= block_flat(v1, blk));
        assert(Seq::<u8>::empty() + block_flat(v1, blk) =~= block_flat(v1, blk));
        assert(wf_from(v2, n + 1));
        assert(wf_from(v1, n));
        assert(wf_from(v2, n) == (wf_from(v1, n) && block_wf(v1, blk)));
    } else {
        lemma_push_block_from(v1, v2, blk, k + 1);
        assert(v2.blocks[k] == v1.blocks[k]);
        assert(block_flat(v2, v1.blocks[k]) == block_flat(v1, v1.blocks[k]));
        assert(block_wf(v2, v1.blocks[k]) == block_wf(v1, v1.blocks[k]));
        assert(block_flat(v1, v1.blocks[k]) + (flat_from(v1, k + 1) + block_flat(v1, blk)) =~= (
        block_flat(v1, v1.blocks[k]) + flat_from(v1, k + 1)) + block_flat(v1, blk));
    }
}

/// How the view of the resolution table projects onto its entries.
pub proof fn lemma_view_entries(b: Builder, k: int)
    requires
        0 <= k <= b.script_map@.len(),
    ensures
        builder_view_entries(b, k).len() == b.script_map@.len() - k,
        forall|i: int|
            k <= i < b.script_map@.len() ==> builder_view_entries(b, k)[i - k] == (
            b.script_map@[i].0,
            builder_view(*b.script_map@[i].1),
            ),
    decreases b.script_map@.len() - k,
{
    if k < b.script_map@.len() {
        lemma_view_entries(b, k + 1);
    }
}

/// The view of a builder's resolution table, entry by entry.
pub proof fn lemma_view_map(b: Builder)
    ensures
        b@.map.len() == b.script_map@.len(),
        forall|i: int|
            0 <= i < b.script_map@.len() ==> b@.map[i] == (
            b.script_map@[i].0,
            builder_view(*b.script_map@[i].1),
            ),
{
    lemma_view_entries(b, 0);
}

/// Builders with equal resolution tables have equal table views.
pub proof fn lemma_view_same_map(b1: Builder, b2: Builder)
    requires
        b1.script_map == b2.script_map,
    ensures
        b1@.map == b2@.map,
{
    lemma_view_map(b1);
    lemma_view_map(b2);
    assert(b1@.map =~= b2@.map);
}

impl Builder {
    /// The empty program fragment.
    pub fn new() -> (r: Builder)
        ensures
            r@ == (BuilderV { blocks: Seq::<BlockV>::empty(), map: Seq::<(u32, BuilderV)>::empty() }),
            wf(r@),
            flat(r@) == Seq::<u8>::empty(),
    {
        let r = Builder { blocks: Vec::new(), script_map: Vec::new() };
        proof {
            assert(r@.blocks =~= Seq::<BlockV>::empty());
            assert(r@.map =~= Seq::<(u32, BuilderV)>::empty());
            assert(flat(r@) =~= Seq::<u8>::empty());
        }
        r
    }

    /// Appends an atomic instruction buffer.
    pub fn push_script(self, script: Vec<u8>) -> (r: Builder)
        ensures
            r@.blocks == self@.blocks.push(BlockV::Leaf(script@)),
            r@.map == self@.map,
            flat(r@) == flat(self@) + script@,
            wf(self@) && flat(self@).len() + script@.len() <= usize::MAX ==> wf(r@),
    {
        let ghost old_self = self;
        let ghost s = script@;
        let script_len = script.len();
        let mut blocks = self.blocks;
        blocks.push(Block::Leaf(script));
        let r = Builder { blocks, script_map: self.script_map };
        proof {
            assert(r@.blocks =~= old_self@.blocks.push(BlockV::Leaf(s)));
            lemma_view_same_map(old_self, r);
            lemma_push_block_from(old_self@, r@, BlockV::Leaf(s), 0);
            assert(block_flat(old_self@, BlockV::Leaf(s)) == s);
            assert(block_wf(old_self@, BlockV::Leaf(s)));
        }
        r
    }

    /// Appends a call block and registers the callee's body under `id`. For a
    /// well-formed fragment and a fresh id this appends the body's content and
    /// preserves well-formedness.
    pub fn push_call(self, id: u32, body: Builder) -> (r: Builder)
        ensures
            r@.blocks == self@.blocks.push(BlockV::Call(id)),
            r@.map == self@.map.push((id, body@)),
            wf(self@) && lookup(self@.map, id) is None ==> flat(r@) == flat(self@) + flat(
                body@,
            ),
            wf(self@) && wf(body@) && lookup(self@.map, id) is None && flat(self@).len() + flat(
                body@,
            ).len() <= usize::MAX ==> wf(r@),
    {
        let ghost old_self = self;
        let ghost bodyv = body@;
        let mut blocks = self.blocks;
        blocks.push(Block::Call(id));
        let mut script_map = self.script_map;
        script_map.push((id, Rc::new(body)));
        let r = Builder { blocks, script_map };
        proof {
            assert(r@.blocks =~= old_self@.blocks.push(BlockV::Call(id)));
            lemma_view_map(old_self);
            lemma_view_map(r);
            assert(r@.map =~= old_self@.map.push((id, bodyv)));
            if wf(old_self@) && lookup(old_self@.map, id) is None {
                let e = (id, bodyv);
                let ghost mid = BuilderV { blocks: old_self@.blocks, map: r@.map };
                lemma_extend_map_from(old_self@, mid, e, 0);
                lemma_push_block_from(mid, r@, BlockV::Call(id), 0);
                lemma_lookup_push_fresh(old_self@.map, e);
                assert(block_flat(mid, BlockV::Call(id)) == flat(bodyv));
                assert(flat(r@) == flat(old_self@) + flat(bodyv));
                if wf(bodyv) && flat(old_self@).len() + flat(bodyv).len() <= usize::MAX {
                    assert(block_wf(mid, BlockV::Call(id)));
                    assert(wf(r@));
                }
            }
        }
        r
    }

    /// Resolves a call id to the shared body registered for it.
    pub(crate) fn resolve(&self, id: u32) -> (r: &Rc<Builder>)
        requires
            lookup(self@.map, id) is Some,
        ensures
            builder_view(**r) == lookup(self@.map, id).unwrap(),
            exists|i: int|
                0 <= i < self.script_map@.len() && **r == *self.script_map@[i].1,
    {
        proof {
            lemma_view_map(*self);
        }
        let n = self.script_map.len();
        let mut j: usize = 0;
        while j < n
            invariant
                n == self.script_map@.len(),
                j <= n,
                lookup(self@.map, id) is Some,
                self@.map.len() == n,
                forall|i: int|
                    0 <= i < n ==> self@.map[i] == (
                    self.script_map@[i].0,
                    builder_view(*self.script_map@[i].1),
                    ),
                forall|k: int| 0 <= k < j ==> self@.map[k].0 != id,
            decreases n - j,
        {
            if self.script_map[j].0 == id {
                proof {
                    lemma_lookup_first_match(self@.map, id, j as int);
                }
                return &self.script_map[j].1;
            }
            j = j + 1;
        }
        proof {
            lemma_lookup_none(self@.map, id);
        }
        unreached()
    }

    /// Whether this fragment has a call among its own blocks.
    pub fn contains_call(&self) -> (r: bool)
        ensures
            r == has_call(self@),
    {
        let n = self.blocks.len();
        let mut j: usize = 0;
        while j < n
            invariant
                n == self.blocks@.len(),
                j <= n,
                self@.blocks.len() == n,
                forall|i: int| 0 <= i < n ==> self@.blocks[i] == block_view(self.blocks@[i]),
                forall|k: int| 0 <= k < j ==> !(self@.blocks[k] is Call),
            decreases n - j,
        {
            if let Block::Call(_) = &self.blocks[j] {
                assert(self@.blocks[j as int] is Call);
                return true;
            }
            j = j + 1;
        }
        false
    }

    /// The total length of this fragment: the sum of its leaves' lengths with
    /// every call resolved.
    pub fn len(&self) -> (r: usize)
        requires
            wf(self@),
        ensures
            r == flat(self@).len(),
        decreases *self,
    {
        let mut total: usize = 0;
        let mut i: usize = self.blocks.len();
        proof {
            assert(flat_from(self@, i as int) =~= Seq::<u8>::empty());
        }
        while i > 0
            invariant
                wf(self@),
                i <= self.blocks@.len(),
                self@.blocks.len() == self.blocks@.len(),
                forall|k: int|
                    0 <= k < self.blocks@.len() ==> self@.blocks[k] == block_view(
                        self.blocks@[k],
                    ),
                total == flat_from(self@, i as int).len(),
            decreases i,
        {
            i = i - 1;
            proof {
                lemma_flat_from_mono(self@, 0, i as int);
                assert(flat_from(self@, i as int) == block_flat(self@, self@.blocks[i as int])
                    + flat_from(self@, i as int + 1));
                assert(flat_from(self@, i as int).len() <= flat(self@).len());
            }
            match &self.blocks[i] {
                Block::Leaf(buf) => {
                    total = total + buf.len();
                }
                Block::Call(id) => {
                    proof {
                        lemma_wf_at(self@, 0, i as int);
                    }
                    let sub = self.resolve(*id);
                    proof {
                        let w = choose|w: int|
                            0 <= w < self.script_map@.len() && **sub == *self.script_map@[w].1;
                        assert(decreases_to!(self.script_map => self.script_map[w]));
                        assert(decreases_to!(*self => **sub));
                    }
                    let sl = sub.len();
                    total = total + sl;
                }
            }
        }
        total
    }
}

} // verus!

