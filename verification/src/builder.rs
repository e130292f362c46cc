//! The script build tree: a script made of inline segments and of calls to
//! sub-scripts that it holds itself.

use vstd::prelude::*;
use crate::script::{
    count_unclosed_ifs, has_flow_op, instructions, lemma_has_flow_op_add, lemma_parsed,
    lemma_unclosed_ifs_add, lemma_unclosed_ifs_bound, parse_script, unclosed_ifs, Instr,
};

verus! {

/// One block of a structured script: a call to the sub-script with the given
/// identifier, or an inline segment of raw script bytes.
#[derive(Debug, PartialEq, Eq)]
pub enum Block {
    Call(u64),
    Script(Vec<u8>),
}

/// The mathematical value of a [`Block`].
pub enum BlockView {
    Call(u64),
    Script(Seq<u8>),
}

impl View for Block {
    type V = BlockView;

    open spec fn view(&self) -> BlockView {
        match self {
            Block::Call(id) => BlockView::Call(*id),
            Block::Script(bytes) => BlockView::Script(bytes@),
        }
    }
}

impl Clone for Block {
    fn clone(&self) -> (r: Self)
        ensures
            r@ == self@,
    {
        match self {
            Block::Call(id) => Block::Call(*id),
            Block::Script(bytes) => {
                let copy = bytes.clone();
                assert(copy@ =~= bytes@);
                Block::Script(copy)
            },
        }
    }
}

/// The mathematical value of a [`StructuredScript`]: its blocks in order and
/// the sub-scripts that its calls name, the call `Call(id)` standing for
/// `subs[id]`.
pub struct ScriptTree {
    pub blocks: Seq<BlockView>,
    pub subs: Seq<ScriptTree>,
}

/// A script made of blocks. It owns the sub-scripts that its calls refer to,
/// and caches its size and its balance of conditionals.
#[derive(Debug, PartialEq, Eq)]
pub struct StructuredScript {
    size: usize,
    num_unclosed_ifs: i32,
    flow_op: bool,
    blocks: Vec<Block>,
    subs: Vec<StructuredScript>,
}

/// The instructions of a segment; none where it does not parse.
pub open spec fn parsed(bytes: Seq<u8>) -> Seq<Instr> {
    match instructions(bytes) {
        Some(s) => s,
        None => Seq::empty(),
    }
}

/// The inline segments of the first `n` blocks of `t` in execution order,
/// every call replaced by the segments of the sub-script it names. A call
/// without a target contributes nothing.
pub open spec fn segments_upto(t: ScriptTree, n: nat) -> Seq<Seq<u8>>
    decreases t, n,
{
    if n == 0 || n > t.blocks.len() {
        Seq::empty()
    } else {
        segments_upto(t, (n - 1) as nat) + match t.blocks[n - 1] {
            BlockView::Script(bytes) => seq![bytes],
            BlockView::Call(id) => if id < t.subs.len() {
                segments_upto(t.subs[id as int], t.subs[id as int].blocks.len())
            } else {
                Seq::empty()
            },
        }
    }
}

/// The number of bytes in a run of segments.
pub open spec fn total_len(ss: Seq<Seq<u8>>) -> nat
    decreases ss.len(),
{
    if ss.len() == 0 {
        0
    } else {
        total_len(ss.drop_last()) + ss.last().len()
    }
}

/// The instructions of a run of segments, one segment after the other.
pub open spec fn stream(ss: Seq<Seq<u8>>) -> Seq<Instr>
    decreases ss.len(),
{
    if ss.len() == 0 {
        Seq::empty()
    } else {
        stream(ss.drop_last()) + parsed(ss.last())
    }
}

impl ScriptTree {
    /// The script without blocks.
    pub open spec fn empty() -> ScriptTree {
        ScriptTree { blocks: Seq::empty(), subs: Seq::empty() }
    }

    /// The script that is one inline segment.
    pub open spec fn leaf(bytes: Seq<u8>) -> ScriptTree {
        ScriptTree { blocks: seq![BlockView::Script(bytes)], subs: Seq::empty() }
    }

    /// A single inline segment and no call: it cannot be taken apart into
    /// sub-scripts.
    pub open spec fn is_leaf(self) -> bool {
        self.blocks.len() == 1 && self.blocks[0] is Script
    }

    /// All inline segments in execution order.
    pub open spec fn segments(self) -> Seq<Seq<u8>> {
        segments_upto(self, self.blocks.len())
    }

    /// The size in bytes.
    pub open spec fn size(self) -> nat {
        total_len(self.segments())
    }

    /// The instruction stream.
    pub open spec fn program(self) -> Seq<Instr> {
        stream(self.segments())
    }

    /// Conditionals opened minus conditionals closed.
    pub open spec fn depth(self) -> int {
        unclosed_ifs(self.program())
    }

    /// Whether the script holds `OP_IF`, `OP_NOTIF` or `OP_ENDIF` anywhere.
    pub open spec fn has_flow(self) -> bool {
        has_flow_op(self.program())
    }

    /// The script that block `i` stands for: the sub-script that a call
    /// names, or a leaf around an inline segment.
    pub open spec fn child(self, i: int) -> ScriptTree {
        match self.blocks[i] {
            BlockView::Script(bytes) => ScriptTree::leaf(bytes),
            BlockView::Call(id) => self.subs[id as int],
        }
    }

    /// The scripts that the blocks stand for, in order.
    pub open spec fn children(self) -> Seq<ScriptTree> {
        Seq::new(self.blocks.len(), |i: int| self.child(i))
    }

    /// Block `i` can be resolved: a call names a sub-script that is there, a
    /// segment parses and its balance fits the counter.
    pub open spec fn block_ok(self, i: int) -> bool {
        match self.blocks[i] {
            BlockView::Call(id) => id < self.subs.len(),
            BlockView::Script(bytes) => instructions(bytes) is Some && i32::MIN <= unclosed_ifs(
                parsed(bytes),
            ) <= i32::MAX,
        }
    }

    /// An inline segment can be added: it parses, and size and balance stay
    /// within their counters.
    pub open spec fn takes_script(self, bytes: Seq<u8>) -> bool {
        &&& instructions(bytes) is Some
        &&& i32::MIN <= unclosed_ifs(parsed(bytes)) <= i32::MAX
        &&& self.size() + bytes.len() <= usize::MAX
        &&& i32::MIN <= self.depth() + unclosed_ifs(parsed(bytes)) <= i32::MAX
    }

    /// A call to `sub` can be added: size and balance stay within their
    /// counters.
    pub open spec fn takes_call(self, sub: ScriptTree) -> bool {
        &&& self.size() + sub.size() <= usize::MAX
        &&& i32::MIN <= self.depth() + sub.depth() <= i32::MAX
    }

    /// With one more block at the end.
    pub open spec fn push_block(self, b: BlockView) -> ScriptTree {
        ScriptTree { blocks: self.blocks.push(b), subs: self.subs }
    }

    /// With one more sub-script, and a call to it at the end.
    pub open spec fn push_sub(self, sub: ScriptTree) -> ScriptTree {
        ScriptTree {
            blocks: self.blocks.push(BlockView::Call(self.subs.len() as u64)),
            subs: self.subs.push(sub),
        }
    }
}

/// Every block of the tree can be resolved, at every level, and the size and
/// the balance of every script in it fit their counters.
pub open spec fn well_formed(t: ScriptTree) -> bool
    decreases t,
{
    &&& forall|i: int| 0 <= i < t.blocks.len() ==> #[trigger] t.block_ok(i)
    &&& forall|j: int| 0 <= j < t.subs.len() ==> well_formed(#[trigger] t.subs[j])
    &&& t.size() <= usize::MAX
    &&& i32::MIN <= t.depth() <= i32::MAX
}

/// The segments of a run of scripts, one script after the other.
pub open spec fn forest_segments(f: Seq<ScriptTree>) -> Seq<Seq<u8>>
    decreases f.len(),
{
    if f.len() == 0 {
        Seq::empty()
    } else {
        forest_segments(f.drop_last()) + f.last().segments()
    }
}

/// The size in bytes of a run of scripts.
pub open spec fn forest_size(f: Seq<ScriptTree>) -> nat {
    total_len(forest_segments(f))
}

/// The instruction stream of a run of scripts.
pub open spec fn forest_program(f: Seq<ScriptTree>) -> Seq<Instr> {
    stream(forest_segments(f))
}

/// The balance of conditionals of a run of scripts.
pub open spec fn forest_depth(f: Seq<ScriptTree>) -> int {
    unclosed_ifs(forest_program(f))
}

/// Every script of the run is well formed.
pub open spec fn all_well_formed(f: Seq<ScriptTree>) -> bool {
    forall|i: int| 0 <= i < f.len() ==> well_formed(#[trigger] f[i])
}

/// The mathematical values of a vector of scripts.
pub open spec fn views(v: Seq<StructuredScript>) -> Seq<ScriptTree> {
    v.map_values(|s: StructuredScript| s@)
}

/// Every script of the vector is consistent.
pub open spec fn all_wf(v: Seq<StructuredScript>) -> bool {
    forall|i: int| 0 <= i < v.len() ==> (#[trigger] v[i]).wf()
}

/// The bytes of two runs of segments add up.
pub proof fn lemma_total_len_add(a: Seq<Seq<u8>>, b: Seq<Seq<u8>>)
    ensures
        total_len(a + b) == total_len(a) + total_len(b),
    decreases b.len(),
{
    if b.len() == 0 {
        assert(a + b == a);
    } else {
        lemma_total_len_add(a, b.drop_last());
        assert((a + b).drop_last() == a + b.drop_last());
    }
}

/// The instructions of two runs of segments follow one another.
pub proof fn lemma_stream_add(a: Seq<Seq<u8>>, b: Seq<Seq<u8>>)
    ensures
        stream(a + b) == stream(a) + stream(b),
    decreases b.len(),
{
    if b.len() == 0 {
        assert(a + b == a);
        assert(stream(a) + Seq::<Instr>::empty() == stream(a));
    } else {
        lemma_stream_add(a, b.drop_last());
        assert((a + b).drop_last() == a + b.drop_last());
        assert(stream(a) + (stream(b.drop_last()) + parsed(b.last())) == (stream(a) + stream(
            b.drop_last(),
        )) + parsed(b.last()));
    }
}

/// Size and instructions of a run of one segment.
pub proof fn lemma_single_segment(bytes: Seq<u8>)
    ensures
        total_len(seq![bytes]) == bytes.len(),
        stream(seq![bytes]) == parsed(bytes),
{
    assert(seq![bytes].drop_last() == Seq::<Seq<u8>>::empty());
    assert(total_len(Seq::<Seq<u8>>::empty()) == 0);
    assert(stream(Seq::<Seq<u8>>::empty()) == Seq::<Instr>::empty());
    assert(Seq::<Instr>::empty() + parsed(bytes) == parsed(bytes));
}

/// The segments of two runs of scripts follow one another.
pub proof fn lemma_forest_segments_add(a: Seq<ScriptTree>, b: Seq<ScriptTree>)
    ensures
        forest_segments(a + b) == forest_segments(a) + forest_segments(b),
    decreases b.len(),
{
    if b.len() == 0 {
        assert(a + b == a);
        assert(forest_segments(a) + Seq::<Seq<u8>>::empty() == forest_segments(a));
    } else {
        lemma_forest_segments_add(a, b.drop_last());
        assert((a + b).drop_last() == a + b.drop_last());
        assert(forest_segments(a) + (forest_segments(b.drop_last()) + b.last().segments()) == (
        forest_segments(a) + forest_segments(b.drop_last())) + b.last().segments());
    }
}

/// The segments of a run of one script are those of the script.
pub proof fn lemma_forest_single(t: ScriptTree)
    ensures
        forest_segments(seq![t]) == t.segments(),
{
    assert(seq![t].drop_last() == Seq::<ScriptTree>::empty());
    assert(forest_segments(Seq::<ScriptTree>::empty()) == Seq::<Seq<u8>>::empty());
    assert(Seq::<Seq<u8>>::empty() + t.segments() == t.segments());
}

/// Size, instruction stream and balance of a run of scripts add up over
/// concatenation.
pub proof fn lemma_forest_add(a: Seq<ScriptTree>, b: Seq<ScriptTree>)
    ensures
        forest_segments(a + b) == forest_segments(a) + forest_segments(b),
        forest_size(a + b) == forest_size(a) + forest_size(b),
        forest_program(a + b) == forest_program(a) + forest_program(b),
        forest_depth(a + b) == forest_depth(a) + forest_depth(b),
{
    lemma_forest_segments_add(a, b);
    lemma_total_len_add(forest_segments(a), forest_segments(b));
    lemma_stream_add(forest_segments(a), forest_segments(b));
    lemma_unclosed_ifs_add(forest_program(a), forest_program(b));
}

/// Size, instruction stream and balance of a run of one script are those of
/// the script.
pub proof fn lemma_forest_one(t: ScriptTree)
    ensures
        forest_segments(seq![t]) == t.segments(),
        forest_size(seq![t]) == t.size(),
        forest_program(seq![t]) == t.program(),
        forest_depth(seq![t]) == t.depth(),
{
    lemma_forest_single(t);
}

/// The empty run has no size, no instructions and no open conditional.
pub proof fn lemma_forest_empty()
    ensures
        forest_segments(Seq::<ScriptTree>::empty()) == Seq::<Seq<u8>>::empty(),
        forest_size(Seq::<ScriptTree>::empty()) == 0,
        forest_program(Seq::<ScriptTree>::empty()) == Seq::<Instr>::empty(),
        forest_depth(Seq::<ScriptTree>::empty()) == 0,
{
    assert(total_len(Seq::<Seq<u8>>::empty()) == 0);
    assert(stream(Seq::<Seq<u8>>::empty()) == Seq::<Instr>::empty());
    assert(unclosed_ifs(Seq::<Instr>::empty()) == 0);
}

/// The mathematical values of a vector of scripts follow its pushes, its
/// concatenations and its pops.
pub proof fn lemma_views(a: Seq<StructuredScript>, b: Seq<StructuredScript>)
    ensures
        views(a + b) == views(a) + views(b),
        views(a).len() == a.len(),
        all_wf(a + b) == (all_wf(a) && all_wf(b)),
        a.len() > 0 ==> views(a.drop_last()) == views(a).drop_last() && views(a).last()
            == a.last()@,
        forall|x: StructuredScript| #[trigger] views(a.push(x)) == views(a).push(x@),
{
    assert(views(a + b) =~= views(a) + views(b));
    if a.len() > 0 {
        assert(views(a.drop_last()) =~= views(a).drop_last());
    }
    assert forall|x: StructuredScript| #[trigger] views(a.push(x)) == views(a).push(x@) by {
        assert(views(a.push(x)) =~= views(a).push(x@));
    }
    if all_wf(a + b) {
        assert forall|i: int| 0 <= i < a.len() implies (#[trigger] a[i]).wf() by {
            assert((a + b)[i] == a[i]);
        }
        assert forall|i: int| 0 <= i < b.len() implies (#[trigger] b[i]).wf() by {
            assert((a + b)[a.len() + i] == b[i]);
        }
    }
}

/// Consistent scripts have well-formed trees.
pub proof fn lemma_all_wf(v: Seq<StructuredScript>)
    requires
        all_wf(v),
    ensures
        all_well_formed(views(v)),
{
    assert forall|i: int| 0 <= i < views(v).len() implies well_formed(#[trigger] views(v)[i]) by {
        assert(v[i].wf());
        v[i].lemma_wf();
    }
}

/// A run of segments holds no more instructions than bytes.
pub proof fn lemma_stream_len(ss: Seq<Seq<u8>>)
    ensures
        stream(ss).len() <= total_len(ss),
    decreases ss.len(),
{
    if ss.len() > 0 {
        lemma_stream_len(ss.drop_last());
        if instructions(ss.last()) is Some {
            lemma_parsed(ss.last());
        }
    }
}

/// A run of scripts opens or closes no more conditionals than it has bytes.
pub proof fn lemma_depth_bound(f: Seq<ScriptTree>)
    ensures
        -forest_size(f) <= forest_depth(f) <= forest_size(f),
{
    lemma_stream_len(forest_segments(f));
    lemma_unclosed_ifs_bound(forest_program(f));
}

/// The start of a run of scripts is no larger than the run, and what the
/// next script adds to its size.
pub proof fn lemma_forest_size_take(f: Seq<ScriptTree>, n: int)
    requires
        0 <= n <= f.len(),
    ensures
        forest_size(f.take(n)) <= forest_size(f),
        n < f.len() ==> forest_size(f.take(n + 1)) == forest_size(f.take(n)) + f[n].size(),
{
    assert(f == f.take(n) + f.skip(n));
    lemma_forest_add(f.take(n), f.skip(n));
    if n < f.len() {
        assert(f.take(n + 1) == f.take(n) + seq![f[n]]);
        lemma_forest_add(f.take(n), seq![f[n]]);
        lemma_forest_one(f[n]);
    }
}

/// The segments of the first `n` blocks depend only on those blocks and on
/// the sub-scripts that they call.
pub proof fn lemma_segments_upto_same(t1: ScriptTree, t2: ScriptTree, n: nat)
    requires
        n <= t1.blocks.len(),
        n <= t2.blocks.len(),
        forall|i: int| 0 <= i < n ==> t1.blocks[i] == t2.blocks[i],
        forall|i: int| 0 <= i < n ==> #[trigger] t1.block_ok(i),
        t1.subs.len() <= t2.subs.len(),
        forall|j: int| 0 <= j < t1.subs.len() ==> #[trigger] t1.subs[j] == t2.subs[j],
    ensures
        segments_upto(t1, n) == segments_upto(t2, n),
    decreases n,
{
    if n > 0 {
        lemma_segments_upto_same(t1, t2, (n - 1) as nat);
        assert(t1.block_ok(n - 1));
    }
}

/// A leaf has its one segment, and is well formed where the segment parses.
pub proof fn lemma_leaf(bytes: Seq<u8>)
    ensures
        ScriptTree::leaf(bytes).segments() == seq![bytes],
        ScriptTree::leaf(bytes).size() == bytes.len(),
        ScriptTree::leaf(bytes).program() == parsed(bytes),
        ScriptTree::leaf(bytes).is_leaf(),
        instructions(bytes) is Some && i32::MIN <= unclosed_ifs(parsed(bytes)) <= i32::MAX
            && bytes.len() <= usize::MAX ==> well_formed(ScriptTree::leaf(bytes)),
{
    let t = ScriptTree::leaf(bytes);
    assert(segments_upto(t, 0) == Seq::<Seq<u8>>::empty());
    assert(segments_upto(t, 1) == Seq::<Seq<u8>>::empty() + seq![bytes]);
    assert(Seq::<Seq<u8>>::empty() + seq![bytes] == seq![bytes]);
    lemma_single_segment(bytes);
    if instructions(bytes) is Some && i32::MIN <= unclosed_ifs(parsed(bytes)) <= i32::MAX
        && bytes.len() <= usize::MAX {
        assert forall|i: int| 0 <= i < t.blocks.len() implies #[trigger] t.block_ok(i) by {}
    }
}

/// The empty script is well formed, without size, instructions or open
/// conditional.
pub proof fn lemma_empty_tree()
    ensures
        ScriptTree::empty().segments() == Seq::<Seq<u8>>::empty(),
        ScriptTree::empty().size() == 0,
        ScriptTree::empty().program() == Seq::<Instr>::empty(),
        ScriptTree::empty().depth() == 0,
        !ScriptTree::empty().has_flow(),
        well_formed(ScriptTree::empty()),
{
    lemma_forest_empty();
}

/// What one more inline segment adds to a script.
pub proof fn lemma_push_script(t: ScriptTree, bytes: Seq<u8>)
    requires
        well_formed(t),
    ensures
        t.push_block(BlockView::Script(bytes)).segments() == t.segments() + seq![bytes],
        t.push_block(BlockView::Script(bytes)).size() == t.size() + bytes.len(),
        t.push_block(BlockView::Script(bytes)).program() == t.program() + parsed(bytes),
        t.push_block(BlockView::Script(bytes)).depth() == t.depth() + unclosed_ifs(parsed(bytes)),
        t.push_block(BlockView::Script(bytes)).has_flow() == (t.has_flow() || has_flow_op(
            parsed(bytes),
        )),
{
    let t2 = t.push_block(BlockView::Script(bytes));
    lemma_segments_upto_same(t, t2, t.blocks.len());
    lemma_total_len_add(t.segments(), seq![bytes]);
    lemma_stream_add(t.segments(), seq![bytes]);
    lemma_single_segment(bytes);
    lemma_unclosed_ifs_add(t.program(), parsed(bytes));
    lemma_has_flow_op_add(t.program(), parsed(bytes));
}

/// What one more call adds to a script, where `id` names the sub-script
/// `sub` in `t2` and `t2` has the blocks and sub-scripts of `t` before it.
pub proof fn lemma_push_call(t: ScriptTree, t2: ScriptTree, id: u64, sub: ScriptTree)
    requires
        well_formed(t),
        t2.blocks == t.blocks.push(BlockView::Call(id)),
        t.subs.len() <= t2.subs.len(),
        forall|j: int| 0 <= j < t.subs.len() ==> #[trigger] t.subs[j] == t2.subs[j],
        id < t2.subs.len(),
        t2.subs[id as int] == sub,
    ensures
        t2.segments() == t.segments() + sub.segments(),
        t2.size() == t.size() + sub.size(),
        t2.program() == t.program() + sub.program(),
        t2.depth() == t.depth() + sub.depth(),
        t2.has_flow() == (t.has_flow() || sub.has_flow()),
{
    lemma_segments_upto_same(t, t2, t.blocks.len());
    lemma_total_len_add(t.segments(), sub.segments());
    lemma_stream_add(t.segments(), sub.segments());
    lemma_unclosed_ifs_add(t.program(), sub.program());
    lemma_has_flow_op_add(t.program(), sub.program());
}

/// The first `n` children of a script hold the segments of its first `n`
/// blocks.
pub proof fn lemma_children_upto(t: ScriptTree, n: nat)
    requires
        well_formed(t),
        n <= t.blocks.len(),
    ensures
        forest_segments(t.children().take(n as int)) == segments_upto(t, n),
    decreases n,
{
    let c = t.children();
    if n == 0 {
        assert(c.take(0) == Seq::<ScriptTree>::empty());
    } else {
        lemma_children_upto(t, (n - 1) as nat);
        assert(c.take(n as int).drop_last() == c.take(n - 1));
        assert(c.take(n as int).last() == t.child(n - 1));
        assert(t.block_ok(n - 1));
        match t.blocks[n - 1] {
            BlockView::Script(bytes) => {
                lemma_leaf(bytes);
            },
            BlockView::Call(id) => {},
        }
    }
}

/// An element of a run is no larger than the run.
pub proof fn lemma_forest_element_size(f: Seq<ScriptTree>, i: int)
    requires
        0 <= i < f.len(),
    ensures
        f[i].size() <= forest_size(f),
    decreases f.len(),
{
    lemma_total_len_add(forest_segments(f.drop_last()), f.last().segments());
    if i < f.len() - 1 {
        lemma_forest_element_size(f.drop_last(), i);
    }
}

/// A child is no larger than the script it belongs to.
pub proof fn lemma_size_of_child(t: ScriptTree, i: int)
    requires
        well_formed(t),
        0 <= i < t.blocks.len(),
    ensures
        t.child(i).size() <= t.size(),
{
    lemma_children_upto(t, t.blocks.len());
    assert(t.children().take(t.blocks.len() as int) == t.children());
    lemma_forest_element_size(t.children(), i);
}

/// The children of a well-formed script are well formed.
pub proof fn lemma_child_well_formed(t: ScriptTree, i: int)
    requires
        well_formed(t),
        0 <= i < t.blocks.len(),
    ensures
        well_formed(t.child(i)),
{
    assert(t.block_ok(i));
    match t.blocks[i] {
        BlockView::Script(bytes) => {
            lemma_size_of_child(t, i);
            lemma_leaf(bytes);
        },
        BlockView::Call(id) => {},
    }
}

/// Taking a script apart into its children keeps its segments, and with them
/// its size, its instructions and its balance.
pub proof fn lemma_children(t: ScriptTree)
    requires
        well_formed(t),
    ensures
        forest_segments(t.children()) == t.segments(),
        forest_size(t.children()) == t.size(),
        forest_program(t.children()) == t.program(),
        forest_depth(t.children()) == t.depth(),
        all_well_formed(t.children()),
{
    lemma_children_upto(t, t.blocks.len());
    assert(t.children().take(t.blocks.len() as int) == t.children());
    assert forall|i: int| 0 <= i < t.children().len() implies well_formed(
        #[trigger] t.children()[i],
    ) by {
        lemma_child_well_formed(t, i);
    }
}

/// The trees of the first `n` scripts of `v`.
pub closed spec fn trees_upto(v: Seq<StructuredScript>, n: nat) -> Seq<ScriptTree>
    decreases v, n,
{
    if n == 0 || n > v.len() {
        Seq::empty()
    } else {
        trees_upto(v, (n - 1) as nat).push(v[n - 1]@)
    }
}

impl View for StructuredScript {
    type V = ScriptTree;

    closed spec fn view(&self) -> ScriptTree
        decreases self,
    {
        ScriptTree {
            blocks: self.blocks@.map_values(|b: Block| b@),
            subs: trees_upto(self.subs@, self.subs.len() as nat),
        }
    }
}

/// The trees of the first `n` scripts, one for one.
proof fn lemma_trees_upto(v: Seq<StructuredScript>, n: nat)
    requires
        n <= v.len(),
    ensures
        trees_upto(v, n).len() == n,
        forall|k: int| 0 <= k < n ==> #[trigger] trees_upto(v, n)[k] == v[k]@,
    decreases n,
{
    reveal_with_fuel(trees_upto, 2);
    if n > 0 {
        lemma_trees_upto(v, (n - 1) as nat);
    }
}

impl Clone for StructuredScript {
    fn clone(&self) -> (r: Self)
        ensures
            r@ == self@,
            self.wf() ==> r.wf(),
        decreases self,
    {
        let mut blocks: Vec<Block> = Vec::new();
        let mut i: usize = 0;
        while i < self.blocks.len()
            invariant
                i <= self.blocks.len(),
                blocks.len() == i,
                forall|k: int| 0 <= k < i ==> blocks[k]@ == self.blocks[k]@,
            decreases self.blocks.len() - i,
        {
            blocks.push(self.blocks[i].clone());
            i = i + 1;
        }
        let mut subs: Vec<StructuredScript> = Vec::new();
        let mut j: usize = 0;
        while j < self.subs.len()
            invariant
                j <= self.subs.len(),
                subs.len() == j,
                forall|k: int| 0 <= k < j ==> subs[k]@ == self.subs[k]@,
                forall|k: int| 0 <= k < j ==> (self.subs[k].wf() ==> (#[trigger] subs[k]).wf()),
            decreases self.subs.len() - j,
        {
            subs.push(self.subs[j].clone());
            j = j + 1;
        }
        let r = StructuredScript {
            size: self.size,
            num_unclosed_ifs: self.num_unclosed_ifs,
            flow_op: self.flow_op,
            blocks,
            subs,
        };
        proof {
            assert(r@.blocks =~= self@.blocks);
            r.lemma_view();
            self.lemma_view();
            assert forall|k: int| 0 <= k < self.subs.len() implies r@.subs[k] == self@.subs[k] by {
                assert(r.subs[k]@ == self.subs[k]@);
            }
            assert(r@.subs =~= self@.subs);
            if self.wf() {
                assert forall|k: int| 0 <= k < r.subs.len() implies (#[trigger] r.subs[k]).wf() by {
                    assert(self.subs[k].wf());
                }
            }
        }
        r
    }
}

impl StructuredScript {
    /// The tree of a script, level by level.
    proof fn lemma_view(&self)
        ensures
            self@.blocks == self.blocks@.map_values(|b: Block| b@),
            self@.subs.len() == self.subs.len(),
            forall|k: int| 0 <= k < self.subs.len() ==> #[trigger] self@.subs[k] == self.subs[k]@,
    {
        lemma_trees_upto(self.subs@, self.subs.len() as nat);
    }

    /// The cached size, balance and flow flag are those of the tree, at
    /// every level, and the tree is well formed.
    pub closed spec fn wf(&self) -> bool
        decreases self,
    {
        &&& well_formed(self@)
        &&& self.size == self@.size()
        &&& self.num_unclosed_ifs == self@.depth()
        &&& self.flow_op == self@.has_flow()
        &&& forall|j: int| 0 <= j < self.subs.len() ==> (#[trigger] self.subs[j]).wf()
    }

    /// A consistent script has a well-formed tree.
    pub proof fn lemma_wf(&self)
        requires
            self.wf(),
        ensures
            well_formed(self@),
    {
    }

    /// The script without blocks.
    pub fn new() -> (r: Self)
        ensures
            r@ == ScriptTree::empty(),
            r.wf(),
    {
        let r = StructuredScript {
            size: 0,
            num_unclosed_ifs: 0,
            flow_op: false,
            blocks: Vec::new(),
            subs: Vec::new(),
        };
        proof {
            assert(r@.blocks =~= ScriptTree::empty().blocks);
            assert(r@.subs =~= ScriptTree::empty().subs);
            lemma_empty_tree();
        }
        r
    }

    /// The script that is the one inline segment `script`. `None` where
    /// `script` ends inside an instruction, or opens or closes more
    /// conditionals than the counter holds.
    pub fn from_script(script: Vec<u8>) -> (r: Option<Self>)
        ensures
            match r {
                Some(s) => s@ == ScriptTree::leaf(script@) && s.wf(),
                None => true,
            },
            r is Some == (instructions(script@) is Some && i32::MIN <= unclosed_ifs(
                parsed(script@),
            ) <= i32::MAX),
    {
        proof {
            lemma_empty_tree();
            assert(script@.len() == script.len());
            assert(ScriptTree::empty().push_block(BlockView::Script(script@)).blocks
                =~= ScriptTree::leaf(script@).blocks);
        }
        StructuredScript::new().push_script(script)
    }

    /// Appends an inline segment. `None` where `script` ends inside an
    /// instruction, or the size or the balance would leave its counter.
    pub fn push_script(self, script: Vec<u8>) -> (r: Option<Self>)
        requires
            self.wf(),
        ensures
            match r {
                Some(s) => s@ == self@.push_block(BlockView::Script(script@)) && s.wf(),
                None => true,
            },
            r is Some == self@.takes_script(script@),
    {
        let instrs = match parse_script(&script) {
            Some(v) => v,
            None => {
                return None;
            },
        };
        let (open, flow) = count_unclosed_ifs(&instrs);
        if open < -0x8000_0000 || open > 0x7fff_ffff {
            return None;
        }
        let depth: i128 = self.num_unclosed_ifs as i128 + open;
        if depth < -0x8000_0000 || depth > 0x7fff_ffff {
            return None;
        }
        if script.len() > usize::MAX - self.size {
            return None;
        }
        let ghost before = self;
        let ghost bytes = script@;
        let mut s = self;
        s.size = s.size + script.len();
        s.num_unclosed_ifs = depth as i32;
        s.flow_op = s.flow_op || flow;
        s.blocks.push(Block::Script(script));
        proof {
            let t = before@;
            let t2 = t.push_block(BlockView::Script(bytes));
            before.lemma_view();
            s.lemma_view();
            assert(s@.blocks =~= t2.blocks);
            assert(s@.subs =~= t2.subs);
            lemma_push_script(t, bytes);
            assert forall|i: int| 0 <= i < t2.blocks.len() implies #[trigger] t2.block_ok(i) by {
                if i < t.blocks.len() {
                    assert(t.block_ok(i));
                }
            }
            assert forall|j: int| 0 <= j < s.subs.len() implies (#[trigger] s.subs[j]).wf() by {
                assert(before.subs[j].wf());
            }
        }
        Some(s)
    }

    /// Adds `sub` to the sub-scripts and appends a call to it. `None` where
    /// the size or the balance would leave its counter.
    pub fn push_env_script(self, sub: StructuredScript) -> (r: Option<Self>)
        requires
            self.wf(),
            sub.wf(),
        ensures
            match r {
                Some(s) => s@ == self@.push_sub(sub@) && s.wf(),
                None => true,
            },
            r is Some == self@.takes_call(sub@),
    {
        let depth: i64 = self.num_unclosed_ifs as i64 + sub.num_unclosed_ifs as i64;
        if depth < -0x8000_0000 || depth > 0x7fff_ffff {
            return None;
        }
        if sub.size > usize::MAX - self.size {
            return None;
        }
        let ghost before = self;
        let id: u64 = self.subs.len() as u64;
        let mut s = self;
        s.size = s.size + sub.size;
        s.num_unclosed_ifs = depth as i32;
        s.flow_op = s.flow_op || sub.flow_op;
        s.blocks.push(Block::Call(id));
        s.subs.push(sub);
        proof {
            let t = before@;
            let t2 = t.push_sub(sub@);
            before.lemma_view();
            s.lemma_view();
            assert(s@.blocks =~= t2.blocks);
            assert(s@.subs =~= t2.subs);
            lemma_push_call(t, t2, id, sub@);
            assert forall|i: int| 0 <= i < t2.blocks.len() implies #[trigger] t2.block_ok(i) by {
                if i < t.blocks.len() {
                    assert(t.block_ok(i));
                }
            }
            assert forall|j: int| 0 <= j < s.subs.len() implies (#[trigger] s.subs[j]).wf() by {
                if j < before.subs.len() {
                    assert(before.subs[j].wf());
                }
            }
            assert forall|j: int| 0 <= j < t2.subs.len() implies well_formed(
                #[trigger] t2.subs[j],
            ) by {
                if j < t.subs.len() {
                    assert(well_formed(t.subs[j]));
                }
            }
        }
        Some(s)
    }

    /// Appends one more call to the sub-script `id`. `None` where there is
    /// no such sub-script, or the size or the balance would leave its
    /// counter.
    pub fn push_call(self, id: u64) -> (r: Option<Self>)
        requires
            self.wf(),
        ensures
            match r {
                Some(s) => s@ == self@.push_block(BlockView::Call(id)) && s.wf(),
                None => true,
            },
            r is Some == (id < self@.subs.len() && self@.takes_call(self@.subs[id as int])),
    {
        proof {
            self.lemma_view();
        }
        if id >= self.subs.len() as u64 {
            return None;
        }
        let ghost sub = self.subs[id as int];
        let sub_size: usize = self.subs[id as usize].size;
        let sub_depth: i32 = self.subs[id as usize].num_unclosed_ifs;
        let sub_flow: bool = self.subs[id as usize].flow_op;
        assert(sub.wf());
        let depth: i64 = self.num_unclosed_ifs as i64 + sub_depth as i64;
        if depth < -0x8000_0000 || depth > 0x7fff_ffff {
            return None;
        }
        if sub_size > usize::MAX - self.size {
            return None;
        }
        let ghost before = self;
        let mut s = self;
        s.size = s.size + sub_size;
        s.num_unclosed_ifs = depth as i32;
        s.flow_op = s.flow_op || sub_flow;
        s.blocks.push(Block::Call(id));
        proof {
            let t = before@;
            let t2 = t.push_block(BlockView::Call(id));
            s.lemma_view();
            assert(s@.blocks =~= t2.blocks);
            assert(s@.subs =~= t2.subs);
            lemma_push_call(t, t2, id, sub@);
            assert forall|i: int| 0 <= i < t2.blocks.len() implies #[trigger] t2.block_ok(i) by {
                if i < t.blocks.len() {
                    assert(t.block_ok(i));
                }
            }
            assert forall|j: int| 0 <= j < s.subs.len() implies (#[trigger] s.subs[j]).wf() by {
                assert(before.subs[j].wf());
            }
        }
        Some(s)
    }

    /// The size in bytes.
    pub fn len(&self) -> (n: usize)
        requires
            self.wf(),
        ensures
            n == self@.size(),
    {
        self.size
    }

    /// Conditionals opened minus conditionals closed in this script alone.
    pub fn num_unclosed_ifs(&self) -> (d: i32)
        requires
            self.wf(),
        ensures
            d == self@.depth(),
    {
        self.num_unclosed_ifs
    }

    /// Whether the script holds `OP_IF`, `OP_NOTIF` or `OP_ENDIF` anywhere.
    pub fn contains_flow_op(&self) -> (b: bool)
        requires
            self.wf(),
        ensures
            b == self@.has_flow(),
    {
        self.flow_op
    }

    /// Whether the script is a single inline segment.
    pub fn is_script_buf(&self) -> (b: bool)
        ensures
            b == self@.is_leaf(),
    {
        if self.blocks.len() == 1 {
            match &self.blocks[0] {
                Block::Script(_) => true,
                Block::Call(_) => false,
            }
        } else {
            false
        }
    }

    /// The blocks in order.
    pub fn blocks(&self) -> (r: &Vec<Block>)
        ensures
            r.len() == self@.blocks.len(),
            forall|i: int| 0 <= i < r.len() ==> (#[trigger] r[i])@ == self@.blocks[i],
    {
        &self.blocks
    }

    /// A copy of the sub-script that calls name `id`, where there is one.
    pub fn resolve(&self, id: u64) -> (r: Option<StructuredScript>)
        requires
            self.wf(),
        ensures
            match r {
                Some(sub) => id < self@.subs.len() && sub@ == self@.subs[id as int] && sub.wf(),
                None => id >= self@.subs.len(),
            },
    {
        let n: usize = self.subs.len();
        proof {
            self.lemma_view();
        }
        if id < n as u64 {
            let sub = self.subs[id as usize].clone();
            proof {
                assert(self.subs[id as int].wf());
            }
            Some(sub)
        } else {
            None
        }
    }
}

} // verus!
