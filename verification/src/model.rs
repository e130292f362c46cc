//! What the chunker computes, as mathematics: the packing of one chunk, the
//! balancer that takes back an unbalanced tail, and the chunking of a whole
//! script; with the measures by which they come to an end.

use vstd::prelude::*;
use crate::builder::{
    all_well_formed, forest_depth, forest_program, forest_size,
    lemma_child_well_formed, lemma_children, lemma_forest_add, lemma_forest_empty,
    lemma_forest_one, lemma_leaf, lemma_size_of_child, well_formed, BlockView, ScriptTree,
};
use crate::error::ChunkError;
use crate::script::{lemma_unclosed_ifs_bound, Instr};
use crate::split::{indivisible, lemma_pieces, pieces};

verus! {

/// The scripts that take the place of the first `n` blocks of `t` when the
/// balancer takes `t` apart: for a call the sub-script it names, for an
/// inline segment its pieces.
pub open spec fn decompose_upto(t: ScriptTree, n: nat) -> Seq<ScriptTree>
    decreases n,
{
    if n == 0 || n > t.blocks.len() {
        Seq::empty()
    } else {
        decompose_upto(t, (n - 1) as nat) + match t.blocks[n - 1] {
            BlockView::Script(bytes) => pieces(bytes),
            BlockView::Call(id) => seq![t.subs[id as int]],
        }
    }
}

/// The scripts that take the place of `t` when the balancer takes it apart.
pub open spec fn decompose(t: ScriptTree) -> Seq<ScriptTree> {
    decompose_upto(t, t.blocks.len())
}

/// A bound on the steps that the balancer spends on the first `n` blocks of
/// `t`.
pub open spec fn peel_weight_upto(t: ScriptTree, n: nat) -> nat
    decreases t, n,
{
    if n == 0 || n > t.blocks.len() {
        0
    } else {
        peel_weight_upto(t, (n - 1) as nat) + match t.blocks[n - 1] {
            BlockView::Script(bytes) => 2 * bytes.len() + 1,
            BlockView::Call(id) => if id < t.subs.len() {
                let sub = t.subs[id as int];
                if indivisible(sub) {
                    1
                } else {
                    1 + peel_weight_upto(sub, sub.blocks.len())
                }
            } else {
                0
            },
        }
    }
}

/// A bound on the steps that the balancer spends on `t`: one where it takes
/// `t` off whole, else one more than on what it takes `t` apart into.
pub open spec fn peel_weight(t: ScriptTree) -> nat {
    if indivisible(t) {
        1
    } else {
        1 + peel_weight_upto(t, t.blocks.len())
    }
}

/// A bound on the steps that the balancer spends on a run of scripts.
pub open spec fn forest_peel_weight(f: Seq<ScriptTree>) -> nat
    decreases f.len(),
{
    if f.len() == 0 {
        0
    } else {
        forest_peel_weight(f.drop_last()) + peel_weight(f.last())
    }
}

/// A bound on the steps that the packing spends on the first `n` blocks of
/// `t`.
pub open spec fn pack_weight_upto(t: ScriptTree, n: nat) -> nat
    decreases t, n,
{
    if n == 0 || n > t.blocks.len() {
        0
    } else {
        pack_weight_upto(t, (n - 1) as nat) + match t.blocks[n - 1] {
            BlockView::Script(bytes) => 1,
            BlockView::Call(id) => if id < t.subs.len() {
                let sub = t.subs[id as int];
                if sub.is_leaf() {
                    1
                } else {
                    1 + pack_weight_upto(sub, sub.blocks.len())
                }
            } else {
                0
            },
        }
    }
}

/// A bound on the steps that the packing spends on `t`: one for a leaf,
/// else one more than on its children.
pub open spec fn pack_weight(t: ScriptTree) -> nat {
    if t.is_leaf() {
        1
    } else {
        1 + pack_weight_upto(t, t.blocks.len())
    }
}

/// A bound on the steps that the packing spends on a run of scripts.
pub open spec fn forest_pack_weight(f: Seq<ScriptTree>) -> nat
    decreases f.len(),
{
    if f.len() == 0 {
        0
    } else {
        forest_pack_weight(f.drop_last()) + pack_weight(f.last())
    }
}

/// The instruction stream of a stack of scripts, the top, which is the last
/// element, first.
pub open spec fn stack_program(s: Seq<ScriptTree>) -> Seq<Instr> {
    forest_program(s.reverse())
}

/// Reversing a concatenation, and reversing twice.
pub proof fn lemma_reverse_add<A>(a: Seq<A>, b: Seq<A>)
    ensures
        (a + b).reverse() == b.reverse() + a.reverse(),
        a.reverse().reverse() == a,
        a.reverse().len() == a.len(),
{
    assert((a + b).reverse() =~= b.reverse() + a.reverse());
    assert(a.reverse().reverse() =~= a);
}

/// Reversing a sequence with one more element at either end.
pub proof fn lemma_reverse_push<A>(a: Seq<A>, x: A)
    ensures
        a.push(x).reverse() == seq![x] + a.reverse(),
        seq![x].reverse() == seq![x],
        (seq![x] + a).reverse() == a.reverse().push(x),
{
    assert(a.push(x).reverse() =~= seq![x] + a.reverse());
    assert(seq![x].reverse() =~= seq![x]);
    assert((seq![x] + a).reverse() =~= a.reverse().push(x));
}

/// The balancer weights of two runs add up.
pub proof fn lemma_forest_peel_weight_add(a: Seq<ScriptTree>, b: Seq<ScriptTree>)
    ensures
        forest_peel_weight(a + b) == forest_peel_weight(a) + forest_peel_weight(b),
    decreases b.len(),
{
    if b.len() == 0 {
        assert(a + b == a);
    } else {
        lemma_forest_peel_weight_add(a, b.drop_last());
        assert((a + b).drop_last() == a + b.drop_last());
    }
}

/// The packing weights of two runs add up.
pub proof fn lemma_forest_pack_weight_add(a: Seq<ScriptTree>, b: Seq<ScriptTree>)
    ensures
        forest_pack_weight(a + b) == forest_pack_weight(a) + forest_pack_weight(b),
    decreases b.len(),
{
    if b.len() == 0 {
        assert(a + b == a);
    } else {
        lemma_forest_pack_weight_add(a, b.drop_last());
        assert((a + b).drop_last() == a + b.drop_last());
    }
}

/// The weights of a run of one script are those of the script.
pub proof fn lemma_forest_weight_one(t: ScriptTree)
    ensures
        forest_pack_weight(seq![t]) == pack_weight(t),
        forest_peel_weight(seq![t]) == peel_weight(t),
{
    assert(seq![t].drop_last() == Seq::<ScriptTree>::empty());
    assert(forest_pack_weight(Seq::<ScriptTree>::empty()) == 0);
    assert(forest_peel_weight(Seq::<ScriptTree>::empty()) == 0);
}

/// The packing weight of a run does not depend on its order.
pub proof fn lemma_forest_pack_weight_reverse(f: Seq<ScriptTree>)
    ensures
        forest_pack_weight(f.reverse()) == forest_pack_weight(f),
    decreases f.len(),
{
    if f.len() == 0 {
        assert(f.reverse() == f);
    } else {
        lemma_forest_pack_weight_reverse(f.drop_last());
        lemma_reverse_push(f.drop_last(), f.last());
        assert(f.drop_last().push(f.last()) == f);
        lemma_forest_pack_weight_add(seq![f.last()], f.drop_last().reverse());
        lemma_forest_weight_one(f.last());
    }
}

/// The size of a run does not depend on its order.
pub proof fn lemma_forest_size_reverse(f: Seq<ScriptTree>)
    ensures
        forest_size(f.reverse()) == forest_size(f),
    decreases f.len(),
{
    if f.len() == 0 {
        assert(f.reverse() == f);
    } else {
        lemma_forest_size_reverse(f.drop_last());
        lemma_reverse_push(f.drop_last(), f.last());
        assert(f.drop_last().push(f.last()) == f);
        lemma_forest_add(seq![f.last()], f.drop_last().reverse());
        lemma_forest_add(f.drop_last(), seq![f.last()]);
        assert(f.drop_last() + seq![f.last()] == f);
    }
}

/// Well-formedness of a run of scripts is that of its parts, in any order.
pub proof fn lemma_all_well_formed(a: Seq<ScriptTree>, b: Seq<ScriptTree>)
    ensures
        all_well_formed(a + b) == (all_well_formed(a) && all_well_formed(b)),
        all_well_formed(a.reverse()) == all_well_formed(a),
{
    if all_well_formed(a + b) {
        assert forall|i: int| 0 <= i < a.len() implies well_formed(#[trigger] a[i]) by {
            assert((a + b)[i] == a[i]);
        }
        assert forall|i: int| 0 <= i < b.len() implies well_formed(#[trigger] b[i]) by {
            assert((a + b)[a.len() + i] == b[i]);
        }
    }
    if all_well_formed(a.reverse()) {
        assert forall|i: int| 0 <= i < a.len() implies well_formed(#[trigger] a[i]) by {
            assert(a.reverse()[a.len() - 1 - i] == a[i]);
        }
    }
}

/// The children of a script weigh what its blocks weigh.
pub proof fn lemma_children_pack_weight(t: ScriptTree, n: nat)
    requires
        well_formed(t),
        n <= t.blocks.len(),
    ensures
        forest_pack_weight(t.children().take(n as int)) == pack_weight_upto(t, n),
    decreases n,
{
    let c = t.children();
    if n == 0 {
        assert(c.take(0) == Seq::<ScriptTree>::empty());
    } else {
        lemma_children_pack_weight(t, (n - 1) as nat);
        assert(c.take(n as int).drop_last() == c.take(n - 1));
        assert(c.take(n as int).last() == t.child(n - 1));
        assert(t.block_ok(n - 1));
    }
}

/// Taking a script that is no leaf apart into its children takes one off
/// its packing weight.
pub proof fn lemma_expand_weight(t: ScriptTree)
    requires
        well_formed(t),
        !t.is_leaf(),
    ensures
        forest_pack_weight(t.children().reverse()) + 1 == pack_weight(t),
{
    lemma_children_pack_weight(t, t.blocks.len());
    assert(t.children().take(t.blocks.len() as int) == t.children());
    lemma_forest_pack_weight_reverse(t.children());
}

/// Scripts that the balancer takes off whole weigh one each.
pub proof fn lemma_indivisible_weight(f: Seq<ScriptTree>)
    requires
        forall|k: int| 0 <= k < f.len() ==> indivisible(#[trigger] f[k]),
    ensures
        forest_peel_weight(f) == f.len(),
    decreases f.len(),
{
    if f.len() > 0 {
        assert forall|k: int| 0 <= k < f.drop_last().len() implies indivisible(
            #[trigger] f.drop_last()[k],
        ) by {
            assert(f.drop_last()[k] == f[k]);
        }
        lemma_indivisible_weight(f.drop_last());
        assert(indivisible(f[f.len() - 1]));
    }
}

/// What the balancer takes the first `n` blocks of a script apart into
/// holds their instructions, in no more bytes, and weighs no more than the
/// blocks.
pub proof fn lemma_decompose_upto(t: ScriptTree, n: nat)
    requires
        well_formed(t),
        n <= t.blocks.len(),
    ensures
        forest_program(decompose_upto(t, n)) == forest_program(t.children().take(n as int)),
        forest_size(decompose_upto(t, n)) <= forest_size(t.children().take(n as int)),
        all_well_formed(decompose_upto(t, n)),
        forest_peel_weight(decompose_upto(t, n)) <= peel_weight_upto(t, n),
    decreases n,
{
    let c = t.children();
    if n == 0 {
        assert(c.take(0) == Seq::<ScriptTree>::empty());
    } else {
        lemma_decompose_upto(t, (n - 1) as nat);
        let before = decompose_upto(t, (n - 1) as nat);
        assert(c.take(n as int) == c.take(n - 1) + seq![t.child(n - 1)]);
        lemma_forest_add(c.take(n - 1), seq![t.child(n - 1)]);
        lemma_forest_one(t.child(n - 1));
        assert(t.block_ok(n - 1));
        lemma_child_well_formed(t, n - 1);
        match t.blocks[n - 1] {
            BlockView::Script(bytes) => {
                lemma_leaf(bytes);
                lemma_size_of_child(t, n - 1);
                lemma_pieces(bytes);
                lemma_forest_add(before, pieces(bytes));
                lemma_all_well_formed(before, pieces(bytes));
                lemma_forest_peel_weight_add(before, pieces(bytes));
                lemma_indivisible_weight(pieces(bytes));
            },
            BlockView::Call(id) => {
                let sub = t.subs[id as int];
                lemma_forest_add(before, seq![sub]);
                lemma_all_well_formed(before, seq![sub]);
                lemma_forest_peel_weight_add(before, seq![sub]);
                lemma_forest_weight_one(sub);
            },
        }
    }
}

/// What the balancer takes a script apart into holds its instructions, in
/// no more bytes; and it weighs less than the script where the script is
/// not taken off whole.
pub proof fn lemma_decompose(t: ScriptTree)
    requires
        well_formed(t),
    ensures
        forest_program(decompose(t)) == t.program(),
        forest_depth(decompose(t)) == t.depth(),
        forest_size(decompose(t)) <= t.size(),
        all_well_formed(decompose(t)),
        !indivisible(t) ==> forest_peel_weight(decompose(t)) < peel_weight(t),
{
    lemma_decompose_upto(t, t.blocks.len());
    lemma_children(t);
    assert(t.children().take(t.blocks.len() as int) == t.children());
}

/// What the balancer returns: the scripts that stay in the chunk, and those
/// it took back, the one taken last at the end.
pub struct Peeled {
    pub kept: Seq<ScriptTree>,
    pub removed: Seq<ScriptTree>,
}

/// The balancer: takes scripts off the end of `work` until the count `open`
/// of open conditionals is zero, or nothing is left. A script without flow
/// instruction is taken back; a single flow instruction is taken back and
/// counted; any other script is replaced by what it is made of.
pub open spec fn peel(work: Seq<ScriptTree>, open: int, removed: Seq<ScriptTree>) -> Peeled
    decreases forest_peel_weight(work),
    when all_well_formed(work)
{
    if work.len() == 0 {
        Peeled { kept: work, removed }
    } else {
        let f = work.last();
        let rest = work.drop_last();
        if f.has_flow() {
            if f.is_leaf() && f.size() == 1 {
                if open - f.depth() == 0 {
                    Peeled { kept: rest, removed: removed.push(f) }
                } else {
                    peel(rest, open - f.depth(), removed.push(f))
                }
            } else {
                proof {
                    lemma_decompose(f);
                    lemma_forest_peel_weight_add(rest, decompose(f));
                }
                peel(rest + decompose(f), open, removed)
            }
        } else {
            peel(rest, open, removed.push(f))
        }
    }
}

/// Putting a script on a stack puts its instructions in front.
pub proof fn lemma_stack_push(s: Seq<ScriptTree>, t: ScriptTree)
    ensures
        stack_program(s.push(t)) == t.program() + stack_program(s),
        forest_size(s.push(t)) == forest_size(s) + t.size(),
        forest_depth(s.push(t)) == forest_depth(s) + t.depth(),
        forest_program(s.push(t)) == forest_program(s) + t.program(),
        all_well_formed(s.push(t)) == (all_well_formed(s) && well_formed(t)),
{
    lemma_reverse_push(s, t);
    lemma_forest_add(seq![t], s.reverse());
    lemma_forest_one(t);
    assert(s.push(t) == s + seq![t]);
    lemma_forest_add(s, seq![t]);
    lemma_all_well_formed(s, seq![t]);
    if well_formed(t) {
        assert(all_well_formed(seq![t]));
    }
    if all_well_formed(seq![t]) {
        assert(well_formed(seq![t][0]));
    }
}

/// A run and its parts: the last script apart.
pub proof fn lemma_forest_last(s: Seq<ScriptTree>)
    requires
        s.len() > 0,
    ensures
        stack_program(s) == s.last().program() + stack_program(s.drop_last()),
        forest_size(s) == forest_size(s.drop_last()) + s.last().size(),
        forest_depth(s) == forest_depth(s.drop_last()) + s.last().depth(),
        forest_program(s) == forest_program(s.drop_last()) + s.last().program(),
        all_well_formed(s) == (all_well_formed(s.drop_last()) && well_formed(s.last())),
{
    assert(s.drop_last().push(s.last()) == s);
    lemma_stack_push(s.drop_last(), s.last());
}

/// What the balancer returns: the scripts that stay and those taken back
/// hold together the instructions that were there, in no more bytes; and the
/// balance of those that stay is the balance that was there less the count
/// that the balancer was given.
pub proof fn lemma_peel(work: Seq<ScriptTree>, open: int, removed: Seq<ScriptTree>)
    requires
        all_well_formed(work),
        all_well_formed(removed),
    ensures
        forest_program(peel(work, open, removed).kept) + stack_program(
            peel(work, open, removed).removed,
        ) == forest_program(work) + stack_program(removed),
        forest_size(peel(work, open, removed).kept) + forest_size(
            peel(work, open, removed).removed,
        ) <= forest_size(work) + forest_size(removed),
        all_well_formed(peel(work, open, removed).kept),
        all_well_formed(peel(work, open, removed).removed),
        peel(work, open, removed).kept.len() > 0 ==> forest_depth(peel(work, open, removed).kept)
            == forest_depth(work) - open,
    decreases forest_peel_weight(work),
{
    if work.len() > 0 {
        let f = work.last();
        let rest = work.drop_last();
        lemma_forest_last(work);
        lemma_stack_push(removed, f);
        assert(forest_program(rest) + (f.program() + stack_program(removed)) == (forest_program(
            rest,
        ) + f.program()) + stack_program(removed));
        if f.has_flow() {
            if f.is_leaf() && f.size() == 1 {
                if open - f.depth() != 0 {
                    lemma_peel(rest, open - f.depth(), removed.push(f));
                }
            } else {
                lemma_decompose(f);
                lemma_forest_peel_weight_add(rest, decompose(f));
                lemma_forest_add(rest, decompose(f));
                lemma_all_well_formed(rest, decompose(f));
                lemma_peel(rest + decompose(f), open, removed);
            }
        } else {
            lemma_unclosed_ifs_bound(f.program());
            lemma_peel(rest, open, removed.push(f));
        }
    }
}

/// The scripts that the balancer leaves in the chunk are balanced, where it
/// was given the balance of the ledger as the count.
pub proof fn lemma_peel_balanced(work: Seq<ScriptTree>, removed: Seq<ScriptTree>)
    requires
        all_well_formed(work),
        all_well_formed(removed),
    ensures
        forest_depth(peel(work, forest_depth(work), removed).kept) == 0,
{
    lemma_peel(work, forest_depth(work), removed);
    lemma_forest_empty();
    if peel(work, forest_depth(work), removed).kept.len() == 0 {
        assert(peel(work, forest_depth(work), removed).kept == Seq::<ScriptTree>::empty());
    }
}

/// How many times in a row the packing may take a script apart before it
/// gives the chunk up as full.
pub const MAX_DEPTH: usize = 8;

/// The packing of one chunk, at one moment: the stack of scripts that are
/// still to be placed, its top at the end; the scripts that the chunk holds
/// for good; the size of all that was put into the chunk, held for good or
/// not; the ledger of scripts that are in the chunk only until their
/// conditionals are closed, and the count of those; and how many times in a
/// row a script was taken apart.
pub struct PackState {
    pub stack: Seq<ScriptTree>,
    pub chunk: Seq<ScriptTree>,
    pub chunk_len: nat,
    pub ledger: Seq<ScriptTree>,
    pub open: int,
    pub depth: nat,
}

/// How the packing ends: it stops in a state, or it meets a script that
/// closes more conditionals than are open.
pub enum Packed {
    Stopped(PackState),
    NegativeBalance,
}

impl PackState {
    /// The state in which the packing of a chunk starts.
    pub open spec fn start(stack: Seq<ScriptTree>) -> PackState {
        PackState {
            stack,
            chunk: Seq::empty(),
            chunk_len: 0,
            ledger: Seq::empty(),
            open: 0,
            depth: 0,
        }
    }

    /// The state after the script `f`, which fits, was taken from the top of
    /// the stack into the chunk: for good, with all that the ledger held,
    /// where it closes the last open conditional; into the ledger otherwise.
    pub open spec fn commit(self, f: ScriptTree) -> PackState {
        if self.open + f.depth() == 0 {
            PackState {
                stack: self.stack.drop_last(),
                chunk: self.chunk + self.ledger + seq![f],
                chunk_len: self.chunk_len + f.size(),
                ledger: Seq::empty(),
                open: 0,
                depth: 0,
            }
        } else {
            PackState {
                stack: self.stack.drop_last(),
                chunk: self.chunk,
                chunk_len: self.chunk_len + f.size(),
                ledger: self.ledger.push(f),
                open: self.open + f.depth(),
                depth: 0,
            }
        }
    }

    /// The state after the script `f` on top of the stack was replaced by
    /// its children, the first of them on top.
    pub open spec fn expand(self, f: ScriptTree) -> PackState {
        PackState {
            stack: self.stack.drop_last() + f.children().reverse(),
            depth: self.depth + 1,
            ..self
        }
    }

    /// What holds of every state of a packing: all scripts are well formed;
    /// the size counts the chunk and the ledger and is within the target;
    /// the chunk is balanced; the count is the balance of the ledger, never
    /// negative, and zero exactly where the ledger is empty.
    pub open spec fn inv(self, target: nat) -> bool {
        &&& all_well_formed(self.stack)
        &&& all_well_formed(self.chunk)
        &&& all_well_formed(self.ledger)
        &&& self.chunk_len == forest_size(self.chunk) + forest_size(self.ledger)
        &&& self.chunk_len <= target
        &&& forest_depth(self.chunk) == 0
        &&& self.open == forest_depth(self.ledger)
        &&& self.open >= 0
        &&& (self.ledger.len() == 0) == (self.open == 0)
    }

    /// All instructions of a state in the order of the script: those of the
    /// chunk, of the ledger, and of the stack from the top down.
    pub open spec fn content(self) -> Seq<Instr> {
        forest_program(self.chunk) + forest_program(self.ledger) + stack_program(self.stack)
    }

    /// The bytes of a state: those in the chunk and those on the stack.
    pub open spec fn mass(self) -> nat {
        self.chunk_len + forest_size(self.stack)
    }
}

/// The packing of one chunk. It takes the script on top of the stack: into
/// the chunk where it fits; apart where it does not fit, the chunk is below
/// the target, the script is no leaf and the last `MAX_DEPTH` steps did not
/// all take a script apart; else it stops, the script back on the stack.
pub open spec fn pack(s: PackState, target: nat) -> Packed
    decreases forest_pack_weight(s.stack),
    when all_well_formed(s.stack)
{
    if s.stack.len() == 0 {
        Packed::Stopped(s)
    } else {
        let f = s.stack.last();
        if s.open + f.depth() < 0 {
            Packed::NegativeBalance
        } else if s.chunk_len + f.size() <= target {
            pack(s.commit(f), target)
        } else if s.chunk_len < target && s.depth <= MAX_DEPTH && !f.is_leaf() {
            proof {
                lemma_expand_weight(f);
                lemma_forest_pack_weight_add(s.stack.drop_last(), f.children().reverse());
            }
            pack(s.expand(f), target)
        } else {
            Packed::Stopped(s)
        }
    }
}

/// Taking a script into the chunk keeps what holds of every state, the
/// instructions and the bytes.
pub proof fn lemma_commit(s: PackState, target: nat)
    requires
        s.inv(target),
        s.stack.len() > 0,
        s.open + s.stack.last().depth() >= 0,
        s.chunk_len + s.stack.last().size() <= target,
    ensures
        s.commit(s.stack.last()).inv(target),
        s.commit(s.stack.last()).content() == s.content(),
        s.commit(s.stack.last()).mass() == s.mass(),
        forest_pack_weight(s.commit(s.stack.last()).stack) < forest_pack_weight(s.stack),
{
    let f = s.stack.last();
    let e = s.commit(f);
    lemma_forest_last(s.stack);
    lemma_stack_push(s.ledger, f);
    let c = forest_program(s.chunk);
    let l = forest_program(s.ledger);
    let r = stack_program(s.stack.drop_last());
    assert(c + l + (f.program() + r) == c + (l + f.program()) + r);
    if s.open + f.depth() == 0 {
        lemma_forest_add(s.chunk, s.ledger);
        lemma_forest_add(s.chunk + s.ledger, seq![f]);
        lemma_forest_one(f);
        lemma_all_well_formed(s.chunk, s.ledger);
        lemma_all_well_formed(s.chunk + s.ledger, seq![f]);
        assert(all_well_formed(seq![f])) by {
            assert(well_formed(seq![f][0]));
        }
        lemma_forest_empty();
        assert(c + l + f.program() + Seq::<Instr>::empty() + r == c + (l + f.program()) + r);
    }
}

/// Taking a script apart keeps what holds of every state, the instructions
/// and the bytes.
pub proof fn lemma_expand(s: PackState, target: nat)
    requires
        s.inv(target),
        s.stack.len() > 0,
        !s.stack.last().is_leaf(),
    ensures
        s.expand(s.stack.last()).inv(target),
        s.expand(s.stack.last()).content() == s.content(),
        s.expand(s.stack.last()).mass() == s.mass(),
        forest_pack_weight(s.expand(s.stack.last()).stack) < forest_pack_weight(s.stack),
{
    let f = s.stack.last();
    let rest = s.stack.drop_last();
    let kids = f.children();
    lemma_forest_last(s.stack);
    lemma_children(f);
    lemma_expand_weight(f);
    lemma_forest_pack_weight_add(rest, kids.reverse());
    lemma_reverse_add(rest, kids.reverse());
    lemma_reverse_add(kids, Seq::empty());
    lemma_forest_add(kids, rest.reverse());
    lemma_forest_add(rest, kids.reverse());
    lemma_forest_size_reverse(kids);
    lemma_all_well_formed(rest, kids.reverse());
    lemma_all_well_formed(kids, Seq::empty());
}

/// Where the packing stops, what holds of every state holds, and the
/// instructions and the bytes are those it started with.
pub proof fn lemma_pack(s: PackState, target: nat)
    requires
        s.inv(target),
    ensures
        match pack(s, target) {
            Packed::Stopped(e) => e.inv(target) && e.content() == s.content() && e.mass()
                == s.mass(),
            Packed::NegativeBalance => true,
        },
    decreases forest_pack_weight(s.stack),
{
    if s.stack.len() > 0 {
        let f = s.stack.last();
        if s.open + f.depth() < 0 {
        } else if s.chunk_len + f.size() <= target {
            lemma_commit(s, target);
            lemma_pack(s.commit(f), target);
        } else if s.chunk_len < target && s.depth <= MAX_DEPTH && !f.is_leaf() {
            lemma_expand(s, target);
            lemma_pack(s.expand(f), target);
        }
    }
}

/// What the making of one chunk gives: the scripts of the chunk, its size
/// and the stack that is left; or the reason why there is no chunk.
pub enum Step {
    Chunk { scripts: Seq<ScriptTree>, size: nat, stack: Seq<ScriptTree> },
    Failed(ChunkError),
}

/// The making of one chunk from the top of `stack`: the packing, and where
/// it stops with conditionals open, the balancer on the ledger. What the
/// balancer keeps joins the chunk, what it takes back goes on the stack,
/// and the size of the chunk is lowered by what was taken out of it.
pub open spec fn next_chunk(stack: Seq<ScriptTree>, target: nat) -> Step {
    match pack(PackState::start(stack), target) {
        Packed::NegativeBalance => Step::Failed(ChunkError::NegativeBalance),
        Packed::Stopped(s) => if s.open == 0 {
            Step::Chunk { scripts: s.chunk, size: s.chunk_len, stack: s.stack }
        } else {
            let Peeled { kept, removed } = peel(s.ledger, s.open, Seq::empty());
            Step::Chunk {
                scripts: s.chunk + kept,
                size: (s.chunk_len - (forest_size(s.ledger) - forest_size(kept))) as nat,
                stack: s.stack + removed,
            }
        },
    }
}

/// A chunk and the stack it leaves hold the instructions of the stack it
/// was made from, in their order; the chunk closes every conditional it
/// opens; its size is the sum of the sizes of its scripts and within the
/// target; and chunk and stack together have no more bytes than the stack
/// had.
pub proof fn lemma_next_chunk(stack: Seq<ScriptTree>, target: nat)
    requires
        all_well_formed(stack),
    ensures
        match next_chunk(stack, target) {
            Step::Chunk { scripts, size, stack: left } => {
                &&& forest_program(scripts) + stack_program(left) == stack_program(stack)
                &&& forest_depth(scripts) == 0
                &&& size == forest_size(scripts)
                &&& size <= target
                &&& size + forest_size(left) <= forest_size(stack)
                &&& all_well_formed(scripts)
                &&& all_well_formed(left)
            },
            Step::Failed(_) => true,
        },
{
    let start = PackState::start(stack);
    lemma_forest_empty();
    assert(Seq::<Instr>::empty() + Seq::<Instr>::empty() + stack_program(stack) == stack_program(
        stack,
    ));
    lemma_pack(start, target);
    match pack(start, target) {
        Packed::NegativeBalance => {},
        Packed::Stopped(s) => {
            if s.open == 0 {
                assert(s.ledger == Seq::<ScriptTree>::empty());
                assert(forest_program(s.chunk) + Seq::<Instr>::empty() == forest_program(
                    s.chunk,
                ));
            } else {
                lemma_peel(s.ledger, s.open, Seq::empty());
                lemma_peel_balanced(s.ledger, Seq::empty());
                match peel(s.ledger, s.open, Seq::empty()) {
                    Peeled { kept, removed } => {
                        lemma_forest_add(s.chunk, kept);
                        lemma_all_well_formed(s.chunk, kept);
                        lemma_all_well_formed(s.stack, removed);
                        lemma_forest_add(s.stack, removed);
                        lemma_reverse_add(s.stack, removed);
                        lemma_forest_add(removed.reverse(), s.stack.reverse());
                        assert(Seq::<ScriptTree>::empty().reverse()
                            == Seq::<ScriptTree>::empty());
                        let c = forest_program(s.chunk);
                        let k = forest_program(kept);
                        let t = stack_program(removed);
                        let r = stack_program(s.stack);
                        assert(forest_program(s.ledger) + Seq::<Instr>::empty()
                            == forest_program(s.ledger));
                        assert((c + k) + (t + r) == c + (k + t) + r);
                    },
                }
            }
        },
    }
}

/// A chunk as the chunker hands it out.
pub struct ChunkModel {
    pub scripts: Seq<ScriptTree>,
    pub size: nat,
}

/// The chunks of the stack of scripts `stack`: one chunk after the other
/// until the stack is empty. It fails where the making of a chunk fails, and
/// where a chunk comes out empty.
pub open spec fn chunking(stack: Seq<ScriptTree>, target: nat) -> Result<
    Seq<ChunkModel>,
    ChunkError,
>
    decreases forest_size(stack),
    when all_well_formed(stack)
{
    if stack.len() == 0 {
        Ok(Seq::empty())
    } else {
        match next_chunk(stack, target) {
            Step::Failed(e) => Err(e),
            Step::Chunk { scripts, size, stack: left } => {
                if size == 0 {
                    Err(ChunkError::ZeroSizeChunk)
                } else {
                    proof {
                        lemma_next_chunk(stack, target);
                    }
                    match chunking(left, target) {
                        Err(e) => Err(e),
                        Ok(rest) => Ok(seq![ChunkModel { scripts, size }] + rest),
                    }
                }
            },
        }
    }
}

/// The instructions of a run of chunks, one chunk after the other.
pub open spec fn chunks_program(chunks: Seq<ChunkModel>) -> Seq<Instr>
    decreases chunks.len(),
{
    if chunks.len() == 0 {
        Seq::empty()
    } else {
        chunks_program(chunks.drop_last()) + forest_program(chunks.last().scripts)
    }
}

/// What is asked of a chunk: every conditional it opens it closes, its size
/// is the sum of the sizes of its scripts, it is not empty and within the
/// target.
pub open spec fn chunk_valid(c: ChunkModel, target: nat) -> bool {
    &&& forest_depth(c.scripts) == 0
    &&& c.size == forest_size(c.scripts)
    &&& 0 < c.size <= target
    &&& all_well_formed(c.scripts)
}

/// The chunks are a partition of the script on the stack: one after the
/// other they hold its instructions in their order, and each is as is asked
/// of a chunk.
pub open spec fn partitions(chunks: Seq<ChunkModel>, stack: Seq<ScriptTree>, target: nat) -> bool {
    &&& chunks_program(chunks) == stack_program(stack)
    &&& forall|i: int| 0 <= i < chunks.len() ==> chunk_valid(#[trigger] chunks[i], target)
}

/// The instructions of two runs of chunks follow one another.
pub proof fn lemma_chunks_program_add(a: Seq<ChunkModel>, b: Seq<ChunkModel>)
    ensures
        chunks_program(a + b) == chunks_program(a) + chunks_program(b),
    decreases b.len(),
{
    if b.len() == 0 {
        assert(a + b == a);
        assert(chunks_program(a) + Seq::<Instr>::empty() == chunks_program(a));
    } else {
        lemma_chunks_program_add(a, b.drop_last());
        assert((a + b).drop_last() == a + b.drop_last());
        assert(chunks_program(a) + (chunks_program(b.drop_last()) + forest_program(
            b.last().scripts,
        )) == (chunks_program(a) + chunks_program(b.drop_last())) + forest_program(
            b.last().scripts,
        ));
    }
}

/// The instructions of a run of one chunk are those of its scripts.
pub proof fn lemma_chunks_program_one(c: ChunkModel)
    ensures
        chunks_program(seq![c]) == forest_program(c.scripts),
{
    assert(seq![c].drop_last() == Seq::<ChunkModel>::empty());
    assert(chunks_program(Seq::<ChunkModel>::empty()) == Seq::<Instr>::empty());
    assert(Seq::<Instr>::empty() + forest_program(c.scripts) == forest_program(c.scripts));
}

/// The chunks of a script, one after the other, hold the instructions of
/// the script in their order, and each of them closes every conditional it
/// opens and is within the target size.
pub proof fn lemma_chunking(stack: Seq<ScriptTree>, target: nat)
    requires
        all_well_formed(stack),
    ensures
        match chunking(stack, target) {
            Ok(chunks) => partitions(chunks, stack, target),
            Err(_) => true,
        },
    decreases forest_size(stack),
{
    if stack.len() == 0 {
        assert(stack.reverse() == Seq::<ScriptTree>::empty());
        lemma_forest_empty();
    } else {
        lemma_next_chunk(stack, target);
        match next_chunk(stack, target) {
            Step::Failed(e) => {},
            Step::Chunk { scripts, size, stack: left } => {
                if size != 0 {
                    lemma_chunking(left, target);
                    match chunking(left, target) {
                        Err(e) => {},
                        Ok(rest) => {
                            let first = ChunkModel { scripts, size };
                            let chunks = seq![first] + rest;
                            lemma_chunks_program_add(seq![first], rest);
                            lemma_chunks_program_one(first);
                            assert forall|i: int| 0 <= i < chunks.len() implies chunk_valid(
                                #[trigger] chunks[i],
                                target,
                            ) by {
                                if i > 0 {
                                    assert(chunks[i] == rest[i - 1]);
                                }
                            }
                        },
                    }
                }
            },
        }
    }
}

} // verus!
