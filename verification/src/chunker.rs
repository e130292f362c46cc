//! The chunker: packs a structured script into chunks of bounded size in
//! which every conditional is closed.

use vstd::prelude::*;
use vstd::pervasive::unreached;
use crate::analyzer::{ChunkStats, StackStatus};
use crate::builder::{
    all_wf, all_well_formed, forest_depth, forest_program, forest_size, lemma_all_wf,
    lemma_depth_bound,
    lemma_forest_add, lemma_forest_empty, lemma_forest_size_take, lemma_views, views,
    well_formed, Block, ScriptTree, StructuredScript,
};
use crate::error::ChunkError;
use crate::model::{
    chunking, decompose, decompose_upto, forest_pack_weight, forest_peel_weight, lemma_chunking,
    lemma_commit, lemma_decompose, lemma_expand, lemma_forest_last, lemma_forest_peel_weight_add,
    lemma_next_chunk, lemma_peel, lemma_peel_balanced, lemma_stack_push, next_chunk, pack, partitions, peel,
    stack_program,
    ChunkModel, PackState, Packed, Peeled, Step, MAX_DEPTH,
};
use crate::script::lemma_unclosed_ifs_bound;
use crate::split::split_script;

verus! {

/// The undo ledger: the scripts that were put into the chunk under
/// construction while conditionals are open, with their size and the count
/// of the conditionals that they leave open.
pub struct UndoInfo {
    call_stack: Vec<StructuredScript>,
    size: usize,
    num_unclosed_ifs: i128,
}

impl UndoInfo {
    /// The scripts of the ledger, the first that was added first.
    pub closed spec fn scripts(&self) -> Seq<StructuredScript> {
        self.call_stack@
    }

    /// The running size of the ledger.
    pub closed spec fn total(&self) -> nat {
        self.size as nat
    }

    /// The running count of open conditionals.
    pub closed spec fn open_count(&self) -> int {
        self.num_unclosed_ifs as int
    }

    /// The trees of the scripts of the ledger.
    pub open spec fn ledger(&self) -> Seq<ScriptTree> {
        views(self.scripts())
    }

    /// The scripts are consistent, and size and count are those of the
    /// scripts.
    pub open spec fn wf(&self) -> bool {
        &&& all_wf(self.scripts())
        &&& self.total() == forest_size(self.ledger())
        &&& self.open_count() == forest_depth(self.ledger())
    }

    /// The empty ledger.
    pub fn new() -> (r: Self)
        ensures
            r.wf(),
            r.scripts().len() == 0,
            r.total() == 0,
            r.open_count() == 0,
    {
        proof {
            lemma_forest_empty();
            assert(views(Seq::<StructuredScript>::empty()) == Seq::<ScriptTree>::empty());
        }
        UndoInfo { call_stack: Vec::new(), size: 0, num_unclosed_ifs: 0 }
    }

    /// Empties the ledger and hands out the scripts it held.
    pub fn reset(&mut self) -> (r: Vec<StructuredScript>)
        ensures
            r@ == old(self).scripts(),
            final(self).scripts().len() == 0,
            final(self).total() == 0,
            final(self).open_count() == 0,
            final(self).wf(),
    {
        proof {
            lemma_forest_empty();
            assert(views(Seq::<StructuredScript>::empty()) == Seq::<ScriptTree>::empty());
        }
        self.size = 0;
        self.num_unclosed_ifs = 0;
        let mut held: Vec<StructuredScript> = Vec::new();
        core::mem::swap(&mut self.call_stack, &mut held);
        held
    }

    /// Adds a script at the end of the ledger, with its size and its count.
    pub fn update(&mut self, builder: StructuredScript)
        requires
            old(self).wf(),
            builder.wf(),
            old(self).total() + builder@.size() <= usize::MAX,
        ensures
            final(self).wf(),
            final(self).scripts() == old(self).scripts().push(builder),
            final(self).total() == old(self).total() + builder@.size(),
            final(self).open_count() == old(self).open_count() + builder@.depth(),
    {
        proof {
            lemma_views(self.call_stack@, Seq::empty());
            lemma_stack_push(views(self.call_stack@), builder@);
            lemma_depth_bound(views(self.call_stack@));
            assert(all_wf(self.call_stack@.push(builder))) by {
                assert forall|i: int| 0 <= i < self.call_stack@.push(builder).len() implies (
                #[trigger] self.call_stack@.push(builder)[i]).wf() by {
                    if i < self.call_stack@.len() {
                        assert(self.call_stack@[i].wf());
                    }
                }
            }
        }
        self.size = self.size + builder.len();
        self.num_unclosed_ifs = self.num_unclosed_ifs + builder.num_unclosed_ifs() as i128;
        self.call_stack.push(builder);
    }
}

/// A chunk: scripts that are run one after the other, their size, and,
/// once a stack analysis has run, the interface of the chunk.
#[derive(Debug)]
pub struct Chunk {
    scripts: Vec<StructuredScript>,
    size: usize,
    stats: Option<ChunkStats>,
}

impl Clone for Chunk {
    fn clone(&self) -> (r: Self)
        ensures
            r.model() == self.model(),
            r.spec_stats() == self.spec_stats(),
            all_wf(self.spec_scripts()) ==> all_wf(r.spec_scripts()),
    {
        let mut scripts: Vec<StructuredScript> = Vec::new();
        let mut i: usize = 0;
        while i < self.scripts.len()
            invariant
                i <= self.scripts.len(),
                scripts.len() == i,
                forall|k: int| 0 <= k < i ==> scripts[k]@ == self.scripts[k]@,
                forall|k: int| 0 <= k < i ==> (self.scripts[k].wf() ==> (#[trigger] scripts[k]).wf()),
            decreases self.scripts.len() - i,
        {
            scripts.push(self.scripts[i].clone());
            i = i + 1;
        }
        assert(views(scripts@) =~= views(self.scripts@));
        Chunk { scripts, size: self.size, stats: self.stats }
    }
}

impl Chunk {
    /// The scripts of the chunk in order.
    pub closed spec fn spec_scripts(&self) -> Seq<StructuredScript> {
        self.scripts@
    }

    /// The size that the chunk was given.
    pub closed spec fn spec_size(&self) -> nat {
        self.size as nat
    }

    /// The interface of the chunk, once it is known.
    pub closed spec fn spec_stats(&self) -> Option<ChunkStats> {
        self.stats
    }

    /// The chunk as mathematics: the trees of its scripts, and its size.
    pub open spec fn model(&self) -> ChunkModel {
        ChunkModel { scripts: views(self.spec_scripts()), size: self.spec_size() }
    }

    /// A chunk of the given scripts and size, not yet analysed.
    pub fn new(scripts: Vec<StructuredScript>, size: usize) -> (r: Chunk)
        ensures
            r.spec_scripts() == scripts@,
            r.spec_size() == size,
            r.spec_stats() is None,
    {
        Chunk { scripts, size, stats: None }
    }

    /// The scripts of the chunk; the chunk is used up.
    pub fn scripts(self) -> (r: Vec<StructuredScript>)
        ensures
            r@ == self.spec_scripts(),
    {
        self.scripts
    }

    /// The size in bytes.
    pub fn size(&self) -> (n: usize)
        ensures
            n == self.spec_size(),
    {
        self.size
    }

    /// Attaches to the chunk the interface that `status` describes. Fails,
    /// and leaves the chunk as it is, where `status` is not valid.
    pub fn attach(&mut self, status: &StackStatus) -> (r: Result<(), ChunkError>)
        ensures
            final(self).spec_scripts() == old(self).spec_scripts(),
            final(self).spec_size() == old(self).spec_size(),
            status.valid() ==> r is Ok && final(self).spec_stats() == Some(status.stats()),
            !status.valid() ==> r == Err::<(), ChunkError>(ChunkError::InvalidStackStatus)
                && final(self).spec_stats() == old(self).spec_stats(),
    {
        match ChunkStats::from_status(status) {
            Some(stats) => {
                self.stats = Some(stats);
                Ok(())
            },
            None => Err(ChunkError::InvalidStackStatus),
        }
    }

    /// The interface of the chunk, once a stack analysis has run.
    pub fn stats(&self) -> (r: Option<ChunkStats>)
        ensures
            r == self.spec_stats(),
    {
        self.stats
    }
}

/// The chunking engine: the target size of a chunk, the chunks made so far,
/// and the stack of scripts that are still to be placed, its top at the end.
#[derive(Debug)]
pub struct Chunker {
    pub target_chunk_size: usize,
    pub tolerance: usize,
    pub chunks: Vec<Chunk>,
    pub call_stack: Vec<StructuredScript>,
}

/// The chunks of a vector as mathematics.
pub open spec fn models(v: Seq<Chunk>) -> Seq<ChunkModel> {
    v.map_values(|c: Chunk| c.model())
}

/// The result of a chunking with the chunks `done` before it.
pub open spec fn after(done: Seq<ChunkModel>, rest: Result<Seq<ChunkModel>, ChunkError>) -> Result<
    Seq<ChunkModel>,
    ChunkError,
> {
    match rest {
        Ok(chunks) => Ok(done + chunks),
        Err(e) => Err(e),
    }
}

/// The sizes `sizes` are those of the chunks `chunks`, one for one.
pub open spec fn sizes_of(sizes: Seq<usize>, chunks: Seq<ChunkModel>) -> bool {
    &&& sizes.len() == chunks.len()
    &&& forall|i: int| 0 <= i < sizes.len() ==> sizes[i] == (#[trigger] chunks[i]).size
}

/// The chunk `c` carries the interface that the analysis `analyzer` gave
/// for its scripts.
pub open spec fn analyzed<F: Fn(&Vec<StructuredScript>) -> StackStatus>(c: Chunk, analyzer: F) -> bool {
    exists|scripts: Vec<StructuredScript>, status: StackStatus|
        scripts@ == c.spec_scripts() && call_ensures(analyzer, (&scripts,), status)
            && status.valid() && c.spec_stats() == Some(status.stats())
}

/// The analysis `analyzer` gave a status that is not valid for scripts with
/// the trees `scripts`.
pub open spec fn rejected<F: Fn(&Vec<StructuredScript>) -> StackStatus>(
    scripts: Seq<ScriptTree>,
    analyzer: F,
) -> bool {
    exists|v: Vec<StructuredScript>, status: StackStatus|
        views(v@) == scripts && call_ensures(analyzer, (&v,), status) && !status.valid()
}

impl Chunker {
    /// The target size of a chunk.
    pub open spec fn target(&self) -> nat {
        self.target_chunk_size as nat
    }

    /// The slack that was asked for. The packing does not look at it.
    pub open spec fn slack(&self) -> nat {
        self.tolerance as nat
    }

    /// The scripts on the stack are consistent.
    pub open spec fn wf(&self) -> bool {
        all_wf(self.call_stack@)
    }

    /// The trees of the scripts on the stack.
    pub open spec fn stack(&self) -> Seq<ScriptTree> {
        views(self.call_stack@)
    }

    /// What `find_chunks` makes of the chunker `pre`: where the chunking of
    /// its stack succeeds, the sizes of the chunks as the result, the chunks
    /// added to those that were there, and the stack empty; the chunks being
    /// a partition of the script that was on the stack. Where the chunking
    /// fails, its error.
    pub open spec fn found(pre: Chunker, post: Chunker, r: Result<Vec<usize>, ChunkError>) -> bool {
        match chunking(pre.stack(), pre.target()) {
            Ok(chunks) => {
                &&& r matches Ok(sizes) && sizes_of(sizes@, chunks)
                &&& models(post.chunks@) == models(pre.chunks@) + chunks
                &&& post.call_stack@.len() == 0
                &&& partitions(chunks, pre.stack(), pre.target())
            },
            Err(e) => r matches Err(x) && x == e,
        }
    }

    /// A chunker with `top_level_script` on its stack and no chunk made.
    pub fn new(top_level_script: StructuredScript, target_chunk_size: usize, tolerance: usize) -> (r:
        Self)
        requires
            top_level_script.wf(),
        ensures
            r.wf(),
            r.target() == target_chunk_size,
            r.slack() == tolerance,
            r.chunks@.len() == 0,
            r.call_stack@ == seq![top_level_script],
    {
        let mut call_stack: Vec<StructuredScript> = Vec::new();
        call_stack.push(top_level_script);
        assert(call_stack@ =~= seq![top_level_script]);
        Chunker { target_chunk_size, tolerance, chunks: Vec::new(), call_stack }
    }

    /// The balancer. Takes scripts off the end of the ledger until the
    /// conditionals that are left in it are all closed: a script without
    /// flow instruction is taken off, a single flow instruction is taken off
    /// and counted, any other script is replaced by its sub-scripts and the
    /// pieces of its inline segments. What was taken off goes on the stack,
    /// what was taken off last on top. Returns the scripts that stay, and by
    /// how much the ledger has shrunk.
    ///
    /// A ledger without open conditional is dropped as it is.
    #[verifier::loop_isolation(false)]
    pub fn undo(&mut self, undo_info: UndoInfo) -> (r: (Vec<StructuredScript>, usize))
        requires
            old(self).wf(),
            undo_info.wf(),
        ensures
            final(self).wf(),
            final(self).target() == old(self).target(),
            final(self).slack() == old(self).slack(),
            final(self).chunks == old(self).chunks,
            all_wf(r.0@),
            forest_depth(views(r.0@)) == 0,
            r.1 <= undo_info.total(),
            undo_info.open_count() == 0 ==> r.0@.len() == 0 && r.1 == 0 && final(self).call_stack@
                == old(self).call_stack@,
            undo_info.open_count() != 0 ==> {
                let Peeled { kept, removed } = peel(
                    undo_info.ledger(),
                    undo_info.open_count(),
                    Seq::empty(),
                );
                &&& views(r.0@) == kept
                &&& r.1 == forest_size(undo_info.ledger()) - forest_size(kept)
                &&& final(self).stack() == old(self).stack() + removed
            },
    {
        if undo_info.num_unclosed_ifs == 0 {
            proof {
                lemma_forest_empty();
                assert(views(Seq::<StructuredScript>::empty()) == Seq::<ScriptTree>::empty());
            }
            return (Vec::new(), 0);
        }
        let ghost ledger = undo_info.ledger();
        let ghost open0 = undo_info.open_count();
        let total: usize = undo_info.size;
        let mut open: i128 = undo_info.num_unclosed_ifs;
        let mut work: Vec<StructuredScript> = undo_info.call_stack;
        let mut removed: Vec<StructuredScript> = Vec::new();
        let mut done: bool = false;
        proof {
            lemma_all_wf(work@);
            lemma_forest_empty();
            assert(views(removed@) == Seq::<ScriptTree>::empty());
            lemma_peel(ledger, open0, Seq::empty());
            lemma_peel_balanced(ledger, Seq::empty());
        }
        while !done
            invariant
                all_wf(work@),
                all_wf(removed@),
                all_well_formed(ledger),
                open == forest_depth(views(work@)) - forest_depth(ledger) + open0,
                forest_size(views(work@)) <= total,
                total == forest_size(ledger),
                open0 == forest_depth(ledger),
                !done ==> peel(views(work@), open as int, views(removed@)) == peel(
                    ledger,
                    open0,
                    Seq::empty(),
                ),
                done ==> peel(ledger, open0, Seq::empty()) == (Peeled {
                    kept: views(work@),
                    removed: views(removed@),
                }),
            decreases forest_peel_weight(views(work@)) + (if done { 0nat } else { 1nat }),
        {
            let ghost before = work@;
            proof {
                lemma_all_wf(work@);
                lemma_all_wf(removed@);
                lemma_views(work@, Seq::empty());
                lemma_views(removed@, Seq::empty());
                lemma_depth_bound(views(work@));
            }
            let f = match work.pop() {
                Some(f) => f,
                None => {
                    proof {
                        assert(views(work@) == Seq::<ScriptTree>::empty());
                    }
                    done = true;
                    continue;
                },
            };
            proof {
                assert(work@ == before.drop_last());
                assert(f == before.last());
                assert(f.wf());
                lemma_forest_last(views(before));
                lemma_all_wf(work@);
                lemma_depth_bound(views(work@));
                lemma_views(work@, Seq::empty());
            }
            if f.contains_flow_op() {
                if f.is_script_buf() && f.len() == 1 {
                    open = open - f.num_unclosed_ifs() as i128;
                    proof {
                        assert(all_wf(removed@.push(f))) by {
                            lemma_views(removed@, seq![f]);
                            assert(removed@.push(f) == removed@ + seq![f]);
                        }
                    }
                    removed.push(f);
                    if open == 0 {
                        done = true;
                    }
                } else {
                    let ghost rest = work@;
                    let blocks = f.blocks();
                    let n: usize = blocks.len();
                    let mut i: usize = 0;
                    proof {
                        f.lemma_wf();
                        assert(views(rest) + decompose_upto(f@, 0) == views(rest));
                        lemma_decompose(f@);
                    }
                    while i < n
                        invariant
                            i <= n,
                            n == blocks.len(),
                            n == f@.blocks.len(),
                            forall|k: int| 0 <= k < n ==> (#[trigger] blocks[k])@ == f@.blocks[k],
                            f.wf(),
                            well_formed(f@),
                            all_wf(rest),
                            all_wf(work@),
                            views(work@) == views(rest) + decompose_upto(f@, i as nat),
                        decreases n - i,
                    {
                        let ghost sofar = work@;
                        assert(f@.block_ok(i as int));
                        match &blocks[i] {
                            Block::Call(id) => {
                                let sub = match f.resolve(*id) {
                                    Some(s) => s,
                                    None => unreached(),
                                };
                                proof {
                                    lemma_views(sofar, seq![sub]);
                                    assert(sofar.push(sub) == sofar + seq![sub]);
                                    assert(all_wf(seq![sub])) by {
                                        assert(seq![sub][0].wf());
                                    }
                                    assert(views(seq![sub]) == seq![sub@]);
                                    assert(views(rest) + (decompose_upto(f@, i as nat) + seq![sub@])
                                        == (views(rest) + decompose_upto(f@, i as nat)) + seq![
                                        sub@,
                                    ]);
                                }
                                work.push(sub);
                            },
                            Block::Script(bytes) => {
                                let mut parts = split_script(bytes);
                                proof {
                                    lemma_views(sofar, parts@);
                                    assert(views(rest) + (decompose_upto(f@, i as nat) + views(
                                        parts@,
                                    )) == (views(rest) + decompose_upto(f@, i as nat)) + views(
                                        parts@,
                                    ));
                                }
                                work.append(&mut parts);
                            },
                        }
                        i = i + 1;
                    }
                    proof {
                        lemma_forest_add(views(rest), decompose(f@));
                        lemma_forest_peel_weight_add(views(rest), decompose(f@));
                    }
                }
            } else {
                proof {
                    lemma_unclosed_ifs_bound(f@.program());
                    assert(all_wf(removed@.push(f))) by {
                        lemma_views(removed@, seq![f]);
                        assert(removed@.push(f) == removed@ + seq![f]);
                    }
                }
                removed.push(f);
            }
        }
        let mut kept_size: usize = 0;
        let mut j: usize = 0;
        proof {
            assert(views(work@).take(0) == Seq::<ScriptTree>::empty());
            lemma_forest_empty();
        }
        while j < work.len()
            invariant
                j <= work.len(),
                all_wf(work@),
                forest_size(views(work@)) <= total,
                kept_size == forest_size(views(work@).take(j as int)),
            decreases work.len() - j,
        {
            proof {
                lemma_views(work@, Seq::empty());
                lemma_forest_size_take(views(work@), j as int);
                lemma_forest_size_take(views(work@), j + 1);
                assert(work@[j as int].wf());
            }
            kept_size = kept_size + work[j].len();
            j = j + 1;
        }
        proof {
            lemma_views(work@, Seq::empty());
            assert(views(work@).take(j as int) == views(work@));
            lemma_views(self.call_stack@, removed@);
        }
        self.call_stack.append(&mut removed);
        (work, total - kept_size)
    }

    /// Puts the children of `f` on the stack, the first of them on top: for
    /// a call a copy of the sub-script it names, for an inline segment a
    /// leaf around a copy of it.
    fn push_children(&mut self, f: &StructuredScript)
        requires
            old(self).wf(),
            f.wf(),
        ensures
            final(self).wf(),
            final(self).target_chunk_size == old(self).target_chunk_size,
            final(self).tolerance == old(self).tolerance,
            final(self).chunks == old(self).chunks,
            final(self).stack() == old(self).stack() + f@.children().reverse(),
    {
        let ghost rest = self.call_stack@;
        let ghost kids = f@.children();
        let blocks = f.blocks();
        let n: usize = blocks.len();
        let mut i: usize = n;
        proof {
            f.lemma_wf();
            assert(kids.reverse().take(0) == Seq::<ScriptTree>::empty());
            assert(views(rest) + Seq::<ScriptTree>::empty() == views(rest));
        }
        while i > 0
            invariant
                i <= n,
                n == blocks.len(),
                n == f@.blocks.len(),
                kids == f@.children(),
                forall|k: int| 0 <= k < n ==> (#[trigger] blocks[k])@ == f@.blocks[k],
                f.wf(),
                well_formed(f@),
                all_wf(self.call_stack@),
                views(self.call_stack@) == views(rest) + kids.reverse().take(n - i),
                self.target_chunk_size == old(self).target_chunk_size,
                self.tolerance == old(self).tolerance,
                self.chunks == old(self).chunks,
            decreases i,
        {
            i = i - 1;
            let ghost sofar = self.call_stack@;
            assert(f@.block_ok(i as int));
            let child = match &blocks[i] {
                Block::Call(id) => match f.resolve(*id) {
                    Some(s) => s,
                    None => unreached(),
                },
                Block::Script(bytes) => {
                    let copy = bytes.clone();
                    assert(copy@ =~= bytes@);
                    match StructuredScript::from_script(copy) {
                        Some(s) => s,
                        None => unreached(),
                    }
                },
            };
            proof {
                assert(child@ == kids[i as int]);
                lemma_views(sofar, seq![child]);
                assert(sofar.push(child) == sofar + seq![child]);
                assert(all_wf(seq![child])) by {
                    assert(seq![child][0].wf());
                }
                assert(views(seq![child]) == seq![child@]);
                let m = n - i - 1;
                assert(kids.reverse()[m] == kids[i as int]);
                assert(kids.reverse().take(m + 1) == kids.reverse().take(m) + seq![child@]);
                assert(views(rest) + (kids.reverse().take(m) + seq![child@]) == (views(rest)
                    + kids.reverse().take(m)) + seq![child@]);
            }
            self.call_stack.push(child);
        }
        proof {
            assert(kids.reverse().take(n as int) == kids.reverse());
        }
    }

    /// Makes the next chunk from the top of the stack: packs scripts into it
    /// while they fit, takes a script that does not fit apart where that may
    /// help, and at the end lets the balancer take back what would leave a
    /// conditional open.
    pub fn find_next_chunk(&mut self) -> (r: Result<Chunk, ChunkError>)
        requires
            old(self).wf(),
        ensures
            final(self).wf(),
            final(self).target_chunk_size == old(self).target_chunk_size,
            final(self).tolerance == old(self).tolerance,
            final(self).chunks == old(self).chunks,
            match next_chunk(old(self).stack(), old(self).target()) {
                Step::Chunk { scripts, size, stack } => r matches Ok(c) && c.model() == (ChunkModel {
                    scripts,
                    size,
                }) && c.spec_stats() is None && all_wf(c.spec_scripts()) && final(self).stack()
                    == stack,
                Step::Failed(e) => r matches Err(x) && x == e,
            },
            r matches Ok(c) ==> {
                &&& forest_program(c.model().scripts) + stack_program(final(self).stack())
                    == stack_program(old(self).stack())
                &&& forest_depth(c.model().scripts) == 0
                &&& c.model().size == forest_size(c.model().scripts)
                &&& c.model().size <= old(self).target()
                &&& c.model().size + forest_size(final(self).stack()) <= forest_size(
                    old(self).stack(),
                )
            },
    {
        let mut packing = Packing::new();
        let mut stopped: bool = false;
        let ghost target = self.target();
        let ghost start = PackState::start(self.stack());
        proof {
            lemma_all_wf(self.call_stack@);
            lemma_forest_empty();
            lemma_next_chunk(self.stack(), target);
            assert(packing.state(self.stack()) == start);
        }
        while !stopped
            invariant
                self.wf(),
                packing.wf(),
                self.target_chunk_size == old(self).target_chunk_size,
                self.tolerance == old(self).tolerance,
                self.chunks == old(self).chunks,
                target == old(self).target(),
                start == PackState::start(old(self).stack()),
                packing.state(self.stack()).inv(target),
                pack(packing.state(self.stack()), target) == pack(start, target),
                stopped ==> pack(start, target) == Packed::Stopped(packing.state(self.stack())),
            decreases forest_pack_weight(self.stack()) + (if stopped { 0nat } else { 1nat }),
        {
            let ghost st = packing.state(self.stack());
            let ghost before = self.call_stack@;
            proof {
                lemma_views(before, Seq::empty());
            }
            match self.call_stack.pop() {
                None => {
                    stopped = true;
                },
                Some(f) => {
                    proof {
                        assert(self.call_stack@ == before.drop_last());
                        assert(f == before.last());
                        assert(f.wf());
                        assert(st.stack.last() == f@);
                        assert(st.stack.drop_last() == self.stack());
                    }
                    if packing.closes_too_many(&f) {
                        proof {
                            assert(pack(st, target) == Packed::NegativeBalance);
                        }
                        return Err(ChunkError::NegativeBalance);
                    }
                    if f.len() <= self.target_chunk_size - packing.chunk_len {
                        proof {
                            lemma_commit(st, target);
                        }
                        packing.commit(f, Ghost(st));
                    } else if packing.chunk_len < self.target_chunk_size && packing.depth
                        <= MAX_DEPTH {
                        if f.is_script_buf() {
                            self.call_stack.push(f);
                            proof {
                                assert(self.call_stack@ == before);
                            }
                            stopped = true;
                        } else {
                            proof {
                                lemma_expand(st, target);
                            }
                            self.push_children(&f);
                            packing.depth = packing.depth + 1;
                            proof {
                                assert(packing.state(self.stack()) == st.expand(f@));
                            }
                        }
                    } else {
                        self.call_stack.push(f);
                        proof {
                            assert(self.call_stack@ == before);
                        }
                        stopped = true;
                    }
                },
            }
        }
        let ghost end = packing.state(self.stack());
        let Packing { chunk_scripts, chunk_len, undo_info, depth } = packing;
        let mut chunk_scripts = chunk_scripts;
        proof {
            lemma_forest_empty();
            lemma_peel(end.ledger, end.open, Seq::empty());
        }
        let (mut kept, removed_len) = self.undo(undo_info);
        proof {
            lemma_views(chunk_scripts@, kept@);
            if end.open == 0 {
                assert(kept@ == Seq::<StructuredScript>::empty());
                assert(views(chunk_scripts@) + Seq::<ScriptTree>::empty() == views(
                    chunk_scripts@,
                ));
            }
        }
        chunk_scripts.append(&mut kept);
        Ok(Chunk::new(chunk_scripts, chunk_len - removed_len))
    }

    /// Makes chunks until the stack is empty, adds them to `chunks` and
    /// returns their sizes. Fails where a chunk cannot be made or comes out
    /// empty.
    pub fn find_chunks(&mut self) -> (r: Result<Vec<usize>, ChunkError>)
        requires
            old(self).wf(),
        ensures
            final(self).wf(),
            final(self).target_chunk_size == old(self).target_chunk_size,
            final(self).tolerance == old(self).tolerance,
            Chunker::found(*old(self), *final(self), r),
    {
        let mut result: Vec<usize> = Vec::new();
        let ghost mut done: Seq<ChunkModel> = Seq::empty();
        let ghost target = self.target();
        let ghost stack0 = self.stack();
        proof {
            lemma_all_wf(self.call_stack@);
            lemma_chunking(stack0, target);
            assert(models(self.chunks@) + done == models(self.chunks@));
            match chunking(stack0, target) {
                Ok(chunks) => {
                    assert(done + chunks == chunks);
                },
                Err(e) => {},
            }
        }
        while !self.call_stack.is_empty()
            invariant
                self.wf(),
                self.target_chunk_size == old(self).target_chunk_size,
                self.tolerance == old(self).tolerance,
                target == old(self).target(),
                stack0 == old(self).stack(),
                after(done, chunking(self.stack(), target)) == chunking(stack0, target),
                models(self.chunks@) == models(old(self).chunks@) + done,
                sizes_of(result@, done),
            decreases forest_size(self.stack()),
        {
            let ghost stack = self.stack();
            let ghost made = self.chunks@;
            proof {
                lemma_all_wf(self.call_stack@);
                lemma_views(self.call_stack@, Seq::empty());
                lemma_next_chunk(stack, target);
            }
            let chunk = match self.find_next_chunk() {
                Ok(c) => c,
                Err(e) => {
                    return Err(e);
                },
            };
            if chunk.size() == 0 {
                return Err(ChunkError::ZeroSizeChunk);
            }
            proof {
                let m = chunk.model();
                let left = self.stack();
                assert(models(made.push(chunk)) == models(made).push(m));
                assert(models(old(self).chunks@) + done.push(m) == (models(old(self).chunks@)
                    + done).push(m));
                match chunking(left, target) {
                    Ok(rest) => {
                        assert(done + (seq![m] + rest) == done.push(m) + rest);
                    },
                    Err(e) => {},
                }
                done = done.push(m);
            }
            result.push(chunk.size());
            self.chunks.push(chunk);
        }
        proof {
            assert(self.stack().len() == 0);
            assert(done + Seq::<ChunkModel>::empty() == done);
        }
        Ok(result)
    }

    /// Runs the stack analysis on the scripts of a chunk.
    pub fn stack_analyze<F: Fn(&Vec<StructuredScript>) -> StackStatus>(
        &self,
        analyzer: &F,
        chunk: &Vec<StructuredScript>,
    ) -> (status: StackStatus)
        requires
            call_requires(*analyzer, (chunk,)),
        ensures
            call_ensures(*analyzer, (chunk,), status),
    {
        analyzer(chunk)
    }

    /// Makes chunks until the stack is empty, runs the stack analysis
    /// `analyzer` on each and returns the chunks with their interfaces. Fails
    /// where a chunk cannot be made or comes out empty, and where the
    /// analysis gives a status that is not valid.
    pub fn find_chunks_and_analyze_stack<F: Fn(&Vec<StructuredScript>) -> StackStatus>(
        &mut self,
        analyzer: F,
    ) -> (r: Result<Vec<Chunk>, ChunkError>)
        requires
            old(self).wf(),
            forall|scripts: &Vec<StructuredScript>|
                all_wf(scripts@) ==> call_requires(analyzer, (scripts,)),
        ensures
            final(self).wf(),
            final(self).target_chunk_size == old(self).target_chunk_size,
            final(self).tolerance == old(self).tolerance,
            final(self).chunks == old(self).chunks,
            match chunking(old(self).stack(), old(self).target()) {
                Ok(chunks) => partitions(chunks, old(self).stack(), old(self).target()) && match r {
                    Ok(v) => models(v@) == chunks && final(self).call_stack@.len() == 0
                        && forall|i: int| 0 <= i < v.len() ==> analyzed(#[trigger] v[i], analyzer),
                    Err(x) => x == ChunkError::InvalidStackStatus && exists|i: int|
                        0 <= i < chunks.len() && rejected((#[trigger] chunks[i]).scripts, analyzer),
                },
                Err(e) => r matches Err(x) && x == e,
            },
    {
        let mut chunks: Vec<Chunk> = Vec::new();
        let ghost target = self.target();
        let ghost stack0 = self.stack();
        proof {
            lemma_all_wf(self.call_stack@);
            lemma_chunking(stack0, target);
            match chunking(stack0, target) {
                Ok(all) => {
                    assert(models(chunks@) + all == all);
                },
                Err(e) => {},
            }
        }
        while !self.call_stack.is_empty()
            invariant
                self.wf(),
                self.target_chunk_size == old(self).target_chunk_size,
                self.tolerance == old(self).tolerance,
                self.chunks == old(self).chunks,
                target == old(self).target(),
                stack0 == old(self).stack(),
                after(models(chunks@), chunking(self.stack(), target)) == chunking(stack0, target),
                forall|i: int|
                    0 <= i < chunks.len() ==> all_wf((#[trigger] chunks[i]).spec_scripts())
                        && chunks[i].spec_stats() is None,
            decreases forest_size(self.stack()),
        {
            let ghost stack = self.stack();
            let ghost made = chunks@;
            proof {
                lemma_all_wf(self.call_stack@);
                lemma_views(self.call_stack@, Seq::empty());
                lemma_next_chunk(stack, target);
            }
            let chunk = match self.find_next_chunk() {
                Ok(c) => c,
                Err(e) => {
                    return Err(e);
                },
            };
            if chunk.size() == 0 {
                return Err(ChunkError::ZeroSizeChunk);
            }
            proof {
                let m = chunk.model();
                let left = self.stack();
                assert(models(made.push(chunk)) == models(made).push(m));
                match chunking(left, target) {
                    Ok(rest) => {
                        assert(models(made) + (seq![m] + rest) == models(made).push(m) + rest);
                    },
                    Err(e) => {},
                }
            }
            chunks.push(chunk);
        }
        proof {
            assert(self.stack().len() == 0);
            assert(models(chunks@) + Seq::<ChunkModel>::empty() == models(chunks@));
        }
        let ghost all = models(chunks@);
        let mut out: Vec<Chunk> = Vec::new();
        let mut i: usize = 0;
        while i < chunks.len()
            invariant
                i <= chunks.len(),
                out.len() == i,
                all == models(chunks@),
                self.wf(),
                self.target_chunk_size == old(self).target_chunk_size,
                self.tolerance == old(self).tolerance,
                self.chunks == old(self).chunks,
                self.call_stack@.len() == 0,
                chunking(old(self).stack(), old(self).target()) == Ok::<
                    Seq<ChunkModel>,
                    ChunkError,
                >(all),
                partitions(all, old(self).stack(), old(self).target()),
                forall|scripts: &Vec<StructuredScript>|
                    all_wf(scripts@) ==> call_requires(analyzer, (scripts,)),
                forall|k: int|
                    0 <= k < chunks.len() ==> all_wf((#[trigger] chunks[k]).spec_scripts())
                        && chunks[k].spec_stats() is None,
                forall|k: int| 0 <= k < i ==> (#[trigger] out[k]).model() == all[k],
                forall|k: int| 0 <= k < i ==> analyzed(#[trigger] out[k], analyzer),
            decreases chunks.len() - i,
        {
            assert(all_wf(chunks[i as int].spec_scripts()));
            let mut chunk = chunks[i].clone();
            let status = self.stack_analyze(&analyzer, &chunk.scripts);
            let ghost given = chunk.scripts;
            proof {
                assert(all[i as int] == chunks[i as int].model());
                assert(views(given@) == all[i as int].scripts);
                assert(call_ensures(analyzer, (&given,), status));
            }
            match chunk.attach(&status) {
                Ok(()) => {},
                Err(e) => {
                    proof {
                        assert(!status.valid());
                        assert(rejected(all[i as int].scripts, analyzer));
                        assert(exists|k: int|
                            0 <= k < all.len() && rejected((#[trigger] all[k]).scripts, analyzer));
                        assert(chunking(old(self).stack(), old(self).target()) is Ok);
                        assert(chunking(old(self).stack(), old(self).target())->Ok_0 == all);
                    }
                    return Err(e);
                },
            }
            proof {
                assert(given@ == chunk.spec_scripts());
                assert(analyzed(chunk, analyzer));
            }
            out.push(chunk);
            i = i + 1;
        }
        proof {
            assert(models(out@) =~= all);
        }
        Ok(out)
    }
}

/// Two runs of `find_chunks` on the same stack, with the same target and the
/// same chunks made before, end alike: both fail with the same error, or
/// both return the same sizes and leave the same chunks.
pub proof fn lemma_find_chunks_deterministic(
    pre1: Chunker,
    post1: Chunker,
    r1: Result<Vec<usize>, ChunkError>,
    pre2: Chunker,
    post2: Chunker,
    r2: Result<Vec<usize>, ChunkError>,
)
    requires
        pre1.stack() == pre2.stack(),
        pre1.target() == pre2.target(),
        models(pre1.chunks@) == models(pre2.chunks@),
        Chunker::found(pre1, post1, r1),
        Chunker::found(pre2, post2, r2),
    ensures
        match (r1, r2) {
            (Ok(sizes1), Ok(sizes2)) => sizes1@ == sizes2@ && models(post1.chunks@) == models(
                post2.chunks@,
            ),
            (Err(e1), Err(e2)) => e1 == e2,
            _ => false,
        },
{
    match (r1, r2) {
        (Ok(sizes1), Ok(sizes2)) => {
            let chunks = chunking(pre1.stack(), pre1.target())->Ok_0;
            assert forall|i: int| 0 <= i < sizes1@.len() implies sizes1@[i] == sizes2@[i] by {
                assert(sizes1@[i] == chunks[i].size);
                assert(sizes2@[i] == chunks[i].size);
            }
            assert(sizes1@ =~= sizes2@);
        },
        _ => {},
    }
}

/// The chunk under construction: the scripts it holds for good, the size of
/// all that was put into it, the ledger, and how many times in a row a
/// script was taken apart.
struct Packing {
    chunk_scripts: Vec<StructuredScript>,
    chunk_len: usize,
    undo_info: UndoInfo,
    depth: usize,
}

impl Packing {
    /// The scripts and the ledger are consistent.
    spec fn wf(&self) -> bool {
        &&& all_wf(self.chunk_scripts@)
        &&& self.undo_info.wf()
    }

    /// The state of the packing, with the trees `stack` still to be placed.
    spec fn state(&self, stack: Seq<ScriptTree>) -> PackState {
        PackState {
            stack,
            chunk: views(self.chunk_scripts@),
            chunk_len: self.chunk_len as nat,
            ledger: self.undo_info.ledger(),
            open: self.undo_info.open_count(),
            depth: self.depth as nat,
        }
    }

    /// The packing before anything was put into the chunk.
    fn new() -> (r: Self)
        ensures
            r.wf(),
            forall|stack: Seq<ScriptTree>| #[trigger] r.state(stack) == PackState::start(stack),
    {
        let r = Packing {
            chunk_scripts: Vec::new(),
            chunk_len: 0,
            undo_info: UndoInfo::new(),
            depth: 0,
        };
        proof {
            assert(views(r.chunk_scripts@) == Seq::<ScriptTree>::empty());
            assert(r.undo_info.ledger() == Seq::<ScriptTree>::empty());
        }
        r
    }

    /// Whether `f` closes more conditionals than the ledger holds open.
    fn closes_too_many(&self, f: &StructuredScript) -> (b: bool)
        requires
            self.wf(),
            f.wf(),
        ensures
            b == (self.undo_info.open_count() + f@.depth() < 0),
    {
        proof {
            lemma_depth_bound(self.undo_info.ledger());
        }
        self.undo_info.num_unclosed_ifs + (f.num_unclosed_ifs() as i128) < 0
    }

    /// Takes `f` into the chunk: for good, with all that the ledger holds,
    /// where it closes the last open conditional; into the ledger otherwise.
    fn commit(&mut self, f: StructuredScript, Ghost(st): Ghost<PackState>)
        requires
            old(self).wf(),
            f.wf(),
            st.stack.len() > 0,
            st.stack.last() == f@,
            st == old(self).state(st.stack),
            old(self).chunk_len + f@.size() <= usize::MAX,
            forest_size(st.ledger) <= old(self).chunk_len,
        ensures
            final(self).wf(),
            final(self).state(st.stack.drop_last()) == st.commit(f@),
    {
        proof {
            lemma_depth_bound(self.undo_info.ledger());
            lemma_views(self.chunk_scripts@, self.undo_info.scripts());
        }
        let balance: i128 = self.undo_info.num_unclosed_ifs + f.num_unclosed_ifs() as i128;
        self.chunk_len = self.chunk_len + f.len();
        if balance == 0 {
            let mut held = self.undo_info.reset();
            proof {
                lemma_views(self.chunk_scripts@ + held@, seq![f]);
                assert((self.chunk_scripts@ + held@).push(f) == self.chunk_scripts@ + held@
                    + seq![f]);
                assert(views(seq![f]) == seq![f@]);
                assert(all_wf(seq![f])) by {
                    assert(seq![f][0].wf());
                }
                assert(self.undo_info.ledger() == Seq::<ScriptTree>::empty());
            }
            self.chunk_scripts.append(&mut held);
            self.chunk_scripts.push(f);
        } else {
            proof {
                lemma_views(self.undo_info.scripts(), Seq::empty());
            }
            self.undo_info.update(f);
        }
        self.depth = 0;
    }
}

} // verus!
