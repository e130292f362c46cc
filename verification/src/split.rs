//! Splitting an inline segment at every instruction that opens or closes a
//! conditional.

use vstd::prelude::*;
use vstd::pervasive::unreached;
use crate::builder::{
    all_well_formed, all_wf, forest_program, forest_size, lemma_forest_add, lemma_forest_empty,
    lemma_forest_one, lemma_leaf, parsed, views, well_formed, ScriptTree, StructuredScript,
};
use crate::script::{
    all_encodable, encodable, encoding_all, has_flow_op, instrs_of, instructions, is_flow_op,
    lemma_encoding_all_add, lemma_encoding_all_len, lemma_encoding_all_single,
    lemma_has_flow_op_add, lemma_parsed, lemma_round_trip, lemma_unclosed_ifs_bound,
    lemma_unclosed_ifs_single, parse_script, push_instruction, Instr,
};

verus! {

/// The leaf script that holds a run of instructions, written by the encoder.
pub open spec fn piece(run: Seq<Instr>) -> ScriptTree {
    ScriptTree::leaf(encoding_all(run))
}

/// The pieces into which the instructions `s` fall when `acc` has been
/// gathered before them: at each flow instruction what was gathered, be it
/// nothing, and the flow instruction alone; at the end what was gathered, if
/// anything.
pub open spec fn split_pieces(s: Seq<Instr>, acc: Seq<Instr>) -> Seq<ScriptTree>
    decreases s.len(),
{
    if s.len() == 0 {
        if acc.len() == 0 {
            Seq::empty()
        } else {
            seq![piece(acc)]
        }
    } else if is_flow_op(s[0]) {
        seq![piece(acc), piece(seq![s[0]])] + split_pieces(s.skip(1), Seq::empty())
    } else {
        split_pieces(s.skip(1), acc.push(s[0]))
    }
}

/// The pieces of an inline segment.
pub open spec fn pieces(bytes: Seq<u8>) -> Seq<ScriptTree> {
    split_pieces(parsed(bytes), Seq::empty())
}

/// A script that the balancer takes off whole: one without flow
/// instruction, or a single flow instruction.
pub open spec fn indivisible(t: ScriptTree) -> bool {
    !t.has_flow() || (t.is_leaf() && t.size() == 1)
}

/// A piece holds its run, in the bytes that the encoder writes for it.
pub proof fn lemma_piece(run: Seq<Instr>)
    requires
        all_encodable(run),
    ensures
        piece(run).program() == run,
        piece(run).size() == encoding_all(run).len(),
        piece(run).is_leaf(),
        piece(run).has_flow() == has_flow_op(run),
        (!has_flow_op(run) || run.len() == 1) && encoding_all(run).len() <= usize::MAX
            ==> well_formed(piece(run)),
{
    lemma_round_trip(run);
    lemma_leaf(encoding_all(run));
    lemma_unclosed_ifs_bound(run);
}

/// The pieces of a run hold its instructions in order, in no more bytes
/// than the encoder writes for the run; each is a leaf that the balancer
/// takes off whole, and there are at most two for each instruction and one
/// more.
pub proof fn lemma_split_pieces(s: Seq<Instr>, acc: Seq<Instr>)
    requires
        all_encodable(acc + s),
        !has_flow_op(acc),
        encoding_all(acc + s).len() <= usize::MAX,
    ensures
        forest_program(split_pieces(s, acc)) == acc + s,
        forest_size(split_pieces(s, acc)) == encoding_all(acc + s).len(),
        all_well_formed(split_pieces(s, acc)),
        forall|k: int|
            0 <= k < split_pieces(s, acc).len() ==> indivisible(#[trigger] split_pieces(s, acc)[k]),
        split_pieces(s, acc).len() <= 2 * s.len() + 1,
    decreases s.len(),
{
    let p = split_pieces(s, acc);
    assert forall|k: int| 0 <= k < acc.len() implies encodable(#[trigger] acc[k]) by {
        assert((acc + s)[k] == acc[k]);
    }
    if s.len() == 0 {
        assert(acc + s == acc);
        if acc.len() == 0 {
            lemma_forest_empty();
            assert(encoding_all(acc) == Seq::<u8>::empty());
        } else {
            lemma_piece(acc);
            lemma_forest_one(piece(acc));
        }
    } else {
        let x = s[0];
        let rest = s.skip(1);
        assert((acc + s)[acc.len() as int] == x);
        assert(acc + s == (acc + seq![x]) + rest);
        lemma_encoding_all_add(acc + seq![x], rest);
        lemma_encoding_all_add(acc, seq![x]);
        lemma_encoding_all_single(x);
        assert forall|k: int| 0 <= k < rest.len() implies encodable(
            #[trigger] rest[k],
        ) by {
            assert((acc + s)[acc.len() + 1 + k] == rest[k]);
        }
        if is_flow_op(x) {
            let tail = split_pieces(rest, Seq::empty());
            assert(Seq::<Instr>::empty() + rest == rest);
            assert(!has_flow_op(Seq::<Instr>::empty()));
            lemma_split_pieces(rest, Seq::empty());
            assert(all_encodable(seq![x]));
            lemma_piece(acc);
            lemma_piece(seq![x]);
            assert(has_flow_op(seq![x])) by {
                assert(is_flow_op(seq![x][0]));
            }
            let head = seq![piece(acc), piece(seq![x])];
            assert(head == seq![piece(acc)] + seq![piece(seq![x])]);
            lemma_forest_add(seq![piece(acc)], seq![piece(seq![x])]);
            lemma_forest_one(piece(acc));
            lemma_forest_one(piece(seq![x]));
            lemma_forest_add(head, tail);
            assert((acc + seq![x]) + rest == acc + seq![x] + rest);
            assert forall|k: int| 0 <= k < p.len() implies indivisible(#[trigger] p[k])
                && well_formed(p[k]) by {
                if k >= 2 {
                    assert(p[k] == tail[k - 2]);
                }
            }
        } else {
            let acc2 = acc.push(x);
            assert(acc2 == acc + seq![x]);
            lemma_has_flow_op_add(acc, seq![x]);
            assert(!has_flow_op(seq![x])) by {
                if has_flow_op(seq![x]) {
                    let k = choose|k: int| 0 <= k < seq![x].len() && is_flow_op(#[trigger] seq![x][k]);
                    assert(seq![x][k] == x);
                }
            }
            lemma_split_pieces(rest, acc2);
        }
    }
}

/// The pieces of a segment that parses hold its instructions in order, in
/// no more bytes than the segment has; each is a well-formed leaf that the
/// balancer takes off whole, and there are at most two for each byte and one
/// more.
pub proof fn lemma_pieces(bytes: Seq<u8>)
    requires
        instructions(bytes) is Some,
        bytes.len() <= usize::MAX,
    ensures
        forest_program(pieces(bytes)) == parsed(bytes),
        forest_size(pieces(bytes)) <= bytes.len(),
        all_well_formed(pieces(bytes)),
        forall|k: int| 0 <= k < pieces(bytes).len() ==> indivisible(#[trigger] pieces(bytes)[k]),
        pieces(bytes).len() <= 2 * bytes.len() + 1,
{
    lemma_parsed(bytes);
    assert(Seq::<Instr>::empty() + parsed(bytes) == parsed(bytes));
    lemma_split_pieces(parsed(bytes), Seq::empty());
}

/// Splits an inline segment at every instruction that opens or closes a
/// conditional: each such instruction becomes a script of its own, and so
/// does what stands before it, between two of them and after the last.
pub fn split_script(script: &Vec<u8>) -> (out: Vec<StructuredScript>)
    requires
        instructions(script@) is Some,
    ensures
        views(out@) == pieces(script@),
        all_wf(out@),
{
    let instrs = match parse_script(script) {
        Some(v) => v,
        None => unreached(),
    };
    let mut out: Vec<StructuredScript> = Vec::new();
    let mut tmp: Vec<u8> = Vec::new();
    let ghost all = instrs_of(instrs@);
    let ghost mut acc: Seq<Instr> = Seq::empty();
    let mut i: usize = 0;
    proof {
        lemma_parsed(script@);
        assert(all.skip(0) == all);
        assert(views(out@) + split_pieces(all, acc) == split_pieces(all, acc));
        assert(encoding_all(acc) == Seq::<u8>::empty());
    }
    while i < instrs.len()
        invariant
            i <= instrs.len(),
            all == instrs_of(instrs@),
            all_encodable(all),
            all_encodable(acc),
            !has_flow_op(acc),
            tmp@ == encoding_all(acc),
            views(out@) + split_pieces(all.skip(i as int), acc) == split_pieces(
                all,
                Seq::empty(),
            ),
            all_wf(out@),
        decreases instrs.len() - i,
    {
        let ghost x = all[i as int];
        let ghost rest = all.skip(i as int);
        proof {
            assert(rest[0] == x);
            assert(rest.skip(1) == all.skip(i + 1));
            assert(encodable(x));
            lemma_round_trip(acc);
            lemma_unclosed_ifs_bound(acc);
        }
        if instrs[i].is_flow_op() {
            let before = match StructuredScript::from_script(tmp) {
                Some(s) => s,
                None => unreached(),
            };
            let mut one: Vec<u8> = Vec::new();
            push_instruction(&mut one, &instrs[i]);
            proof {
                assert(all_encodable(seq![x]));
                lemma_encoding_all_single(x);
                assert(one@ == encoding_all(seq![x]));
                lemma_round_trip(seq![x]);
                lemma_unclosed_ifs_single(x);
            }
            let flow = match StructuredScript::from_script(one) {
                Some(s) => s,
                None => unreached(),
            };
            proof {
                let o = views(out@);
                let p = seq![piece(acc), piece(seq![x])];
                let t = split_pieces(rest.skip(1), Seq::empty());
                assert(views(out@.push(before).push(flow)) == o + p);
                assert(o + (p + t) == (o + p) + t);
            }
            out.push(before);
            out.push(flow);
            tmp = Vec::new();
            proof {
                acc = Seq::empty();
                assert(encoding_all(acc) == Seq::<u8>::empty());
            }
        } else {
            push_instruction(&mut tmp, &instrs[i]);
            proof {
                let acc2 = acc.push(x);
                assert(acc2.drop_last() == acc);
                lemma_has_flow_op_add(acc, seq![x]);
                assert(acc2 == acc + seq![x]);
                assert(!has_flow_op(seq![x])) by {
                    if has_flow_op(seq![x]) {
                        let k = choose|k: int|
                            0 <= k < seq![x].len() && is_flow_op(#[trigger] seq![x][k]);
                        assert(seq![x][k] == x);
                    }
                }
                acc = acc2;
            }
        }
        i = i + 1;
    }
    proof {
        assert(all.skip(i as int).len() == 0);
        lemma_encoding_all_len(acc);
        lemma_round_trip(acc);
        lemma_unclosed_ifs_bound(acc);
    }
    if tmp.len() != 0 {
        let last = match StructuredScript::from_script(tmp) {
            Some(s) => s,
            None => unreached(),
        };
        proof {
            assert(views(out@.push(last)) == views(out@) + seq![piece(acc)]);
        }
        out.push(last);
    } else {
        proof {
            assert(views(out@) + Seq::<ScriptTree>::empty() == views(out@));
        }
    }
    out
}

} // verus!
