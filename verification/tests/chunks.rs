use bitcoin::opcodes::all::{OP_ENDIF, OP_IF, OP_NOP, OP_NOTIF};
use chunker::analyzer::{ChunkStats, StackStatus};
use chunker::builder::{Block, StructuredScript};
use chunker::chunker::{Chunk, Chunker, UndoInfo};
use chunker::error::ChunkError;

fn nops(n: usize) -> Vec<u8> {
    vec![OP_NOP.to_u8(); n]
}

fn leaf(bytes: Vec<u8>) -> StructuredScript {
    StructuredScript::from_script(bytes).unwrap()
}

fn seq_of(parts: Vec<StructuredScript>) -> StructuredScript {
    let mut s = StructuredScript::new();
    for p in parts {
        s = s.push_env_script(p).unwrap();
    }
    s
}

fn flatten_into(script: &StructuredScript, out: &mut Vec<u8>) {
    for block in script.blocks() {
        match block {
            Block::Call(id) => flatten_into(&script.resolve(*id).unwrap(), out),
            Block::Script(bytes) => out.extend_from_slice(bytes),
        }
    }
}

fn flatten(script: &StructuredScript) -> Vec<u8> {
    let mut out = Vec::new();
    flatten_into(script, &mut out);
    out
}

fn flatten_all(scripts: &[StructuredScript]) -> Vec<u8> {
    let mut out = Vec::new();
    for s in scripts {
        flatten_into(s, &mut out);
    }
    out
}

fn balance(scripts: &[StructuredScript]) -> i64 {
    scripts.iter().map(|s| s.num_unclosed_ifs() as i64).sum()
}

fn total(scripts: &[StructuredScript]) -> usize {
    scripts.iter().map(|s| s.len()).sum()
}

/// Runs `find_chunks` and hands back the sizes and the scripts of each chunk.
fn run(top: StructuredScript, target: usize) -> Result<(Vec<usize>, Vec<Vec<StructuredScript>>), ChunkError> {
    let mut chunker = Chunker::new(top, target, 0);
    let sizes = chunker.find_chunks()?;
    assert!(chunker.call_stack.is_empty());
    let chunks: Vec<Vec<StructuredScript>> =
        chunker.chunks.into_iter().map(|c| c.scripts()).collect();
    Ok((sizes, chunks))
}

fn conditional_program() -> StructuredScript {
    let mut opener = nops(3);
    opener.push(OP_IF.to_u8());
    seq_of(vec![
        leaf(opener),
        leaf(nops(10)),
        leaf(vec![OP_ENDIF.to_u8()]),
        leaf(nops(12)),
    ])
}

#[test]
fn three_leaves_of_forty_with_target_ninety() {
    let top = seq_of(vec![leaf(nops(40)), leaf(nops(40)), leaf(nops(40))]);
    let (sizes, chunks) = run(top, 90).unwrap();
    assert_eq!(sizes, vec![80, 40]);
    assert_eq!(chunks.len(), 2);
    assert_eq!(chunks[0].len(), 2);
    assert_eq!(chunks[1].len(), 1);
}

#[test]
fn conditional_around_content_that_does_not_fit_is_not_cut() {
    let mut opener = nops(4);
    opener.push(OP_IF.to_u8());
    let mut closer = vec![OP_ENDIF.to_u8()];
    closer.extend(nops(4));
    let unit = seq_of(vec![leaf(opener), leaf(nops(200)), leaf(closer)]);
    assert_eq!(unit.len(), 210);
    assert_eq!(unit.num_unclosed_ifs(), 0);

    let mut chunker = Chunker::new(unit.clone(), 100, 0);
    assert_eq!(chunker.find_chunks(), Err(ChunkError::ZeroSizeChunk));
    for chunk in chunker.chunks {
        let scripts = chunk.scripts();
        assert_eq!(balance(&scripts), 0);
    }

    let (sizes, chunks) = run(unit, 250).unwrap();
    assert_eq!(sizes, vec![210]);
    assert_eq!(balance(&chunks[0]), 0);
}

#[test]
fn two_more_closes_than_opens_fail() {
    let top = seq_of(vec![
        leaf(nops(5)),
        leaf(vec![OP_ENDIF.to_u8()]),
        leaf(vec![OP_ENDIF.to_u8()]),
    ]);
    let mut chunker = Chunker::new(top, 100, 0);
    assert_eq!(chunker.find_chunks(), Err(ChunkError::NegativeBalance));
    assert!(chunker.chunks.is_empty());
}

#[test]
fn target_below_the_smallest_leaf_fails() {
    let top = seq_of(vec![leaf(nops(40)), leaf(nops(40))]);
    let mut chunker = Chunker::new(top, 10, 0);
    assert_eq!(chunker.find_chunks(), Err(ChunkError::ZeroSizeChunk));
    assert!(chunker.chunks.is_empty());
}

#[test]
fn unclosed_conditional_at_the_end_fails_with_an_empty_chunk() {
    let top = seq_of(vec![leaf(vec![OP_NOTIF.to_u8()]), leaf(nops(10))]);
    let mut chunker = Chunker::new(top, 100, 0);
    assert_eq!(chunker.find_chunks(), Err(ChunkError::ZeroSizeChunk));
}

#[test]
fn chunks_reproduce_the_program() {
    let top = conditional_program();
    let program = flatten(&top);
    let (sizes, chunks) = run(top, 12).unwrap();
    assert_eq!(sizes, vec![3, 12, 12]);
    let mut joined = Vec::new();
    for c in &chunks {
        joined.extend(flatten_all(c));
    }
    assert_eq!(joined, program);
}

#[test]
fn every_chunk_is_balanced_and_within_the_target() {
    let (sizes, chunks) = run(conditional_program(), 12).unwrap();
    for (size, scripts) in sizes.iter().zip(chunks.iter()) {
        assert_eq!(balance(scripts), 0);
        assert_eq!(total(scripts), *size);
        assert!(*size > 0 && *size <= 12);
    }
    assert_eq!(flatten_all(&chunks[1])[0], OP_IF.to_u8());
    assert_eq!(*flatten_all(&chunks[1]).last().unwrap(), OP_ENDIF.to_u8());
}

#[test]
fn two_runs_give_the_same_chunks() {
    let (sizes1, chunks1) = run(conditional_program(), 12).unwrap();
    let (sizes2, chunks2) = run(conditional_program(), 12).unwrap();
    assert_eq!(sizes1, sizes2);
    assert_eq!(chunks1.len(), chunks2.len());
    for (a, b) in chunks1.iter().zip(chunks2.iter()) {
        assert_eq!(a.len(), b.len());
        assert_eq!(flatten_all(a), flatten_all(b));
    }
}

#[test]
fn the_whole_program_in_one_chunk_where_it_fits() {
    let top = conditional_program();
    let program = flatten(&top);
    assert_eq!(program.len(), 27);
    let (sizes, chunks) = run(top, 27).unwrap();
    assert_eq!(sizes, vec![27]);
    assert_eq!(chunks[0].len(), 1);
    assert_eq!(flatten_all(&chunks[0]), program);
}

#[test]
fn one_byte_below_the_program_size_gives_two_chunks() {
    let (sizes, chunks) = run(conditional_program(), 26).unwrap();
    assert_eq!(sizes, vec![15, 12]);
    assert_eq!(chunks[0].len(), 3);
    assert_eq!(balance(&chunks[0]), 0);
}

#[test]
fn empty_script_takes_no_room() {
    let top = seq_of(vec![StructuredScript::new(), leaf(nops(7)), leaf(nops(3))]);
    let (sizes, chunks) = run(top, 7).unwrap();
    assert_eq!(sizes, vec![7, 3]);
    assert_eq!(chunks[0].len(), 2);
    assert_eq!(chunks[0][0].len(), 0);
}

fn wrapped(levels: usize) -> StructuredScript {
    let mut s = leaf(nops(5));
    for _ in 0..levels {
        s = StructuredScript::new().push_env_script(s).unwrap().push_script(nops(100)).unwrap();
    }
    s
}

#[test]
fn nine_expansions_in_a_row_are_made() {
    let mut chunker = Chunker::new(wrapped(9), 10, 0);
    let chunk = chunker.find_next_chunk().unwrap();
    assert_eq!(chunk.size(), 5);
    assert_eq!(chunker.call_stack.len(), 9);
}

#[test]
fn a_tenth_expansion_in_a_row_is_not_made() {
    let mut chunker = Chunker::new(wrapped(10), 10, 0);
    let chunk = chunker.find_next_chunk().unwrap();
    assert_eq!(chunk.size(), 0);
    assert_eq!(chunker.call_stack.len(), 10);
    let mut chunker = Chunker::new(wrapped(10), 10, 0);
    assert_eq!(chunker.find_chunks(), Err(ChunkError::ZeroSizeChunk));
}

#[test]
fn next_chunk_leaves_the_rest_on_the_stack() {
    let top = seq_of(vec![leaf(nops(40)), leaf(nops(40)), leaf(nops(40))]);
    let mut chunker = Chunker::new(top, 90, 0);
    let first = chunker.find_next_chunk().unwrap();
    assert_eq!(first.size(), 80);
    assert!(first.stats().is_none());
    assert_eq!(chunker.call_stack.len(), 1);
    assert_eq!(chunker.call_stack[0].len(), 40);
    assert!(chunker.chunks.is_empty());
    let second = chunker.find_next_chunk().unwrap();
    assert_eq!(second.size(), 40);
    assert!(chunker.call_stack.is_empty());
}

#[test]
fn next_chunk_reports_a_negative_balance() {
    let mut chunker = Chunker::new(leaf(vec![OP_ENDIF.to_u8()]), 100, 0);
    assert!(matches!(chunker.find_next_chunk(), Err(ChunkError::NegativeBalance)));
}

#[test]
fn undo_takes_back_the_open_tail() {
    let mut opener = nops(3);
    opener.push(OP_IF.to_u8());
    let mut ledger = UndoInfo::new();
    ledger.update(leaf(opener));
    ledger.update(leaf(nops(6)));
    let mut chunker = Chunker::new(leaf(nops(2)), 100, 0);
    let (kept, removed_len) = chunker.undo(ledger);
    assert_eq!(removed_len, 7);
    assert_eq!(kept.len(), 1);
    assert_eq!(flatten(&kept[0]), nops(3));
    assert_eq!(chunker.call_stack.len(), 3);
    assert_eq!(flatten(&chunker.call_stack[0]), nops(2));
    assert_eq!(flatten(&chunker.call_stack[1]), nops(6));
    assert_eq!(flatten(&chunker.call_stack[2]), vec![OP_IF.to_u8()]);
}

#[test]
fn undo_takes_a_composite_apart() {
    let inner = seq_of(vec![leaf(nops(2)), leaf(vec![OP_IF.to_u8(), OP_NOP.to_u8()])]);
    let outer = StructuredScript::new()
        .push_script(nops(1))
        .unwrap()
        .push_env_script(inner)
        .unwrap();
    assert_eq!(outer.num_unclosed_ifs(), 1);
    let mut ledger = UndoInfo::new();
    ledger.update(outer);
    let mut chunker = Chunker::new(StructuredScript::new(), 100, 0);
    let (kept, removed_len) = chunker.undo(ledger);
    assert_eq!(removed_len, 2);
    assert_eq!(flatten_all(&kept), nops(3));
    assert_eq!(balance(&kept), 0);
    let top = chunker.call_stack.pop().unwrap();
    assert_eq!(flatten(&top), vec![OP_IF.to_u8()]);
    let next = chunker.call_stack.pop().unwrap();
    assert_eq!(flatten(&next), nops(1));
}

#[test]
fn undo_drops_a_ledger_without_open_conditional() {
    let mut ledger = UndoInfo::new();
    ledger.update(leaf(nops(6)));
    let mut chunker = Chunker::new(leaf(nops(2)), 100, 0);
    let (kept, removed_len) = chunker.undo(ledger);
    assert!(kept.is_empty());
    assert_eq!(removed_len, 0);
    assert_eq!(chunker.call_stack.len(), 1);
}

#[test]
fn ledger_reset_hands_out_its_scripts() {
    let mut ledger = UndoInfo::new();
    ledger.update(leaf(vec![OP_IF.to_u8()]));
    ledger.update(leaf(nops(4)));
    let held = ledger.reset();
    assert_eq!(held.len(), 2);
    assert_eq!(held[0].len(), 1);
    assert_eq!(held[1].len(), 4);
    assert!(ledger.reset().is_empty());
    let mut chunker = Chunker::new(StructuredScript::new(), 100, 0);
    let (kept, removed_len) = chunker.undo(ledger);
    assert!(kept.is_empty());
    assert_eq!(removed_len, 0);
}

#[test]
fn chunk_keeps_what_it_was_given() {
    let chunk = Chunk::new(vec![leaf(nops(3)), leaf(nops(4))], 7);
    assert_eq!(chunk.size(), 7);
    assert!(chunk.stats().is_none());
    let copy = chunk.clone();
    let scripts = chunk.scripts();
    assert_eq!(scripts.len(), 2);
    assert_eq!(flatten_all(&scripts), nops(7));
    assert_eq!(flatten_all(&copy.scripts()), nops(7));
}

#[test]
fn stats_of_a_chunk_that_reads_nothing_below_its_start() {
    let status = StackStatus {
        deepest_stack_accessed: 0,
        stack_changed: 3,
        deepest_altstack_accessed: 0,
        altstack_changed: 1,
    };
    let stats = ChunkStats::from_status(&status).unwrap();
    assert_eq!(stats.stack_input_size, 0);
    assert_eq!(stats.stack_output_size, 3);
    assert_eq!(stats.altstack_input_size, 0);
    assert_eq!(stats.altstack_output_size, 1);
}

#[test]
fn stats_of_a_chunk_that_reads_below_its_start() {
    let status = StackStatus {
        deepest_stack_accessed: -2,
        stack_changed: 1,
        deepest_altstack_accessed: -1,
        altstack_changed: -1,
    };
    let stats = ChunkStats::from_status(&status).unwrap();
    assert_eq!(
        stats,
        ChunkStats {
            stack_input_size: 2,
            stack_output_size: 3,
            altstack_input_size: 1,
            altstack_output_size: 0,
        }
    );
    let extreme = StackStatus {
        deepest_stack_accessed: i32::MIN,
        stack_changed: i32::MAX,
        deepest_altstack_accessed: 0,
        altstack_changed: 0,
    };
    let stats = ChunkStats::from_status(&extreme).unwrap();
    assert_eq!(stats.stack_input_size, 2147483648);
    assert_eq!(stats.stack_output_size, 4294967295);
}

#[test]
fn stats_of_a_status_out_of_range() {
    let above = StackStatus {
        deepest_stack_accessed: 1,
        stack_changed: 1,
        deepest_altstack_accessed: 0,
        altstack_changed: 0,
    };
    assert_eq!(ChunkStats::from_status(&above), None);
    let below = StackStatus {
        deepest_stack_accessed: -1,
        stack_changed: -2,
        deepest_altstack_accessed: 0,
        altstack_changed: 0,
    };
    assert_eq!(ChunkStats::from_status(&below), None);
    let alt = StackStatus {
        deepest_stack_accessed: 0,
        stack_changed: 0,
        deepest_altstack_accessed: 0,
        altstack_changed: -1,
    };
    assert_eq!(ChunkStats::from_status(&alt), None);
}

#[test]
fn attach_sets_the_stats_of_a_chunk() {
    let mut chunk = Chunk::new(vec![leaf(nops(3))], 3);
    let bad = StackStatus {
        deepest_stack_accessed: 2,
        stack_changed: 0,
        deepest_altstack_accessed: 0,
        altstack_changed: 0,
    };
    assert_eq!(chunk.attach(&bad), Err(ChunkError::InvalidStackStatus));
    assert!(chunk.stats().is_none());
    let good = StackStatus {
        deepest_stack_accessed: -1,
        stack_changed: 2,
        deepest_altstack_accessed: 0,
        altstack_changed: 0,
    };
    assert_eq!(chunk.attach(&good), Ok(()));
    assert_eq!(chunk.stats().unwrap().stack_input_size, 1);
    assert_eq!(chunk.stats().unwrap().stack_output_size, 3);
    assert_eq!(chunk.size(), 3);
}

#[test]
fn chunks_are_analysed_one_by_one() {
    let top = seq_of(vec![leaf(nops(40)), leaf(nops(40)), leaf(nops(40))]);
    let mut chunker = Chunker::new(top, 90, 0);
    let chunks = chunker
        .find_chunks_and_analyze_stack(|scripts: &Vec<StructuredScript>| StackStatus {
            deepest_stack_accessed: -(scripts.len() as i32),
            stack_changed: 5,
            deepest_altstack_accessed: 0,
            altstack_changed: 0,
        })
        .unwrap();
    assert_eq!(chunks.len(), 2);
    assert_eq!(chunks[0].size(), 80);
    assert_eq!(chunks[1].size(), 40);
    assert_eq!(chunks[0].stats().unwrap().stack_input_size, 2);
    assert_eq!(chunks[0].stats().unwrap().stack_output_size, 7);
    assert_eq!(chunks[1].stats().unwrap().stack_input_size, 1);
    assert_eq!(chunks[1].stats().unwrap().stack_output_size, 6);
    assert_eq!(chunks[1].stats().unwrap().altstack_input_size, 0);
    assert!(chunker.chunks.is_empty());
    assert!(chunker.call_stack.is_empty());
}

#[test]
fn an_analysis_out_of_range_fails_the_chunking() {
    let top = seq_of(vec![leaf(nops(40)), leaf(nops(40))]);
    let mut chunker = Chunker::new(top, 90, 0);
    let r = chunker.find_chunks_and_analyze_stack(|_scripts: &Vec<StructuredScript>| StackStatus {
        deepest_stack_accessed: 1,
        stack_changed: 0,
        deepest_altstack_accessed: 0,
        altstack_changed: 0,
    });
    assert!(matches!(r, Err(ChunkError::InvalidStackStatus)));
}

#[test]
fn analysis_is_not_run_where_chunking_fails() {
    let mut chunker = Chunker::new(leaf(nops(40)), 10, 0);
    let r = chunker.find_chunks_and_analyze_stack(|_scripts: &Vec<StructuredScript>| {
        panic!("no chunk to analyse")
    });
    assert!(matches!(r, Err(ChunkError::ZeroSizeChunk)));
}

#[test]
fn stack_analyze_hands_the_scripts_to_the_analysis() {
    let chunker = Chunker::new(StructuredScript::new(), 10, 0);
    let scripts = vec![leaf(nops(3)), leaf(nops(4))];
    let status = chunker.stack_analyze(
        &|s: &Vec<StructuredScript>| StackStatus {
            deepest_stack_accessed: 0,
            stack_changed: s.iter().map(|x| x.len() as i32).sum(),
            deepest_altstack_accessed: 0,
            altstack_changed: 0,
        },
        &scripts,
    );
    assert_eq!(status.stack_changed, 7);
}
