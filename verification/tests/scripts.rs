use bitcoin::opcodes::all::{OP_ENDIF, OP_IF, OP_NOTIF, OP_PUSHNUM_1};
use bitcoin::script::PushBytesBuf;
use bitcoin::ScriptBuf;
use chunker::builder::{Block, StructuredScript};
use chunker::script::{count_unclosed_ifs, parse_script, Instruction};
use chunker::split::split_script;

fn bytes_of(script: &StructuredScript) -> Vec<u8> {
    let mut out = Vec::new();
    for block in script.blocks() {
        match block {
            Block::Call(id) => out.extend(bytes_of(&script.resolve(*id).unwrap())),
            Block::Script(bytes) => out.extend_from_slice(bytes),
        }
    }
    out
}

#[test]
fn parse_reads_opcodes_and_direct_pushes() {
    let script = vec![0x51, 0x02, 0xaa, 0xbb, 0x63, 0x00];
    let parsed = parse_script(&script).unwrap();
    assert_eq!(
        parsed,
        vec![
            Instruction::Op(0x51),
            Instruction::PushBytes(vec![0xaa, 0xbb]),
            Instruction::Op(0x63),
            Instruction::PushBytes(vec![]),
        ]
    );
}

#[test]
fn parse_reads_the_three_length_prefixes() {
    let one = vec![0x4c, 0x03, 1, 2, 3, 0x68];
    let parsed = parse_script(&one).unwrap();
    assert_eq!(parsed.len(), 2);
    assert_eq!(parsed[0], Instruction::PushBytes(vec![1, 2, 3]));
    assert_eq!(parsed[1], Instruction::Op(0x68));

    let mut two = vec![0x4d, 0x01, 0x01];
    two.extend(vec![7u8; 257]);
    let parsed = parse_script(&two).unwrap();
    assert_eq!(parsed.len(), 1);
    assert_eq!(parsed[0], Instruction::PushBytes(vec![7u8; 257]));

    let four = vec![0x4e, 0x02, 0x00, 0x00, 0x00, 9, 8];
    let parsed = parse_script(&four).unwrap();
    assert_eq!(parsed.len(), 1);
    assert_eq!(parsed[0], Instruction::PushBytes(vec![9, 8]));
}

#[test]
fn parse_of_the_empty_script() {
    assert_eq!(parse_script(&vec![]).unwrap().len(), 0);
}

#[test]
fn parse_refuses_a_script_that_ends_inside_an_instruction() {
    assert!(parse_script(&vec![0x02, 0xaa]).is_none());
    assert!(parse_script(&vec![0x51, 0x4c]).is_none());
    assert!(parse_script(&vec![0x4c, 0x02, 0xaa]).is_none());
    assert!(parse_script(&vec![0x4d, 0x01]).is_none());
    assert!(parse_script(&vec![0x4e, 0x01, 0x00, 0x00, 0x00]).is_none());
}

#[test]
fn parse_agrees_with_a_script_built_by_bitcoin() {
    let mut built = ScriptBuf::new();
    built.push_opcode(OP_PUSHNUM_1);
    built.push_slice(PushBytesBuf::try_from(vec![5u8; 80]).unwrap());
    built.push_opcode(OP_IF);
    let parsed = parse_script(&built.into_bytes()).unwrap();
    assert_eq!(parsed.len(), 3);
    assert_eq!(parsed[0], Instruction::Op(0x51));
    assert_eq!(parsed[1], Instruction::PushBytes(vec![5u8; 80]));
    assert_eq!(parsed[2], Instruction::Op(OP_IF.to_u8()));
}

#[test]
fn flow_depth_of_the_three_flow_opcodes() {
    assert_eq!(Instruction::Op(OP_IF.to_u8()).flow_depth(), 1);
    assert_eq!(Instruction::Op(OP_NOTIF.to_u8()).flow_depth(), 1);
    assert_eq!(Instruction::Op(OP_ENDIF.to_u8()).flow_depth(), -1);
    assert_eq!(Instruction::Op(0x63).flow_depth(), 1);
    assert_eq!(Instruction::Op(0x64).flow_depth(), 1);
    assert_eq!(Instruction::Op(0x68).flow_depth(), -1);
    assert_eq!(Instruction::Op(0x67).flow_depth(), 0);
    assert_eq!(Instruction::Op(0x61).flow_depth(), 0);
    assert_eq!(Instruction::PushBytes(vec![0x63]).flow_depth(), 0);
    assert!(Instruction::Op(0x63).is_flow_op());
    assert!(Instruction::Op(0x68).is_flow_op());
    assert!(!Instruction::Op(0x69).is_flow_op());
    assert!(!Instruction::PushBytes(vec![0x68]).is_flow_op());
}

#[test]
fn balance_of_a_run_of_instructions() {
    let parsed = parse_script(&vec![0x63, 0x64, 0x51, 0x68, 0x63]).unwrap();
    assert_eq!(count_unclosed_ifs(&parsed), (2, true));
    let parsed = parse_script(&vec![0x51, 0x01, 0x63]).unwrap();
    assert_eq!(count_unclosed_ifs(&parsed), (0, false));
    let parsed = parse_script(&vec![0x68, 0x68]).unwrap();
    assert_eq!(count_unclosed_ifs(&parsed), (-2, true));
}

#[test]
fn split_cuts_before_and_after_each_flow_instruction() {
    let pieces = split_script(&vec![0x51, 0x52, 0x63, 0x53, 0x68, 0x54]);
    let bytes: Vec<Vec<u8>> = pieces.iter().map(bytes_of).collect();
    assert_eq!(
        bytes,
        vec![vec![0x51, 0x52], vec![0x63], vec![0x53], vec![0x68], vec![0x54]]
    );
    let depths: Vec<i32> = pieces.iter().map(|p| p.num_unclosed_ifs()).collect();
    assert_eq!(depths, vec![0, 1, 0, -1, 0]);
    assert!(pieces.iter().all(|p| p.is_script_buf()));
}

#[test]
fn split_keeps_the_empty_piece_before_a_flow_instruction() {
    let pieces = split_script(&vec![0x63, 0x68]);
    let bytes: Vec<Vec<u8>> = pieces.iter().map(bytes_of).collect();
    assert_eq!(bytes, vec![vec![], vec![0x63], vec![], vec![0x68]]);
}

#[test]
fn split_of_a_script_without_flow_instruction() {
    let pieces = split_script(&vec![0x51, 0x52]);
    assert_eq!(pieces.len(), 1);
    assert_eq!(bytes_of(&pieces[0]), vec![0x51, 0x52]);
    assert!(split_script(&vec![]).is_empty());
}

#[test]
fn split_writes_a_push_with_the_shortest_prefix() {
    let pieces = split_script(&vec![0x4c, 0x02, 0xaa, 0xbb, 0x63, 0x51]);
    let bytes: Vec<Vec<u8>> = pieces.iter().map(bytes_of).collect();
    assert_eq!(bytes, vec![vec![0x02, 0xaa, 0xbb], vec![0x63], vec![0x51]]);
    assert_eq!(pieces[0].len(), 3);
}

#[test]
fn split_writes_long_pushes_with_their_prefix() {
    let mut script = vec![0x4c, 80];
    script.extend(vec![1u8; 80]);
    script.extend(vec![0x4d, 0x00, 0x01]);
    script.extend(vec![2u8; 256]);
    let pieces = split_script(&script);
    assert_eq!(pieces.len(), 1);
    assert_eq!(bytes_of(&pieces[0]), script);
}

#[test]
fn pushed_data_that_looks_like_a_flow_opcode_is_no_cut() {
    let pieces = split_script(&vec![0x01, 0x63, 0x51]);
    assert_eq!(pieces.len(), 1);
    assert_eq!(bytes_of(&pieces[0]), vec![0x01, 0x63, 0x51]);
    assert!(!pieces[0].contains_flow_op());
}

#[test]
fn builder_counts_size_and_balance() {
    let s = StructuredScript::new();
    assert_eq!(s.len(), 0);
    assert_eq!(s.num_unclosed_ifs(), 0);
    assert!(!s.contains_flow_op());
    assert!(!s.is_script_buf());

    let s = s.push_script(vec![0x51, 0x63]).unwrap();
    assert_eq!(s.len(), 2);
    assert_eq!(s.num_unclosed_ifs(), 1);
    assert!(s.contains_flow_op());
    assert!(s.is_script_buf());

    let sub = StructuredScript::from_script(vec![0x68, 0x68, 0x52]).unwrap();
    let s = s.push_env_script(sub).unwrap();
    assert_eq!(s.len(), 5);
    assert_eq!(s.num_unclosed_ifs(), -1);
    assert!(!s.is_script_buf());
    assert_eq!(s.blocks().len(), 2);

    let s = s.push_call(0).unwrap();
    assert_eq!(s.len(), 8);
    assert_eq!(s.num_unclosed_ifs(), -3);
    assert_eq!(bytes_of(&s), vec![0x51, 0x63, 0x68, 0x68, 0x52, 0x68, 0x68, 0x52]);
}

#[test]
fn builder_refuses_what_it_cannot_hold() {
    assert!(StructuredScript::from_script(vec![0x05, 0x01]).is_none());
    assert!(StructuredScript::new().push_script(vec![0x4c]).is_none());
    assert!(StructuredScript::new().push_call(0).is_none());
    let s = StructuredScript::new()
        .push_env_script(StructuredScript::new())
        .unwrap();
    assert!(s.clone().push_call(1).is_none());
    assert!(s.push_call(0).is_some());
}

#[test]
fn resolve_hands_out_a_copy_of_the_sub_script() {
    let sub = StructuredScript::from_script(vec![0x51, 0x52]).unwrap();
    let s = StructuredScript::new().push_env_script(sub).unwrap();
    let copy = s.resolve(0).unwrap();
    assert_eq!(copy.len(), 2);
    assert_eq!(bytes_of(&copy), vec![0x51, 0x52]);
    let changed = copy.push_script(vec![0x53]).unwrap();
    assert_eq!(changed.len(), 3);
    assert_eq!(s.resolve(0).unwrap().len(), 2);
    assert!(s.resolve(1).is_none());
}

#[test]
fn a_balanced_script_with_flow_instructions_contains_them() {
    let s = StructuredScript::from_script(vec![0x63, 0x51, 0x68]).unwrap();
    assert_eq!(s.num_unclosed_ifs(), 0);
    assert!(s.contains_flow_op());
}
