use evm_cfg::op::{OpType, Operation};
use evm_cfg::program::Program;
use evm_cfg::stack::{SymbolicStack, SymbolicStackValue};
use evm_cfg::word::Word;

fn word(v: u64) -> Word {
    Word::from_u64(v)
}

#[test]
fn empty_code_gives_empty_program() {
    let mut pgm = Program::parse_bytecode(Vec::new(), None);
    assert_eq!(pgm.blocks.len(), 0);
    assert_eq!(pgm.edges.len(), 0);
    assert_eq!(pgm.start_addresses.len(), 0);
    pgm.gen_concrete_edges();
    pgm.gen_symbolic_edges();
    assert_eq!(pgm.edges.len(), 0);
    let g = pgm.render();
    assert_eq!(g.node_count(), 0);
    assert_eq!(g.edge_count(), 0);
}

#[test]
fn single_stop_gives_one_block() {
    let mut pgm = Program::parse_bytecode(vec![0x00], None);
    assert_eq!(pgm.blocks.len(), 1);
    assert_eq!(pgm.blocks[0].pc_start, 0);
    assert_eq!(pgm.blocks[0].pc_end, 0);
    assert_eq!(pgm.blocks[0].ops.len(), 1);
    assert_eq!(pgm.blocks[0].ops[0].code, 0x00);
    assert!(!pgm.blocks[0].ops[0].is_invalid);
    pgm.gen_concrete_edges();
    pgm.gen_symbolic_edges();
    assert_eq!(pgm.edges.len(), 0);
}

#[test]
fn push_jump_to_jumpdest() {
    // PUSH1 0x03, JUMP, JUMPDEST, STOP
    let code = vec![0x60, 0x03, 0x56, 0x5B, 0x00];
    let mut pgm = Program::parse_bytecode(code, None);
    assert_eq!(pgm.blocks.len(), 2);
    assert_eq!(pgm.blocks[0].pc_start, 0);
    assert_eq!(pgm.blocks[0].pc_end, 2);
    assert_eq!(pgm.blocks[1].pc_start, 3);
    assert_eq!(pgm.blocks[1].pc_end, 4);
    pgm.gen_concrete_edges();
    assert_eq!(pgm.edges.len(), 1);
    assert_eq!(pgm.edges[0], (word(0), word(3)));
    pgm.gen_symbolic_edges();
    assert_eq!(pgm.edges.len(), 2);
    assert_eq!(pgm.edges[1], (word(0), word(3)));
    let g = pgm.render();
    assert_eq!(g.node_count(), 2);
    assert_eq!(g.edge_count(), 2);
    let weights: Vec<&evm_cfg::graph::CfgNodeData> = g.node_weights().collect();
    assert_eq!(weights[0].code_loc, 0);
    assert_eq!(weights[0].ops, "PUSH JUMP");
    assert_eq!(weights[1].code_loc, 3);
    assert_eq!(weights[1].ops, "JUMPDEST STOP");
}

#[test]
fn conditional_jump_yields_taken_then_fallthrough() {
    // PUSH1 7, JUMPI, four STOPs, JUMPDEST, STOP
    let code = vec![0x60, 0x07, 0x57, 0x00, 0x00, 0x00, 0x00, 0x5B, 0x00];
    let mut pgm = Program::parse_bytecode(code, None);
    pgm.gen_concrete_edges();
    assert_eq!(pgm.edges.len(), 2);
    assert_eq!(pgm.edges[0], (word(0), word(7)));
    assert_eq!(pgm.edges[1], (word(0), word(3)));
}

#[test]
fn masked_dispatch_found_only_symbolically() {
    // PUSH1 18, PUSH4 selector, DUP1, PUSH4 mask, AND, SWAP1, POP, POP,
    // JUMP, JUMPDEST, STOP
    let code = vec![
        0x60, 0x12, 0x63, 0xAA, 0xBB, 0xCC, 0xDD, 0x80, 0x63, 0xFF, 0xFF, 0xFF, 0xFF, 0x16,
        0x90, 0x50, 0x50, 0x56, 0x5B, 0x00,
    ];
    let mut pgm = Program::parse_bytecode(code, None);
    assert_eq!(pgm.blocks.len(), 2);
    assert_eq!(pgm.blocks[1].pc_start, 18);
    pgm.gen_concrete_edges();
    assert_eq!(pgm.edges.len(), 0);
    pgm.gen_symbolic_edges();
    assert_eq!(pgm.edges.len(), 1);
    assert_eq!(pgm.edges[0], (word(0), word(18)));
}

#[test]
fn invalid_byte_splits_blocks() {
    // PUSH1 1, the designated invalid byte, STOP
    let code = vec![0x60, 0x01, 0xFE, 0x00];
    let pgm = Program::parse_bytecode(code, None);
    assert_eq!(pgm.blocks.len(), 3);
    assert_eq!(pgm.blocks[0].pc_start, 0);
    assert_eq!(pgm.blocks[0].pc_end, 1);
    assert_eq!(pgm.blocks[1].pc_start, 2);
    assert_eq!(pgm.blocks[1].pc_end, 2);
    assert!(pgm.blocks[1].ops[0].is_invalid);
    assert_eq!(pgm.blocks[1].ops[0].code, 0xFE);
    assert_eq!(pgm.blocks[2].pc_start, 3);
    assert_eq!(pgm.blocks[2].pc_end, 3);
}

#[test]
fn truncated_push_becomes_invalid_block() {
    // PUSH2 with only one immediate byte left
    let code = vec![0x00, 0x61, 0x01];
    let pgm = Program::parse_bytecode(code, None);
    assert_eq!(pgm.blocks.len(), 3);
    assert_eq!(pgm.blocks[1].pc_start, 1);
    assert!(pgm.blocks[1].ops[0].is_invalid);
    // the stray immediate byte is rescanned as an instruction
    assert_eq!(pgm.blocks[2].pc_start, 2);
    assert!(!pgm.blocks[2].ops[0].is_invalid);
}

#[test]
fn jumpdest_always_begins_block() {
    // ADD, JUMPDEST, ADD, STOP: the JUMPDEST must split the first block
    let code = vec![0x01, 0x5B, 0x01, 0x00];
    let pgm = Program::parse_bytecode(code, None);
    assert_eq!(pgm.blocks.len(), 2);
    assert_eq!(pgm.blocks[0].pc_end, 0);
    assert_eq!(pgm.blocks[1].pc_start, 1);
}

#[test]
fn start_addresses_parallel_blocks() {
    let code = vec![0x60, 0x03, 0x56, 0x5B, 0x00];
    let pgm = Program::parse_bytecode(code, None);
    assert_eq!(pgm.start_addresses.len(), 2);
    assert_eq!(pgm.start_addresses[0], word(0));
    assert_eq!(pgm.start_addresses[1], word(3));
}

#[test]
fn capture_restore_round_trips() {
    let mut s = SymbolicStack::new();
    s.push(Some(&vec![0x12, 0x34]));
    s.push(None);
    s.push(Some(&vec![0x56]));
    let cap = s.capture();
    assert_eq!(cap.pc, 3);
    assert_eq!(cap.frame_count, 4);
    let r = SymbolicStack::from_capture(&cap);
    let top = r.peek();
    let bytes = top.inner().expect("top must be concrete").clone();
    assert_eq!(bytes.len(), 32);
    assert_eq!(bytes[31], 0x56);
    assert!(bytes[..31].iter().all(|b| *b == 0));
}

#[test]
fn bytewise_and_commutes() {
    let code: Vec<u8> = Vec::new();
    let and_op = Operation::from_byte(0x16).pc(0);
    let mut s1 = SymbolicStack::new();
    s1.push(Some(&vec![0x0F, 0xF0]));
    s1.push(Some(&vec![0xAA, 0xBB]));
    s1.execute(&and_op, &code);
    let mut s2 = SymbolicStack::new();
    s2.push(Some(&vec![0xAA, 0xBB]));
    s2.push(Some(&vec![0x0F, 0xF0]));
    s2.execute(&and_op, &code);
    let v1 = s1.peek();
    let v2 = s2.peek();
    let b1 = v1.inner().expect("concrete");
    let b2 = v2.inner().expect("concrete");
    assert_eq!(b1, b2);
    assert_eq!(b1[30], 0x0F & 0xAA);
    assert_eq!(b1[31], 0xF0 & 0xBB);
}

#[test]
fn and_with_unknown_gives_zero() {
    let code: Vec<u8> = Vec::new();
    let and_op = Operation::from_byte(0x16).pc(0);
    let mut s = SymbolicStack::new();
    s.push(Some(&vec![0xFF]));
    s.push(None);
    s.execute(&and_op, &code);
    let v = s.peek();
    let b = v.inner().expect("concrete zero");
    assert!(b.iter().all(|x| *x == 0));
}

#[test]
fn word_reads_big_endian() {
    let code = vec![0x01, 0x02, 0x03];
    let w = Word::from_be_bytes(&code, 0, 3);
    assert_eq!(w, Word::from_u64(0x010203));
    assert_eq!(w.to_u64(), 0x010203);
    assert!(w.eq_word(&Word::from_u64(66051)));
}

#[test]
fn matching_sequences_report_offsets() {
    let code = vec![0x60, 0x03, 0x56, 0x5B, 0x00];
    let pgm = Program::parse_bytecode(code, None);
    let pat = vec![OpType::Push, OpType::Jump];
    let ms = pgm.blocks[0].get_matching_op_sequences(&pat);
    assert_eq!(ms, vec![0]);
    let ms2 = pgm.blocks[1].get_matching_op_sequences(&pat);
    assert!(ms2.is_empty());
}

#[test]
fn display_node_joins_mnemonics() {
    let code = vec![0x60, 0x03, 0x56, 0x5B, 0x00];
    let pgm = Program::parse_bytecode(code, None);
    let n0 = pgm.blocks[0].to_display_node();
    assert_eq!(n0.code_loc, 0);
    assert_eq!(n0.ops, "PUSH JUMP");
    let n1 = pgm.blocks[1].to_display_node();
    assert_eq!(n1.code_loc, 3);
    assert_eq!(n1.ops, "JUMPDEST STOP");
}

#[test]
fn operation_record_derives_counts() {
    let op = Operation::from_byte(0x91).pc(5);
    // SWAP2 removes two cells by the coarse count
    assert_eq!(op.rm_stack_count, 2);
    assert_eq!(op.add_stack_count, 1);
    assert_eq!(op.arg_size, 0);
    assert_eq!(op.pc, Some(5));
    let push = Operation::from_byte(0x7F);
    assert_eq!(push.arg_size, 32);
    let inv = Operation::invalid(0xFE, Some(9));
    assert!(inv.is_invalid);
    assert_eq!(inv.pc, Some(9));
}

#[test]
fn symbolic_loop_terminates_on_revisit() {
    // JUMPDEST, PUSH1 0, JUMP: block jumps back to itself forever
    let code = vec![0x5B, 0x60, 0x00, 0x56];
    let mut pgm = Program::parse_bytecode(code, None);
    pgm.gen_symbolic_edges();
    assert_eq!(pgm.edges.len(), 1);
    assert_eq!(pgm.edges[0], (word(0), word(0)));
}
