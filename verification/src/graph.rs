//! The graph materializer: blocks and edges turned into a directed graph
//! for rendering, with the graph construction delegated to petgraph.

use petgraph::data::FromElements;
use vstd::prelude::*;

use crate::program::{block_model_wf, lemma_program_blocks_wf, Block, Program};
use crate::word::Word;

verus! {

/// The display payload of one graph node: the block identity and its
/// instructions as a space-joined mnemonic string.
#[derive(Debug, Default)]
pub struct CfgNodeData {
    pub ops: String,
    pub code_loc: u64,
}

#[verifier::external_type_specification]
#[verifier::external_body]
pub struct ExDirected(petgraph::Directed);

#[verifier::external_type_specification]
#[verifier::external_body]
#[verifier::reject_recursive_types(N)]
#[verifier::reject_recursive_types(E)]
#[verifier::reject_recursive_types(Ty)]
#[verifier::reject_recursive_types(Ix)]
pub struct ExGraph<N, E, Ty, Ix>(petgraph::graph::Graph<N, E, Ty, Ix>);

/// What nodes a rendered graph holds, in insertion order.
pub uninterp spec fn graph_nodes_of(
    g: petgraph::graph::DiGraph<CfgNodeData, (u64, u64)>,
) -> Seq<CfgNodeData>;

/// What edges a rendered graph holds, as index pairs in insertion order.
pub uninterp spec fn graph_edge_pairs(
    g: petgraph::graph::DiGraph<CfgNodeData, (u64, u64)>,
) -> Seq<(u32, u32)>;

/// Relies on petgraph's `Graph::from_elements`: nodes are added in the
/// order the iterator yields them, and no edges are added.  Adding a node
/// at the limit of the u32 index space aborts, so the count stays below it.
#[verifier::external_body]
fn graph_from_nodes(nodes: Vec<CfgNodeData>) -> (g: petgraph::graph::DiGraph<
    CfgNodeData,
    (u64, u64),
>)
    requires
        nodes@.len() < 0x100000000,
    ensures
        graph_nodes_of(g) == nodes@,
        graph_edge_pairs(g) == Seq::<(u32, u32)>::empty(),
{
    petgraph::graph::DiGraph::from_elements(
        nodes.into_iter().map(|n| petgraph::data::Element::Node { weight: n }),
    )
}

/// Relies on petgraph's `Graph::extend_with_edges`: the edges are appended
/// in order, and no nodes are added when every index names an existing node.
/// Adding an edge at the limit of the u32 index space aborts, so the count
/// stays below it.
#[verifier::external_body]
fn graph_add_edges(
    g: &mut petgraph::graph::DiGraph<CfgNodeData, (u64, u64)>,
    edges: &Vec<(u32, u32)>,
)
    requires
        graph_edge_pairs(*old(g)).len() + edges@.len() < 0x100000000,
        forall|i: int|
            0 <= i < edges@.len() ==> (#[trigger] edges@[i]).0 < graph_nodes_of(*old(g)).len()
                && edges@[i].1 < graph_nodes_of(*old(g)).len(),
    ensures
        graph_nodes_of(*final(g)) == graph_nodes_of(*old(g)),
        graph_edge_pairs(*final(g)) == graph_edge_pairs(*old(g)) + edges@,
{
    g.extend_with_edges(edges.iter().copied());
}

/// The mnemonic of each byte value: the name of the opcode it decodes to,
/// or the designated invalid name.
pub open spec fn mnemonic_spec(b: u8) -> Seq<char> {
    if 0x60 <= b && b <= 0x7F {
        "PUSH"@
    } else if 0x80 <= b && b <= 0x8F {
        "DUP"@
    } else if 0x90 <= b && b <= 0x9F {
        "SWAP"@
    } else if 0xA0 <= b && b <= 0xA4 {
        "LOG"@
    } else if b == 0x00 {
        "STOP"@
    } else if b == 0x01 {
        "ADD"@
    } else if b == 0x02 {
        "MUL"@
    } else if b == 0x03 {
        "SUB"@
    } else if b == 0x04 {
        "DIV"@
    } else if b == 0x05 {
        "SDIV"@
    } else if b == 0x06 {
        "MOD"@
    } else if b == 0x07 {
        "SMOD"@
    } else if b == 0x08 {
        "ADDMOD"@
    } else if b == 0x09 {
        "MULMOD"@
    } else if b == 0x0A {
        "EXP"@
    } else if b == 0x0B {
        "SIGNEXTEND"@
    } else if b == 0x10 {
        "LT"@
    } else if b == 0x11 {
        "GT"@
    } else if b == 0x12 {
        "SLT"@
    } else if b == 0x13 {
        "SGT"@
    } else if b == 0x14 {
        "EQ"@
    } else if b == 0x15 {
        "ISZERO"@
    } else if b == 0x16 {
        "AND"@
    } else if b == 0x17 {
        "OR"@
    } else if b == 0x18 {
        "XOR"@
    } else if b == 0x19 {
        "NOT"@
    } else if b == 0x1A {
        "BYTE"@
    } else if b == 0x1B {
        "SHL"@
    } else if b == 0x1C {
        "SHR"@
    } else if b == 0x1D {
        "SAR"@
    } else if b == 0x20 {
        "SHA3"@
    } else if b == 0x30 {
        "ADDRESS"@
    } else if b == 0x31 {
        "BALANCE"@
    } else if b == 0x32 {
        "ORIGIN"@
    } else if b == 0x33 {
        "CALLER"@
    } else if b == 0x34 {
        "CALLVALUE"@
    } else if b == 0x35 {
        "CALLDATALOAD"@
    } else if b == 0x36 {
        "CALLDATASIZE"@
    } else if b == 0x37 {
        "CALLDATACOPY"@
    } else if b == 0x38 {
        "CODESIZE"@
    } else if b == 0x39 {
        "CODECOPY"@
    } else if b == 0x3A {
        "GASPRICE"@
    } else if b == 0x3B {
        "EXTCODESIZE"@
    } else if b == 0x3C {
        "EXTCODECOPY"@
    } else if b == 0x3D {
        "RETURNDATASIZE"@
    } else if b == 0x3E {
        "RETURNDATACOPY"@
    } else if b == 0x3F {
        "EXTCODEHASH"@
    } else if b == 0x40 {
        "BLOCKHASH"@
    } else if b == 0x41 {
        "COINBASE"@
    } else if b == 0x42 {
        "TIMESTAMP"@
    } else if b == 0x43 {
        "NUMBER"@
    } else if b == 0x44 {
        "DIFFICULTY"@
    } else if b == 0x45 {
        "GASLIMIT"@
    } else if b == 0x46 {
        "CHAINID"@
    } else if b == 0x47 {
        "SELFBALANCE"@
    } else if b == 0x48 {
        "BASEFEE"@
    } else if b == 0x50 {
        "POP"@
    } else if b == 0x51 {
        "MLOAD"@
    } else if b == 0x52 {
        "MSTORE"@
    } else if b == 0x53 {
        "MSTORE8"@
    } else if b == 0x54 {
        "SLOAD"@
    } else if b == 0x55 {
        "SSTORE"@
    } else if b == 0x56 {
        "JUMP"@
    } else if b == 0x57 {
        "JUMPI"@
    } else if b == 0x58 {
        "PC"@
    } else if b == 0x59 {
        "MSIZE"@
    } else if b == 0x5A {
        "GAS"@
    } else if b == 0x5B {
        "JUMPDEST"@
    } else if b == 0xF0 {
        "CREATE"@
    } else if b == 0xF1 {
        "CALL"@
    } else if b == 0xF2 {
        "CALLCODE"@
    } else if b == 0xF3 {
        "RETURN"@
    } else if b == 0xF4 {
        "DELEGATECALL"@
    } else if b == 0xF5 {
        "CREATE2"@
    } else if b == 0xFA {
        "STATICCALL"@
    } else if b == 0xFD {
        "REVERT"@
    } else {
        "INVALID"@
    }
}

/// The mnemonic strings of a run of instructions, joined by single spaces.
pub open spec fn joined_mnemonics(ops: Seq<crate::op::Operation>) -> Seq<char>
    decreases ops.len(),
{
    if ops.len() == 0 {
        Seq::empty()
    } else if ops.len() == 1 {
        mnemonic_spec(ops[0].code)
    } else {
        joined_mnemonics(ops.drop_last()) + " "@ + mnemonic_spec(ops.last().code)
    }
}

/// The mnemonic of a defined opcode byte, or the designated invalid name.
pub fn mnemonic(b: u8) -> (r: &'static str)
    ensures
        r@ == mnemonic_spec(b),
{
    if 0x60 <= b && b <= 0x7F {
        "PUSH"
    } else if 0x80 <= b && b <= 0x8F {
        "DUP"
    } else if 0x90 <= b && b <= 0x9F {
        "SWAP"
    } else if 0xA0 <= b && b <= 0xA4 {
        "LOG"
    } else if b == 0x00 {
        "STOP"
    } else if b == 0x01 {
        "ADD"
    } else if b == 0x02 {
        "MUL"
    } else if b == 0x03 {
        "SUB"
    } else if b == 0x04 {
        "DIV"
    } else if b == 0x05 {
        "SDIV"
    } else if b == 0x06 {
        "MOD"
    } else if b == 0x07 {
        "SMOD"
    } else if b == 0x08 {
        "ADDMOD"
    } else if b == 0x09 {
        "MULMOD"
    } else if b == 0x0A {
        "EXP"
    } else if b == 0x0B {
        "SIGNEXTEND"
    } else if b == 0x10 {
        "LT"
    } else if b == 0x11 {
        "GT"
    } else if b == 0x12 {
        "SLT"
    } else if b == 0x13 {
        "SGT"
    } else if b == 0x14 {
        "EQ"
    } else if b == 0x15 {
        "ISZERO"
    } else if b == 0x16 {
        "AND"
    } else if b == 0x17 {
        "OR"
    } else if b == 0x18 {
        "XOR"
    } else if b == 0x19 {
        "NOT"
    } else if b == 0x1A {
        "BYTE"
    } else if b == 0x1B {
        "SHL"
    } else if b == 0x1C {
        "SHR"
    } else if b == 0x1D {
        "SAR"
    } else if b == 0x20 {
        "SHA3"
    } else if b == 0x30 {
        "ADDRESS"
    } else if b == 0x31 {
        "BALANCE"
    } else if b == 0x32 {
        "ORIGIN"
    } else if b == 0x33 {
        "CALLER"
    } else if b == 0x34 {
        "CALLVALUE"
    } else if b == 0x35 {
        "CALLDATALOAD"
    } else if b == 0x36 {
        "CALLDATASIZE"
    } else if b == 0x37 {
        "CALLDATACOPY"
    } else if b == 0x38 {
        "CODESIZE"
    } else if b == 0x39 {
        "CODECOPY"
    } else if b == 0x3A {
        "GASPRICE"
    } else if b == 0x3B {
        "EXTCODESIZE"
    } else if b == 0x3C {
        "EXTCODECOPY"
    } else if b == 0x3D {
        "RETURNDATASIZE"
    } else if b == 0x3E {
        "RETURNDATACOPY"
    } else if b == 0x3F {
        "EXTCODEHASH"
    } else if b == 0x40 {
        "BLOCKHASH"
    } else if b == 0x41 {
        "COINBASE"
    } else if b == 0x42 {
        "TIMESTAMP"
    } else if b == 0x43 {
        "NUMBER"
    } else if b == 0x44 {
        "DIFFICULTY"
    } else if b == 0x45 {
        "GASLIMIT"
    } else if b == 0x46 {
        "CHAINID"
    } else if b == 0x47 {
        "SELFBALANCE"
    } else if b == 0x48 {
        "BASEFEE"
    } else if b == 0x50 {
        "POP"
    } else if b == 0x51 {
        "MLOAD"
    } else if b == 0x52 {
        "MSTORE"
    } else if b == 0x53 {
        "MSTORE8"
    } else if b == 0x54 {
        "SLOAD"
    } else if b == 0x55 {
        "SSTORE"
    } else if b == 0x56 {
        "JUMP"
    } else if b == 0x57 {
        "JUMPI"
    } else if b == 0x58 {
        "PC"
    } else if b == 0x59 {
        "MSIZE"
    } else if b == 0x5A {
        "GAS"
    } else if b == 0x5B {
        "JUMPDEST"
    } else if b == 0xF0 {
        "CREATE"
    } else if b == 0xF1 {
        "CALL"
    } else if b == 0xF2 {
        "CALLCODE"
    } else if b == 0xF3 {
        "RETURN"
    } else if b == 0xF4 {
        "DELEGATECALL"
    } else if b == 0xF5 {
        "CREATE2"
    } else if b == 0xFA {
        "STATICCALL"
    } else if b == 0xFD {
        "REVERT"
    } else {
        "INVALID"
    }
}

impl Block {
    /// The display payload of this block: its identity and the space-joined
    /// mnemonics of its instructions.
    pub fn to_display_node(&self) -> (r: CfgNodeData)
        ensures
            r.code_loc == self.pc_start,
            r.ops@ == joined_mnemonics(self.ops@),
    {
        let id = self.id();
        let mut ops = String::from_str("");
        let mut i: usize = 0;
        proof {
            reveal_strlit("");
            assert(ops@ =~= joined_mnemonics(self.ops@.subrange(0, 0)));
        }
        while i < self.ops.len()
            invariant
                i <= self.ops@.len(),
                ops@ == joined_mnemonics(self.ops@.subrange(0, i as int)),
            decreases self.ops@.len() - i,
        {
            let ghost prefix = self.ops@.subrange(0, i as int);
            let ghost next = self.ops@.subrange(0, i + 1);
            if i > 0 {
                ops.append(" ");
            }
            ops.append(mnemonic(self.ops[i].code));
            proof {
                assert(next.drop_last() =~= prefix);
                assert(next.last() == self.ops@[i as int]);
                if i == 0 {
                    assert(next.len() == 1);
                    assert(ops@ =~= mnemonic_spec(next[0].code));
                }
            }
            i = i + 1;
        }
        proof {
            assert(self.ops@.subrange(0, self.ops@.len() as int) =~= self.ops@);
        }
        CfgNodeData { code_loc: id.to_u64(), ops }
    }
}

impl Program {
    /// Every edge endpoint names some block.
    pub open spec fn edges_resolvable(&self) -> bool {
        forall|i: int|
            0 <= i < self.edges@.len() ==> (exists|a: int|
                0 <= a < self.blocks@.len() && (#[trigger] self.edges@[i]).0.value()
                    == self.blocks@[a].pc_start) && (exists|b: int|
                0 <= b < self.blocks@.len() && self.edges@[i].1.value() == self.blocks@[
                b].pc_start)
    }

    /// Build the directed graph: one node per block in source order, each
    /// edge carried over from block identities to dense node indices.
    pub fn render(&self) -> (g: petgraph::graph::DiGraph<CfgNodeData, (u64, u64)>)
        requires
            self.wf(),
            self.blocks@.len() < 0x100000000,
            self.edges@.len() < 0x100000000,
            self.edges_resolvable(),
        ensures
            graph_nodes_of(g).len() == self.blocks@.len(),
            forall|i: int|
                0 <= i < self.blocks@.len() ==> (#[trigger] graph_nodes_of(g)[i]).code_loc
                    == self.blocks@[i].pc_start,
            forall|i: int|
                0 <= i < self.blocks@.len() ==> (#[trigger] graph_nodes_of(g)[i]).ops@
                    == joined_mnemonics(self.blocks@[i]@.ops),
            graph_edge_pairs(g).len() == self.edges@.len(),
            forall|i: int|
                0 <= i < self.edges@.len() ==> self.blocks@[(#[trigger] graph_edge_pairs(
                    g,
                )[i]).0 as int].pc_start == self.edges@[i].0.value() && self.blocks@[
                graph_edge_pairs(g)[i].1 as int].pc_start == self.edges@[i].1.value(),
    {
        let mut graph_nodes: Vec<CfgNodeData> = Vec::new();
        let mut i: usize = 0;
        while i < self.blocks.len()
            invariant
                i <= self.blocks@.len(),
                graph_nodes@.len() == i,
                forall|t: int|
                    0 <= t < i ==> (#[trigger] graph_nodes@[t]).code_loc == self.blocks@[
                    t].pc_start,
                forall|t: int|
                    0 <= t < i ==> (#[trigger] graph_nodes@[t]).ops@ == joined_mnemonics(
                        self.blocks@[t]@.ops,
                    ),
            decreases self.blocks@.len() - i,
        {
            graph_nodes.push(self.blocks[i].to_display_node());
            i = i + 1;
        }
        let mut edge_idx: Vec<(u32, u32)> = Vec::new();
        let mut e: usize = 0;
        while e < self.edges.len()
            invariant
                self.blocks@.len() < 0x100000000,
                e <= self.edges@.len(),
                edge_idx@.len() == e,
                self.edges_resolvable(),
                forall|t: int|
                    0 <= t < e ==> (#[trigger] edge_idx@[t]).0 < self.blocks@.len() && edge_idx@[
                    t].1 < self.blocks@.len(),
                forall|t: int|
                    0 <= t < e ==> self.blocks@[(#[trigger] edge_idx@[t]).0 as int].pc_start
                        == self.edges@[t].0.value() && self.blocks@[edge_idx@[
                    t].1 as int].pc_start == self.edges@[t].1.value(),
            decreases self.edges@.len() - e,
        {
            let src = self.find_node_index(&self.edges[e].0);
            let dst = self.find_node_index(&self.edges[e].1);
            edge_idx.push((src as u32, dst as u32));
            e = e + 1;
        }
        let mut g = graph_from_nodes(graph_nodes);
        proof {
            assert(graph_edge_pairs(g) + edge_idx@ =~= edge_idx@);
        }
        graph_add_edges(&mut g, &edge_idx);
        g
    }

    /// The index of a block whose identity is `w`.
    fn find_node_index(&self, w: &Word) -> (r: usize)
        requires
            exists|a: int|
                0 <= a < self.blocks@.len() && w.value() == (#[trigger] self.blocks@[
                a]).pc_start,
        ensures
            r < self.blocks@.len(),
            self.blocks@[r as int].pc_start == w.value(),
    {
        let mut j: usize = 0;
        proof {
            assert(self.blocks@.len() == self.blocks.len());
        }
        loop
            invariant
                j <= self.blocks@.len(),
                self.blocks@.len() <= usize::MAX,
                exists|a: int|
                    j <= a < self.blocks@.len() && w.value() == (#[trigger] self.blocks@[
                    a]).pc_start,
            decreases self.blocks@.len() - j,
        {
            if w.eq_word(&self.blocks[j].id()) {
                return j;
            }
            j = j + 1;
        }
    }
}

} // verus!
