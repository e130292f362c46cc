//! Bitcoin script as a sequence of instructions: the wire format as a
//! mathematical model, and the calls into the `bitcoin` crate that read and
//! write it.

use vstd::prelude::*;

verus! {

/// One script instruction, as plain values: the payload of a data push, or
/// the code of any other opcode.
#[derive(Debug, Clone, PartialEq, Eq)]
pub enum Instruction {
    PushBytes(Vec<u8>),
    Op(u8),
}

/// The mathematical value of an [`Instruction`].
pub enum Instr {
    Push(Seq<u8>),
    Op(u8),
}

impl View for Instruction {
    type V = Instr;

    open spec fn view(&self) -> Instr {
        match self {
            Instruction::PushBytes(data) => Instr::Push(data@),
            Instruction::Op(code) => Instr::Op(*code),
        }
    }
}

/// The instructions held by a vector, as mathematical values.
pub open spec fn instrs_of(v: Seq<Instruction>) -> Seq<Instr> {
    v.map_values(|i: Instruction| i@)
}

/// The length prefix that the script encoder writes before `n` bytes of
/// pushed data: the shortest of the four forms that can hold `n`.
pub open spec fn push_header(n: nat) -> Seq<u8> {
    if n < 0x4c {
        seq![n as u8]
    } else if n < 0x100 {
        seq![0x4cu8, n as u8]
    } else if n < 0x10000 {
        seq![0x4du8, (n % 0x100) as u8, (n / 0x100) as u8]
    } else {
        seq![
            0x4eu8,
            (n % 0x100) as u8,
            ((n / 0x100) % 0x100) as u8,
            ((n / 0x10000) % 0x100) as u8,
            (n / 0x1000000) as u8,
        ]
    }
}

/// The bytes that the script encoder writes for one instruction.
pub open spec fn encoding(i: Instr) -> Seq<u8> {
    match i {
        Instr::Op(code) => seq![code],
        Instr::Push(data) => push_header(data.len()) + data,
    }
}

/// The bytes that the script encoder writes for a run of instructions.
pub open spec fn encoding_all(s: Seq<Instr>) -> Seq<u8>
    decreases s.len(),
{
    if s.len() == 0 {
        Seq::empty()
    } else {
        encoding_all(s.drop_last()) + encoding(s.last())
    }
}

/// An instruction that the encoder writes back as itself: a push of fewer
/// than 2^32 bytes, or an opcode above the push range.
pub open spec fn encodable(i: Instr) -> bool {
    match i {
        Instr::Op(code) => code > 0x4e,
        Instr::Push(data) => data.len() < 0x1_0000_0000,
    }
}

/// Every instruction of the run is written back as itself.
pub open spec fn all_encodable(s: Seq<Instr>) -> bool {
    forall|k: int| 0 <= k < s.len() ==> encodable(#[trigger] s[k])
}

/// How many bytes after the opcode byte `b` hold the length of a push:
/// none for a direct push, 1, 2 or 4 for the three `PUSHDATA` opcodes.
pub open spec fn length_width(b: u8) -> nat {
    if b == 0x4c {
        1
    } else if b == 0x4d {
        2
    } else if b == 0x4e {
        4
    } else {
        0
    }
}

/// The little-endian number in the first `w` bytes of `s`, for `w` of 1, 2 or 4.
pub open spec fn length_field(s: Seq<u8>, w: nat) -> nat {
    if w == 1 {
        s[0] as nat
    } else if w == 2 {
        (s[0] as nat) + 0x100 * (s[1] as nat)
    } else {
        (s[0] as nat) + 0x100 * (s[1] as nat) + 0x10000 * (s[2] as nat) + 0x1000000 * (s[3] as nat)
    }
}

/// The instruction at the start of `s` and the number of bytes it takes, or
/// `None` where `s` is empty or ends inside the instruction.
///
/// An opcode byte up to `0x4b` pushes that many of the following bytes; `0x4c`,
/// `0x4d` and `0x4e` read the length from the next 1, 2 or 4 bytes; every
/// other byte is an opcode of its own.
pub open spec fn first_instruction(s: Seq<u8>) -> Option<(Instr, nat)> {
    if s.len() == 0 {
        None
    } else if s[0] <= 0x4b {
        let n = s[0] as nat;
        if s.len() < 1 + n {
            None
        } else {
            Some((Instr::Push(s.subrange(1, 1 + n as int)), 1 + n))
        }
    } else if s[0] <= 0x4e {
        let w = length_width(s[0]);
        if s.len() < 1 + w {
            None
        } else {
            let n = length_field(s.skip(1), w);
            if s.len() < 1 + w + n {
                None
            } else {
                Some((Instr::Push(s.subrange(1 + w as int, 1 + w + n as int)), 1 + w + n))
            }
        }
    } else {
        Some((Instr::Op(s[0]), 1))
    }
}

/// All instructions of the script `s` in order, or `None` where `s` ends
/// inside an instruction.
pub open spec fn instructions(s: Seq<u8>) -> Option<Seq<Instr>>
    decreases s.len(),
{
    if s.len() == 0 {
        Some(Seq::empty())
    } else {
        match first_instruction(s) {
            None => None,
            Some((i, k)) => match instructions(s.skip(k as int)) {
                None => None,
                Some(rest) => Some(seq![i] + rest),
            },
        }
    }
}

/// `OP_IF` or `OP_NOTIF`: the instruction opens a conditional.
pub open spec fn opens_conditional(i: Instr) -> bool {
    i == Instr::Op(0x63) || i == Instr::Op(0x64)
}

/// `OP_ENDIF`: the instruction closes a conditional.
pub open spec fn closes_conditional(i: Instr) -> bool {
    i == Instr::Op(0x68)
}

/// `OP_IF`, `OP_NOTIF` or `OP_ENDIF`: the instruction opens or closes a
/// conditional.
pub open spec fn is_flow_op(i: Instr) -> bool {
    opens_conditional(i) || closes_conditional(i)
}

/// Conditionals opened minus conditionals closed by one instruction.
pub open spec fn instr_depth(i: Instr) -> int {
    if opens_conditional(i) {
        1
    } else if closes_conditional(i) {
        -1
    } else {
        0
    }
}

/// Conditionals opened minus conditionals closed over a run of instructions.
pub open spec fn unclosed_ifs(s: Seq<Instr>) -> int
    decreases s.len(),
{
    if s.len() == 0 {
        0
    } else {
        unclosed_ifs(s.drop_last()) + instr_depth(s.last())
    }
}

/// Whether any instruction of the run opens or closes a conditional.
pub open spec fn has_flow_op(s: Seq<Instr>) -> bool {
    exists|k: int| 0 <= k < s.len() && is_flow_op(#[trigger] s[k])
}

/// Reads one instruction with `bitcoin`'s `Script::instructions` iterator,
/// from the bytes of `script` that start at `pos`. The iterator's first item
/// is taken to be `first_instruction` of those bytes, and the length of the
/// script that the iterator has left, which is returned beside the
/// instruction, to be what follows it. An error item, or none, comes back as
/// `None`.
#[verifier::external_body]
fn next_instruction(script: &Vec<u8>, pos: usize) -> (r: Option<(Instruction, usize)>)
    requires
        pos <= script.len(),
    ensures
        match first_instruction(script@.skip(pos as int)) {
            Some((i, k)) => r matches Some((ins, left)) && ins@ == i && left == script.len() - pos
                - k,
            None => r is None,
        },
{
    let mut rest = bitcoin::Script::from_bytes(&script[pos..]).instructions();
    match rest.next() {
        Some(Ok(bitcoin::script::Instruction::Op(op))) => Some(
            (Instruction::Op(op.to_u8()), rest.as_script().len()),
        ),
        Some(Ok(bitcoin::script::Instruction::PushBytes(data))) => Some(
            (Instruction::PushBytes(data.as_bytes().to_vec()), rest.as_script().len()),
        ),
        _ => None,
    }
}

/// Appends one instruction with `bitcoin`'s `ScriptBuf::push_instruction`,
/// which writes an opcode as its byte and a push as the shortest length
/// prefix followed by the data. It panics on a push of 2^32 bytes or more,
/// which `requires` leaves out.
#[verifier::external_body]
pub(crate) fn push_instruction(script: &mut Vec<u8>, instruction: &Instruction)
    requires
        instruction@ matches Instr::Push(data) ==> data.len() < 0x1_0000_0000,
    ensures
        final(script)@ == old(script)@ + encoding(instruction@),
{
    let mut buf = bitcoin::ScriptBuf::from_bytes(std::mem::take(script));
    match instruction {
        Instruction::Op(code) => buf.push_instruction(
            bitcoin::script::Instruction::Op(bitcoin::Opcode::from(*code)),
        ),
        Instruction::PushBytes(data) => buf.push_instruction(
            bitcoin::script::Instruction::PushBytes(data.as_slice().try_into().unwrap()),
        ),
    }
    *script = buf.into_bytes();
}

/// The byte of `bitcoin`'s `OP_IF`.
#[verifier::external_body]
fn op_if() -> (code: u8)
    ensures
        code == 0x63,
{
    bitcoin::opcodes::all::OP_IF.to_u8()
}

/// The byte of `bitcoin`'s `OP_NOTIF`.
#[verifier::external_body]
fn op_notif() -> (code: u8)
    ensures
        code == 0x64,
{
    bitcoin::opcodes::all::OP_NOTIF.to_u8()
}

/// The byte of `bitcoin`'s `OP_ENDIF`.
#[verifier::external_body]
fn op_endif() -> (code: u8)
    ensures
        code == 0x68,
{
    bitcoin::opcodes::all::OP_ENDIF.to_u8()
}

impl Instruction {
    /// Conditionals opened minus conditionals closed by this instruction:
    /// 1 for `OP_IF` and `OP_NOTIF`, -1 for `OP_ENDIF`, 0 for all others.
    pub fn flow_depth(&self) -> (d: i32)
        ensures
            d == instr_depth(self@),
    {
        match self {
            Instruction::PushBytes(_) => 0,
            Instruction::Op(code) => {
                if *code == op_if() || *code == op_notif() {
                    1
                } else if *code == op_endif() {
                    -1
                } else {
                    0
                }
            },
        }
    }

    /// Whether this instruction is `OP_IF`, `OP_NOTIF` or `OP_ENDIF`.
    pub fn is_flow_op(&self) -> (b: bool)
        ensures
            b == is_flow_op(self@),
    {
        self.flow_depth() != 0
    }
}

/// What `first_instruction` returns lies within the script and takes at
/// least one byte, and the encoder writes the instruction back in no more
/// bytes than it took.
pub proof fn lemma_first_instruction_bounds(s: Seq<u8>)
    requires
        first_instruction(s) is Some,
    ensures
        1 <= first_instruction(s).unwrap().1 <= s.len(),
        encodable(first_instruction(s).unwrap().0),
        encoding(first_instruction(s).unwrap().0).len() <= first_instruction(s).unwrap().1,
{
}

/// The encoder works instruction by instruction.
pub proof fn lemma_encoding_all_add(a: Seq<Instr>, b: Seq<Instr>)
    ensures
        encoding_all(a + b) == encoding_all(a) + encoding_all(b),
    decreases b.len(),
{
    if b.len() == 0 {
        assert(a + b == a);
        assert(encoding_all(a) + Seq::<u8>::empty() == encoding_all(a));
    } else {
        lemma_encoding_all_add(a, b.drop_last());
        assert((a + b).drop_last() == a + b.drop_last());
        assert(encoding_all(a) + (encoding_all(b.drop_last()) + encoding(b.last())) == (
        encoding_all(a) + encoding_all(b.drop_last())) + encoding(b.last()));
    }
}

/// What the encoder writes for one instruction, and that it writes at
/// least one byte.
pub proof fn lemma_encoding_all_single(i: Instr)
    ensures
        encoding_all(seq![i]) == encoding(i),
        encoding(i).len() >= 1,
{
    assert(seq![i].drop_last() == Seq::<Instr>::empty());
    assert(encoding_all(Seq::<Instr>::empty()) == Seq::<u8>::empty());
    assert(Seq::<u8>::empty() + encoding(i) == encoding(i));
}

/// The encoder writes at least one byte for each instruction.
pub proof fn lemma_encoding_all_len(s: Seq<Instr>)
    ensures
        encoding_all(s).len() >= s.len(),
    decreases s.len(),
{
    if s.len() > 0 {
        lemma_encoding_all_len(s.drop_last());
        lemma_encoding_all_single(s.last());
    }
}

/// The bytes of a length prefix hold the length.
proof fn lemma_length_bytes(n: nat)
    requires
        n < 0x1_0000_0000,
    ensures
        n % 0x100 + 0x100 * ((n / 0x100) % 0x100) + 0x10000 * ((n / 0x10000) % 0x100) + 0x1000000
            * (n / 0x1000000) == n,
        n / 0x1000000 < 0x100,
        n < 0x10000 ==> n % 0x100 + 0x100 * (n / 0x100) == n && n / 0x100 < 0x100,
{
    let m: u64 = n as u64;
    assert(m % 0x100 + 0x100 * ((m / 0x100) % 0x100) + 0x10000 * ((m / 0x10000) % 0x100)
        + 0x1000000 * (m / 0x1000000) == m && m / 0x1000000 < 0x100) by (bit_vector)
        requires
            m < 0x1_0000_0000,
    ;
    assert(m < 0x10000 ==> m % 0x100 + 0x100 * (m / 0x100) == m && m / 0x100 < 0x100)
        by (bit_vector);
}

/// The parser reads back a push of fewer than 76 bytes.
proof fn lemma_first_of_short_push(data: Seq<u8>, rest: Seq<u8>)
    requires
        data.len() < 0x4c,
    ensures
        first_instruction(encoding(Instr::Push(data)) + rest) == Some(
            (Instr::Push(data), encoding(Instr::Push(data)).len()),
        ),
{
    let s = encoding(Instr::Push(data)) + rest;
    let n = data.len();
    assert(s[0] == push_header(n)[0]);
    assert(s.subrange(1, 1 + n as int) == data);
}

/// The parser reads back a push whose length takes one byte.
proof fn lemma_first_of_push1(data: Seq<u8>, rest: Seq<u8>)
    requires
        0x4c <= data.len() < 0x100,
    ensures
        first_instruction(encoding(Instr::Push(data)) + rest) == Some(
            (Instr::Push(data), encoding(Instr::Push(data)).len()),
        ),
{
    let s = encoding(Instr::Push(data)) + rest;
    let n = data.len();
    let h = push_header(n);
    assert(s[0] == h[0]);
    assert(s.skip(1)[0] == h[1]);
    assert(length_field(s.skip(1), 1) == n);
    assert(s.subrange(2, 2 + n as int) == data);
}

/// The parser reads back a push whose length takes two bytes.
proof fn lemma_first_of_push2(data: Seq<u8>, rest: Seq<u8>)
    requires
        0x100 <= data.len() < 0x10000,
    ensures
        first_instruction(encoding(Instr::Push(data)) + rest) == Some(
            (Instr::Push(data), encoding(Instr::Push(data)).len()),
        ),
{
    let s = encoding(Instr::Push(data)) + rest;
    let n = data.len();
    let h = push_header(n);
    lemma_length_bytes(n);
    assert(s[0] == h[0]);
    assert(s.skip(1)[0] == h[1]);
    assert(s.skip(1)[1] == h[2]);
    assert(length_field(s.skip(1), 2) == n);
    assert(s.subrange(3, 3 + n as int) == data);
}

/// The parser reads back a push whose length takes four bytes.
proof fn lemma_first_of_push4(data: Seq<u8>, rest: Seq<u8>)
    requires
        0x10000 <= data.len() < 0x1_0000_0000,
    ensures
        first_instruction(encoding(Instr::Push(data)) + rest) == Some(
            (Instr::Push(data), encoding(Instr::Push(data)).len()),
        ),
{
    let s = encoding(Instr::Push(data)) + rest;
    let n = data.len();
    let h = push_header(n);
    lemma_length_bytes(n);
    assert(s[0] == h[0]);
    assert(s.skip(1)[0] == h[1]);
    assert(s.skip(1)[1] == h[2]);
    assert(s.skip(1)[2] == h[3]);
    assert(s.skip(1)[3] == h[4]);
    assert(length_field(s.skip(1), 4) == n);
    assert(s.subrange(5, 5 + n as int) == data);
}

/// The parser reads back what the encoder wrote for one instruction,
/// whatever follows it.
pub proof fn lemma_first_of_encoding(i: Instr, rest: Seq<u8>)
    requires
        encodable(i),
    ensures
        first_instruction(encoding(i) + rest) == Some((i, encoding(i).len())),
{
    match i {
        Instr::Op(code) => {
            assert((encoding(i) + rest)[0] == code);
        },
        Instr::Push(data) => {
            if data.len() < 0x4c {
                lemma_first_of_short_push(data, rest);
            } else if data.len() < 0x100 {
                lemma_first_of_push1(data, rest);
            } else if data.len() < 0x10000 {
                lemma_first_of_push2(data, rest);
            } else {
                lemma_first_of_push4(data, rest);
            }
        },
    }
}

/// The first instruction of a script stays the first when bytes follow.
pub proof fn lemma_first_instruction_prefix(a: Seq<u8>, b: Seq<u8>)
    requires
        first_instruction(a) is Some,
    ensures
        first_instruction(a + b) == first_instruction(a),
{
    let s = a + b;
    let k = first_instruction(a).unwrap().1;
    assert(s[0] == a[0]);
    if a[0] <= 0x4b {
        assert(s.subrange(1, k as int) == a.subrange(1, k as int));
    } else if a[0] <= 0x4e {
        let w = length_width(a[0]);
        assert(forall|j: int| 0 <= j < w ==> s.skip(1)[j] == a.skip(1)[j]);
        assert(s.subrange(1 + w as int, k as int) == a.subrange(1 + w as int, k as int));
    }
}

/// The instructions of two scripts written one after the other are those of
/// the first followed by those of the second.
pub proof fn lemma_instructions_add(a: Seq<u8>, b: Seq<u8>)
    requires
        instructions(a) is Some,
        instructions(b) is Some,
    ensures
        instructions(a + b) == Some(instructions(a).unwrap() + instructions(b).unwrap()),
    decreases a.len(),
{
    if a.len() == 0 {
        assert(a + b == b);
        assert(Seq::<Instr>::empty() + instructions(b).unwrap() == instructions(b).unwrap());
    } else {
        lemma_first_instruction_bounds(a);
        lemma_first_instruction_prefix(a, b);
        let (i, k) = first_instruction(a).unwrap();
        lemma_instructions_add(a.skip(k as int), b);
        assert((a + b).skip(k as int) == a.skip(k as int) + b);
        let x = instructions(a.skip(k as int)).unwrap();
        let y = instructions(b).unwrap();
        assert(seq![i] + (x + y) == (seq![i] + x) + y);
    }
}

/// The parser reads back the one instruction that the encoder wrote.
pub proof fn lemma_instructions_of_encoding(i: Instr)
    requires
        encodable(i),
    ensures
        instructions(encoding(i)) == Some(seq![i]),
{
    let s = encoding(i);
    lemma_encoding_all_single(i);
    lemma_first_of_encoding(i, Seq::empty());
    assert(s + Seq::<u8>::empty() == s);
    assert(s.skip(s.len() as int) == Seq::<u8>::empty());
    assert(instructions(Seq::<u8>::empty()) == Some(Seq::<Instr>::empty()));
    assert(seq![i] + Seq::<Instr>::empty() == seq![i]);
}

/// Reading back what the encoder wrote gives the instructions that were
/// written.
pub proof fn lemma_round_trip(s: Seq<Instr>)
    requires
        all_encodable(s),
    ensures
        instructions(encoding_all(s)) == Some(s),
    decreases s.len(),
{
    if s.len() > 0 {
        lemma_round_trip(s.drop_last());
        lemma_instructions_of_encoding(s.last());
        lemma_instructions_add(encoding_all(s.drop_last()), encoding(s.last()));
        assert(s.drop_last() + seq![s.last()] == s);
    }
}

/// What the parser returns can be written back, in no more bytes than were
/// read, and holds no more instructions than the script has bytes.
pub proof fn lemma_parsed(s: Seq<u8>)
    requires
        instructions(s) is Some,
    ensures
        all_encodable(instructions(s).unwrap()),
        encoding_all(instructions(s).unwrap()).len() <= s.len(),
        instructions(s).unwrap().len() <= s.len(),
    decreases s.len(),
{
    if s.len() > 0 {
        lemma_first_instruction_bounds(s);
        let (i, k) = first_instruction(s).unwrap();
        lemma_parsed(s.skip(k as int));
        let rest = instructions(s.skip(k as int)).unwrap();
        lemma_encoding_all_add(seq![i], rest);
        lemma_encoding_all_single(i);
    } else {
        assert(encoding_all(Seq::<Instr>::empty()) == Seq::<u8>::empty());
    }
}

/// The balance of conditionals adds up over concatenation.
pub proof fn lemma_unclosed_ifs_add(a: Seq<Instr>, b: Seq<Instr>)
    ensures
        unclosed_ifs(a + b) == unclosed_ifs(a) + unclosed_ifs(b),
    decreases b.len(),
{
    if b.len() == 0 {
        assert(a + b == a);
    } else {
        lemma_unclosed_ifs_add(a, b.drop_last());
        assert((a + b).drop_last() == a + b.drop_last());
    }
}

/// The balance of a single instruction.
pub proof fn lemma_unclosed_ifs_single(i: Instr)
    ensures
        unclosed_ifs(seq![i]) == instr_depth(i),
{
    assert(seq![i].drop_last() == Seq::<Instr>::empty());
    assert(unclosed_ifs(Seq::<Instr>::empty()) == 0);
}

/// A concatenation holds a flow instruction exactly if one of its parts does.
pub proof fn lemma_has_flow_op_add(a: Seq<Instr>, b: Seq<Instr>)
    ensures
        has_flow_op(a + b) == (has_flow_op(a) || has_flow_op(b)),
{
    if has_flow_op(a) {
        let k = choose|k: int| 0 <= k < a.len() && is_flow_op(#[trigger] a[k]);
        assert((a + b)[k] == a[k]);
    }
    if has_flow_op(b) {
        let k = choose|k: int| 0 <= k < b.len() && is_flow_op(#[trigger] b[k]);
        assert((a + b)[a.len() + k] == b[k]);
    }
    if has_flow_op(a + b) {
        let k = choose|k: int| 0 <= k < (a + b).len() && is_flow_op(#[trigger] (a + b)[k]);
        if k < a.len() {
            assert(a[k] == (a + b)[k]);
        } else {
            assert(b[k - a.len()] == (a + b)[k]);
        }
    }
}

/// A run without flow instructions is balanced, and the balance of any run
/// is bounded by its length.
pub proof fn lemma_unclosed_ifs_bound(s: Seq<Instr>)
    ensures
        -s.len() <= unclosed_ifs(s) <= s.len(),
        !has_flow_op(s) ==> unclosed_ifs(s) == 0,
    decreases s.len(),
{
    if s.len() > 0 {
        lemma_unclosed_ifs_bound(s.drop_last());
        if !has_flow_op(s) {
            assert(!is_flow_op(s[s.len() - 1]));
            if has_flow_op(s.drop_last()) {
                let k = choose|k: int|
                    0 <= k < s.drop_last().len() && is_flow_op(#[trigger] s.drop_last()[k]);
                assert(s[k] == s.drop_last()[k]);
            }
        }
    }
}

/// The balance of conditionals of a run of instructions, and whether it
/// holds a flow instruction at all.
pub fn count_unclosed_ifs(instrs: &Vec<Instruction>) -> (r: (i128, bool))
    ensures
        r.0 == unclosed_ifs(instrs_of(instrs@)),
        r.1 == has_flow_op(instrs_of(instrs@)),
{
    let mut open: i128 = 0;
    let mut flow: bool = false;
    let mut i: usize = 0;
    proof {
        assert(instrs_of(instrs@).take(0) == Seq::<Instr>::empty());
    }
    while i < instrs.len()
        invariant
            i <= instrs.len(),
            open == unclosed_ifs(instrs_of(instrs@).take(i as int)),
            flow == has_flow_op(instrs_of(instrs@).take(i as int)),
            -i <= open <= i,
        decreases instrs.len() - i,
    {
        let d: i32 = instrs[i].flow_depth();
        proof {
            let all = instrs_of(instrs@);
            assert(all.take(i + 1) == all.take(i as int) + seq![all[i as int]]);
            lemma_unclosed_ifs_add(all.take(i as int), seq![all[i as int]]);
            lemma_has_flow_op_add(all.take(i as int), seq![all[i as int]]);
            lemma_unclosed_ifs_single(all[i as int]);
            assert(has_flow_op(seq![all[i as int]]) == is_flow_op(all[i as int])) by {
                if is_flow_op(all[i as int]) {
                    assert(is_flow_op(seq![all[i as int]][0]));
                }
            }
        }
        open = open + (d as i128);
        flow = flow || d != 0;
        i = i + 1;
    }
    proof {
        assert(instrs_of(instrs@).take(i as int) == instrs_of(instrs@));
    }
    (open, flow)
}

/// Splits a script into its instructions, by repeated calls of the outside
/// parser. `None` where the script ends inside an instruction.
pub fn parse_script(script: &Vec<u8>) -> (r: Option<Vec<Instruction>>)
    ensures
        match instructions(script@) {
            Some(s) => r matches Some(v) && instrs_of(v@) == s,
            None => r is None,
        },
{
    let mut out: Vec<Instruction> = Vec::new();
    let mut pos: usize = 0;
    proof {
        assert(script@.skip(0) == script@);
        if instructions(script@) is Some {
            assert(instrs_of(out@) + instructions(script@).unwrap() == instructions(
                script@,
            ).unwrap());
        }
    }
    while pos < script.len()
        invariant
            pos <= script.len(),
            match instructions(script@.skip(pos as int)) {
                Some(rest) => instructions(script@) == Some(instrs_of(out@) + rest),
                None => instructions(script@) is None,
            },
        decreases script.len() - pos,
    {
        let ghost tail = script@.skip(pos as int);
        match next_instruction(script, pos) {
            None => {
                return None;
            },
            Some((ins, left)) => {
                proof {
                    lemma_first_instruction_bounds(tail);
                    let k = first_instruction(tail).unwrap().1;
                    assert(tail.skip(k as int) == script@.skip(pos + k));
                    assert(instrs_of(out@.push(ins)) == instrs_of(out@).push(ins@));
                    if instructions(tail.skip(k as int)) is Some {
                        let rest = instructions(tail.skip(k as int)).unwrap();
                        assert(instrs_of(out@) + (seq![ins@] + rest) == instrs_of(out@).push(ins@)
                            + rest);
                    }
                }
                out.push(ins);
                pos = script.len() - left;
            },
        }
    }
    proof {
        assert(script@.skip(pos as int).len() == 0);
        assert(instrs_of(out@) + Seq::<Instr>::empty() == instrs_of(out@));
    }
    Some(out)
}

} // verus!
