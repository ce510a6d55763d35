use vstd::prelude::*;
use crate::lexer::Command;
use crate::ast::{Node, NodeType};

verus! {

/// Number of cells on the tape.
pub const MEMORY_SIZE: usize = 30000;

/// The tape index that a data pointer designates: the pointer taken modulo
/// the tape length, rounded towards negative infinity, so always in range.
pub open spec fn wrap(p: int) -> int {
    p % (MEMORY_SIZE as int)
}

/// The state of one run: the tape, the data pointer (kept reduced to its
/// tape index) and the position in the program tree. The position lists,
/// from the root down, the index of the child being run at each open level;
/// its last entry is the next child to visit. It is empty once the program
/// has ended.
pub struct Interpreter {
    pub memory: Vec<u8>,
    pub pointer: usize,
    pub position: Vec<usize>,
}

/// What the caller must do after a step.
#[derive(Debug, Clone, Copy, PartialEq, Eq, Structural)]
pub enum Action {
    /// Nothing: step again.
    Continue,
    /// Write this byte to the output.
    Output(u8),
    /// Read one byte and hand it to `store_input` (0 when no byte is left).
    Input,
    /// The program has ended.
    Halt,
}

/// The mathematical state of a run.
pub struct State {
    pub memory: Seq<u8>,
    pub pointer: int,
    pub position: Seq<usize>,
}

impl Interpreter {
    /// The run as a mathematical state.
    pub open spec fn state(&self) -> State {
        State { memory: self.memory@, pointer: self.pointer as int, position: self.position@ }
    }

    /// The tape has its fixed length, the pointer designates a cell, and the
    /// position lies inside `ast`.
    pub open spec fn wf(&self, ast: &Node) -> bool {
        wf_state(*ast, self.state())
    }
}

/// A state that a run over `ast` can reach.
pub open spec fn wf_state(ast: Node, st: State) -> bool {
    &&& st.memory.len() == MEMORY_SIZE
    &&& 0 <= st.pointer < MEMORY_SIZE
    &&& wf_position(ast, st.position)
}

/// The node reached from `root` by following `path` as child indices.
pub open spec fn node_at(root: Node, path: Seq<usize>) -> Node
    decreases path.len(),
{
    if path.len() == 0 {
        root
    } else {
        node_at(root, path.drop_last()).childrens@[path.last() as int]
    }
}

/// Every index of `path` names an existing child.
pub open spec fn in_range(root: Node, path: Seq<usize>) -> bool
    decreases path.len(),
{
    path.len() == 0 || (in_range(root, path.drop_last()) && path.last() < node_at(
        root,
        path.drop_last(),
    ).childrens@.len())
}

/// The open levels name existing children and the next child to visit is at
/// most one past the last child of its level.
pub open spec fn wf_position(root: Node, pos: Seq<usize>) -> bool {
    pos.len() > 0 ==> in_range(root, pos.drop_last()) && pos.last() <= node_at(
        root,
        pos.drop_last(),
    ).childrens@.len()
}

/// The cell that the data pointer designates.
pub open spec fn current(st: State) -> u8 {
    st.memory[wrap(st.pointer)]
}

/// The effect of one instruction on the tape and pointer, acting on the
/// cell at `index`. Cells wrap modulo 256.
pub open spec fn apply(st: State, cmd: Command, index: int) -> State {
    match cmd {
        Command::IncDP => State { pointer: wrap(st.pointer + 1), ..st },
        Command::DecDP => State { pointer: wrap(st.pointer - 1), ..st },
        Command::IncByte => State {
            memory: st.memory.update(index, ((st.memory[index] + 1) % 256) as u8),
            ..st
        },
        Command::DecByte => State {
            memory: st.memory.update(index, ((st.memory[index] + 255) % 256) as u8),
            ..st
        },
        _ => st,
    }
}

/// Builds a fresh run: a zeroed tape, the pointer on cell 0, and the position
/// before the first child of the root.
pub fn interpreter_init() -> (r: Interpreter)
    ensures
        r.memory@ == Seq::new(MEMORY_SIZE as nat, |i: int| 0u8),
        r.pointer == 0,
        r.position@ == seq![0usize],
{
    let memory: Vec<u8> = vec![0u8; MEMORY_SIZE];
    let mut position: Vec<usize> = Vec::new();
    position.push(0);
    let r = Interpreter { memory, pointer: 0, position };
    assert(r.memory@ =~= Seq::new(MEMORY_SIZE as nat, |i: int| 0u8));
    assert(r.position@ =~= seq![0usize]);
    r
}

/// Applies one instruction to the tape and pointer; `index` is the tape index
/// of the data pointer. Input and output are the caller's part.
fn execute_instruction(interpreter: &mut Interpreter, cmd: &Command, index: usize)
    requires
        old(interpreter).memory@.len() == MEMORY_SIZE,
        old(interpreter).pointer < MEMORY_SIZE,
        index < MEMORY_SIZE,
    ensures
        final(interpreter).state() == apply(old(interpreter).state(), *cmd, index as int),
        final(interpreter).memory@.len() == MEMORY_SIZE,
        final(interpreter).pointer < MEMORY_SIZE,
{
    match cmd {
        Command::IncDP => {
            interpreter.pointer = if interpreter.pointer + 1 == MEMORY_SIZE {
                0
            } else {
                interpreter.pointer + 1
            };
        },
        Command::DecDP => {
            interpreter.pointer = if interpreter.pointer == 0 {
                MEMORY_SIZE - 1
            } else {
                interpreter.pointer - 1
            };
        },
        Command::IncByte => {
            let v = interpreter.memory[index];
            interpreter.memory.set(index, v.wrapping_add(1));
        },
        Command::DecByte => {
            let v = interpreter.memory[index];
            interpreter.memory.set(index, v.wrapping_sub(1));
        },
        _ => {},
    }
    assert(interpreter.state() =~= apply(old(interpreter).state(), *cmd, index as int));
}

/// One step of the walk: the next state and what the caller must do.
/// A loop is entered only while the current cell is nonzero, checked before
/// each pass of its body; at the end of the root's children the run halts.
pub open spec fn next(ast: Node, st: State) -> (State, Action) {
    let pos = st.position;
    if pos.len() == 0 {
        (st, Action::Halt)
    } else {
        let k = pos.len() - 1;
        let frame = node_at(ast, pos.drop_last());
        let i = pos[k];
        let index = wrap(st.pointer);
        if i >= frame.childrens@.len() {
            if k == 0 {
                (State { position: seq![], ..st }, Action::Halt)
            } else if st.memory[index] != 0 {
                (State { position: pos.update(k, 0), ..st }, Action::Continue)
            } else {
                (
                    State {
                        position: pos.drop_last().update(k - 1, (pos[k - 1] + 1) as usize),
                        ..st
                    },
                    Action::Continue,
                )
            }
        } else {
            let child = frame.childrens@[i as int];
            let advanced = pos.update(k, (i + 1) as usize);
            match child.node_type {
                NodeType::Loop => if st.memory[index] != 0 {
                    (State { position: pos.push(0), ..st }, Action::Continue)
                } else {
                    (State { position: advanced, ..st }, Action::Continue)
                },
                NodeType::Operator => {
                    let st2 = apply(st, child.instruction, index);
                    (
                        State { position: advanced, ..st2 },
                        match child.instruction {
                            Command::OutByte => Action::Output(st2.memory[index]),
                            Command::InByte => Action::Input,
                            _ => Action::Continue,
                        },
                    )
                },
                NodeType::Program => (State { position: advanced, ..st }, Action::Continue),
            }
        }
    }
}

proof fn lemma_in_range_prefix(root: Node, p: Seq<usize>, m: int)
    requires
        in_range(root, p),
        0 <= m <= p.len(),
    ensures
        in_range(root, p.subrange(0, m)),
    decreases p.len(),
{
    if m == p.len() {
        assert(p.subrange(0, m) =~= p);
    } else {
        lemma_in_range_prefix(root, p.drop_last(), m);
        assert(p.drop_last().subrange(0, m) =~= p.subrange(0, m));
    }
}

impl Interpreter {
    /// Performs one step of the walk over `ast` and says what the caller must
    /// do next.
    pub fn step(&mut self, ast: &Node) -> (a: Action)
        requires
            old(self).wf(ast),
        ensures
            final(self).wf(ast),
            (final(self).state(), a) == next(*ast, old(self).state()),
    {
        let ghost st = self.state();
        let ghost pos = self.position@;
        let len = self.position.len();
        if len == 0 {
            return Action::Halt;
        }
        let k: usize = len - 1;
        proof {
            assert(pos.drop_last() =~= pos.subrange(0, k as int));
        }
        let mut cur: &Node = ast;
        let mut j: usize = 0;
        while j < k
            invariant
                pos == self.position@,
                k == pos.len() - 1,
                j <= k,
                in_range(*ast, pos.subrange(0, k as int)),
                *cur == node_at(*ast, pos.subrange(0, j as int)),
            decreases k - j,
        {
            proof {
                lemma_in_range_prefix(*ast, pos.subrange(0, k as int), j + 1);
                assert(pos.subrange(0, k as int).subrange(0, j + 1) =~= pos.subrange(0, j + 1));
                assert(pos.subrange(0, j + 1).drop_last() =~= pos.subrange(0, j as int));
            }
            cur = &cur.childrens[self.position[j]];
            j = j + 1;
        }
        proof {
            assert(pos.subrange(0, j as int) =~= pos.drop_last());
        }
        let i = self.position[k];
        let index = self.pointer;
        assert(wrap(st.pointer) == index);
        if i >= cur.childrens.len() {
            if k == 0 {
                self.position.pop();
                assert(self.position@ =~= seq![]);
                return Action::Halt;
            }
            if self.memory[index] != 0 {
                self.position.set(k, 0);
                assert(self.position@.drop_last() =~= pos.drop_last());
            } else {
                self.position.pop();
                let p = self.position[k - 1];
                assert(pos.drop_last().last() == p);
                assert(pos.drop_last().drop_last() =~= pos.subrange(0, k - 1));
                assert(p < node_at(*ast, pos.subrange(0, k - 1)).childrens.len());
                self.position.set(k - 1, p + 1);
                assert(self.position@.drop_last() =~= pos.drop_last().drop_last());
            }
            Action::Continue
        } else {
            let child = &cur.childrens[i];
            match child.node_type {
                NodeType::Loop => {
                    if self.memory[index] != 0 {
                        self.position.push(0);
                        assert(self.position@.drop_last() =~= pos);
                    } else {
                        self.position.set(k, i + 1);
                        assert(self.position@.drop_last() =~= pos.drop_last());
                    }
                    Action::Continue
                },
                NodeType::Operator => {
                    let cmd = child.instruction;
                    execute_instruction(self, &cmd, index);
                    self.position.set(k, i + 1);
                    assert(self.position@.drop_last() =~= pos.drop_last());
                    match cmd {
                        Command::OutByte => Action::Output(self.memory[index]),
                        Command::InByte => Action::Input,
                        _ => Action::Continue,
                    }
                },
                NodeType::Program => {
                    self.position.set(k, i + 1);
                    assert(self.position@.drop_last() =~= pos.drop_last());
                    Action::Continue
                },
            }
        }
    }
}

/// The state after the byte read for an `Input` action is stored in the
/// current cell.
pub open spec fn store(st: State, byte: u8) -> State {
    State { memory: st.memory.update(wrap(st.pointer), byte), ..st }
}

/// The byte that the next read yields: the first one left, or 0 once the
/// input is exhausted.
pub open spec fn next_byte(input: Seq<u8>) -> u8 {
    if input.len() > 0 {
        input[0]
    } else {
        0
    }
}

/// The input left after one read.
pub open spec fn after_read(input: Seq<u8>) -> Seq<u8> {
    if input.len() > 0 {
        input.drop_first()
    } else {
        input
    }
}

/// At most `fuel` steps of the walk from `st`, reading from `input`: the
/// state reached and the bytes written. Stops early once the program ends.
pub open spec fn run(ast: Node, st: State, input: Seq<u8>, fuel: nat) -> (State, Seq<u8>)
    decreases fuel,
{
    if fuel == 0 || st.position.len() == 0 {
        (st, seq![])
    } else {
        let (s1, a) = next(ast, st);
        match a {
            Action::Input => run(ast, store(s1, next_byte(input)), after_read(input), (fuel - 1) as nat),
            Action::Output(b) => {
                let r = run(ast, s1, input, (fuel - 1) as nat);
                (r.0, seq![b] + r.1)
            },
            _ => run(ast, s1, input, (fuel - 1) as nat),
        }
    }
}

impl Interpreter {
    /// Stores a byte read for an `Input` action in the current cell.
    pub fn store_input(&mut self, ast: &Node, byte: u8)
        requires
            old(self).wf(ast),
        ensures
            final(self).wf(ast),
            final(self).state() == store(old(self).state(), byte),
    {
        let index = self.pointer;
        self.memory.set(index, byte);
        assert(self.state() =~= store(old(self).state(), byte));
    }

    /// Whether the program has ended.
    pub fn finished(&self) -> (r: bool)
        ensures
            r == (self.position@.len() == 0),
    {
        self.position.len() == 0
    }
}

/// Runs at most `fuel` steps of `ast`, reading bytes from `input` (0 once it
/// is exhausted), and returns the bytes written. The run has ended when the
/// interpreter is `finished` afterwards.
pub fn run_program(interpreter: &mut Interpreter, ast: &Node, input: &Vec<u8>, fuel: u64) -> (out:
    Vec<u8>)
    requires
        old(interpreter).wf(ast),
    ensures
        final(interpreter).wf(ast),
        (final(interpreter).state(), out@) == run(
            *ast,
            old(interpreter).state(),
            input@,
            fuel as nat,
        ),
{
    let ghost total = run(*ast, interpreter.state(), input@, fuel as nat);
    let mut out: Vec<u8> = Vec::new();
    let mut left: u64 = fuel;
    let mut cursor: usize = 0;
    assert(input@.subrange(0, input@.len() as int) =~= input@);
    assert(out@ + total.1 =~= total.1);
    while left > 0 && interpreter.position.len() > 0
        invariant
            interpreter.wf(ast),
            cursor <= input@.len(),
            total.0 == run(
                *ast,
                interpreter.state(),
                input@.subrange(cursor as int, input@.len() as int),
                left as nat,
            ).0,
            total.1 == out@ + run(
                *ast,
                interpreter.state(),
                input@.subrange(cursor as int, input@.len() as int),
                left as nat,
            ).1,
        decreases left,
    {
        let ghost rest = input@.subrange(cursor as int, input@.len() as int);
        let ghost out_before = out@;
        let a = interpreter.step(ast);
        match a {
            Action::Output(b) => {
                out.push(b);
                proof {
                    let r = run(*ast, interpreter.state(), rest, (left - 1) as nat);
                    assert(out@ + r.1 =~= out_before + (seq![b] + r.1));
                }
            },
            Action::Input => {
                let b: u8 = if cursor < input.len() {
                    let b = input[cursor];
                    cursor = cursor + 1;
                    b
                } else {
                    0
                };
                proof {
                    if rest.len() > 0 {
                        assert(after_read(rest) =~= input@.subrange(cursor as int, input@.len() as int));
                    }
                }
                interpreter.store_input(ast, b);
            },
            _ => {},
        }
        left = left - 1;
    }
    assert(out@ + Seq::<u8>::empty() =~= out@);
    out
}

} // verus!
