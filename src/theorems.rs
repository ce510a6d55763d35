use vstd::prelude::*;
use crate::lexer::Command;
use crate::ast::{Node, NodeType};
use crate::interpreter::{
    MEMORY_SIZE,
    State,
    apply,
    current,
    next,
    node_at,
    run,
    wrap,
};

verus! {

/// Cell arithmetic is modular: incrementing 255 gives 0 and decrementing 0
/// gives 255; no other cell and not the pointer change.
pub proof fn lemma_cell_wraps(st: State, index: int)
    requires
        0 <= index < st.memory.len(),
    ensures
        st.memory[index] == 255 ==> apply(st, Command::IncByte, index).memory == st.memory.update(
            index,
            0,
        ),
        st.memory[index] == 0 ==> apply(st, Command::DecByte, index).memory == st.memory.update(
            index,
            255,
        ),
        apply(st, Command::IncByte, index).pointer == st.pointer,
        apply(st, Command::DecByte, index).pointer == st.pointer,
{
}

/// The pointer wraps by floor modulo: one step left from cell 0 reaches the
/// last cell of the tape.
pub proof fn lemma_left_of_zero(st: State)
    requires
        st.pointer == 0,
        st.memory.len() == MEMORY_SIZE,
    ensures
        apply(st, Command::DecDP, 0).pointer == MEMORY_SIZE - 1,
        current(apply(st, Command::DecDP, 0)) == st.memory[MEMORY_SIZE - 1],
{
}

/// Keeping the pointer reduced to its tape index after every move designates
/// the same cells as keeping the unbounded offset and reducing it when a cell
/// is read: the index is always in range, and moving from the reduced value
/// reduces to the same index as moving from the offset.
pub proof fn lemma_reduced_pointer(p: int)
    ensures
        0 <= wrap(p) < MEMORY_SIZE,
        wrap(wrap(p) + 1) == wrap(p + 1),
        wrap(wrap(p) - 1) == wrap(p - 1),
{
    let m = MEMORY_SIZE as int;
    vstd::arithmetic::div_mod::lemma_add_mod_noop(p, 1, m);
    vstd::arithmetic::div_mod::lemma_sub_mod_noop(p, 1, m);
    vstd::arithmetic::div_mod::lemma_mod_twice(p, m);
    vstd::arithmetic::div_mod::lemma_add_mod_noop(p % m, 1, m);
    vstd::arithmetic::div_mod::lemma_sub_mod_noop(p % m, 1, m);
}

/// The program `[-]`: one loop whose body decrements the cell.
pub open spec fn is_clear_loop(ast: Node) -> bool {
    &&& ast.childrens@.len() == 1
    &&& ast.childrens@[0].node_type == NodeType::Loop
    &&& ast.childrens@[0].childrens@.len() == 1
    &&& ast.childrens@[0].childrens@[0].node_type == NodeType::Operator
    &&& ast.childrens@[0].childrens@[0].instruction == Command::DecByte
}

/// The program `[]`: one loop with an empty body.
pub open spec fn is_empty_loop(ast: Node) -> bool {
    &&& ast.childrens@.len() == 1
    &&& ast.childrens@[0].node_type == NodeType::Loop
    &&& ast.childrens@[0].childrens@.len() == 0
}

proof fn lemma_clear_loop_body(ast: Node, st: State, input: Seq<u8>, fuel: nat)
    requires
        is_clear_loop(ast),
        st.memory.len() == MEMORY_SIZE,
        0 <= st.pointer < MEMORY_SIZE,
        st.position == seq![0usize, 0usize],
        current(st) >= 1,
        fuel >= 2 * current(st) + 1,
    ensures
        run(ast, st, input, fuel) == (
            State { memory: st.memory.update(st.pointer, 0), pointer: st.pointer, position: seq![] },
            Seq::<u8>::empty(),
        ),
    decreases current(st),
{
    let p = st.pointer;
    let n = current(st);
    assert(seq![0usize, 0usize].drop_last() =~= seq![0usize]);
    assert(seq![0usize].drop_last() =~= Seq::<usize>::empty());
    assert(node_at(ast, Seq::<usize>::empty()) == ast);
    assert(node_at(ast, seq![0usize]) == ast.childrens@[0]);
    let s1 = next(ast, st).0;
    assert(s1.position =~= seq![0usize, 1usize]);
    assert(s1.memory == st.memory.update(p, (n - 1) as u8));
    assert(seq![0usize, 1usize].drop_last() =~= seq![0usize]);
    assert(run(ast, st, input, fuel) == run(ast, s1, input, (fuel - 1) as nat));
    let s2 = next(ast, s1).0;
    assert(run(ast, s1, input, (fuel - 1) as nat) == run(ast, s2, input, (fuel - 2) as nat));
    if n - 1 != 0 {
        assert(s2.position =~= seq![0usize, 0usize]);
        lemma_clear_loop_body(ast, s2, input, (fuel - 2) as nat);
        assert(s2.memory.update(p, 0) =~= st.memory.update(p, 0));
    } else {
        assert(s2.position =~= seq![1usize]);
        let s3 = next(ast, s2).0;
        assert(s3.position =~= Seq::<usize>::empty());
        assert(run(ast, s2, input, (fuel - 2) as nat) == run(ast, s3, input, (fuel - 3) as nat));
        assert(s2.memory =~= st.memory.update(p, 0));
        assert(run(ast, s3, input, (fuel - 3) as nat) == (s3, Seq::<u8>::empty()));
    }
}

/// `[-]` on a cell holding `n` passes through its body exactly `n` times:
/// after `2n + 2` steps the program has ended, the cell holds 0, nothing
/// else changed and nothing was written.
pub proof fn lemma_clear_loop(ast: Node, st: State, input: Seq<u8>)
    requires
        is_clear_loop(ast),
        st.memory.len() == MEMORY_SIZE,
        0 <= st.pointer < MEMORY_SIZE,
        st.position == seq![0usize],
    ensures
        run(ast, st, input, (2 * current(st) + 2) as nat) == (
            State { memory: st.memory.update(st.pointer, 0), pointer: st.pointer, position: seq![] },
            Seq::<u8>::empty(),
        ),
{
    let n = current(st);
    let fuel = (2 * n + 2) as nat;
    assert(seq![0usize].drop_last() =~= Seq::<usize>::empty());
    let s1 = next(ast, st).0;
    assert(run(ast, st, input, fuel) == run(ast, s1, input, (fuel - 1) as nat));
    if n != 0 {
        assert(s1.position =~= seq![0usize, 0usize]);
        lemma_clear_loop_body(ast, s1, input, (fuel - 1) as nat);
    } else {
        assert(s1.position =~= seq![1usize]);
        let s2 = next(ast, s1).0;
        assert(s2.position =~= Seq::<usize>::empty());
        assert(run(ast, s1, input, (fuel - 1) as nat) == run(ast, s2, input, (fuel - 2) as nat));
        assert(st.memory.update(st.pointer, 0) =~= st.memory);
        assert(run(ast, s2, input, (fuel - 2) as nat) == (s2, Seq::<u8>::empty()));
    }
}

/// `[]` on a nonzero cell never ends: however many steps are run, the
/// program has not finished, the tape is unchanged and nothing is written.
pub proof fn lemma_empty_loop_runs_forever(ast: Node, st: State, input: Seq<u8>, fuel: nat)
    requires
        is_empty_loop(ast),
        st.memory.len() == MEMORY_SIZE,
        0 <= st.pointer < MEMORY_SIZE,
        st.position == seq![0usize] || st.position == seq![0usize, 0usize],
        current(st) != 0,
    ensures
        run(ast, st, input, fuel).0.position.len() > 0,
        run(ast, st, input, fuel).0.memory == st.memory,
        run(ast, st, input, fuel).1 == Seq::<u8>::empty(),
    decreases fuel,
{
    if fuel > 0 {
        assert(seq![0usize].drop_last() =~= Seq::<usize>::empty());
        assert(seq![0usize, 0usize].drop_last() =~= seq![0usize]);
        assert(node_at(ast, Seq::<usize>::empty()) == ast);
    assert(node_at(ast, seq![0usize]) == ast.childrens@[0]);
        let s1 = next(ast, st).0;
        assert(s1.position =~= seq![0usize, 0usize]);
        lemma_empty_loop_runs_forever(ast, s1, input, (fuel - 1) as nat);
    }
}

} // verus!
