use vstd::prelude::*;
use crate::lexer::Command;

verus! {

/// The kind of a node of the program tree.
#[derive(Debug, Clone, Copy, PartialEq, Eq, Structural)]
pub enum NodeType {
    Program,
    Loop,
    Operator,
}

/// A node of the program tree: the root, a loop with its body, or a single
/// instruction.
#[derive(Debug)]
pub struct Node {
    pub node_type: NodeType,
    pub instruction: Command,
    pub childrens: Vec<Node>,
}

/// The commands that are not brackets.
pub open spec fn is_plain(c: Command) -> bool {
    !(c is JumpForward || c is JumpBackward)
}

/// How much a command changes the bracket depth.
pub open spec fn delta(c: Command) -> int {
    match c {
        Command::JumpForward => 1,
        Command::JumpBackward => -1,
        _ => 0,
    }
}

/// Opening brackets minus closing brackets.
pub open spec fn depth(s: Seq<Command>) -> int
    decreases s.len(),
{
    if s.len() == 0 {
        0
    } else {
        depth(s.drop_last()) + delta(s.last())
    }
}

/// Every closing bracket closes an earlier opening one, and every opening
/// bracket is closed.
pub open spec fn balanced(s: Seq<Command>) -> bool {
    &&& depth(s) == 0
    &&& forall|j: int| 0 <= j <= s.len() ==> depth(#[trigger] s.subrange(0, j)) >= 0
}

/// Number of commands that are not brackets.
pub open spec fn count_plain(s: Seq<Command>) -> nat
    decreases s.len(),
{
    if s.len() == 0 {
        0
    } else {
        count_plain(s.drop_last()) + if s.last() is JumpForward || s.last() is JumpBackward {
            0nat
        } else {
            1nat
        }
    }
}

/// The commands that a sequence of sibling nodes was built from: an operator
/// is its instruction, a loop is its body between brackets.
pub open spec fn flatten_nodes(ts: Seq<Node>) -> Seq<Command>
    decreases ts,
{
    if ts.len() == 0 {
        seq![]
    } else {
        let n = ts[ts.len() - 1];
        flatten_nodes(ts.subrange(0, ts.len() - 1)) + match n.node_type {
            NodeType::Operator => seq![n.instruction],
            NodeType::Loop => seq![Command::JumpForward] + flatten_nodes(n.childrens@) + seq![
                Command::JumpBackward,
            ],
            NodeType::Program => flatten_nodes(n.childrens@),
        }
    }
}

/// Sibling nodes as the parser builds them: operators are leaves holding one
/// instruction that is not a bracket, loops hold `JumpForward` and well-formed bodies,
/// and no root appears below the top.
pub open spec fn wf_nodes(ts: Seq<Node>) -> bool
    decreases ts,
{
    if ts.len() == 0 {
        true
    } else {
        let n = ts[ts.len() - 1];
        &&& wf_nodes(ts.subrange(0, ts.len() - 1))
        &&& match n.node_type {
            NodeType::Operator => is_plain(n.instruction) && n.childrens@.len() == 0,
            NodeType::Loop => n.instruction == Command::JumpForward && wf_nodes(n.childrens@),
            NodeType::Program => false,
        }
    }
}

/// Number of operator nodes in a sequence of siblings and all their bodies.
pub open spec fn count_ops(ts: Seq<Node>) -> nat
    decreases ts,
{
    if ts.len() == 0 {
        0
    } else {
        let n = ts[ts.len() - 1];
        count_ops(ts.subrange(0, ts.len() - 1)) + match n.node_type {
            NodeType::Operator => 1nat,
            _ => count_ops(n.childrens@),
        }
    }
}

/// A complete program tree: a root holding the placeholder instruction and
/// well-formed children.
pub open spec fn wf_program(n: Node) -> bool {
    &&& n.node_type == NodeType::Program
    &&& n.instruction == Command::Default
    &&& wf_nodes(n.childrens@)
}

pub proof fn lemma_depth_append(a: Seq<Command>, b: Seq<Command>)
    ensures
        depth(a + b) == depth(a) + depth(b),
    decreases b.len(),
{
    if b.len() == 0 {
        assert(a + b =~= a);
    } else {
        lemma_depth_append(a, b.drop_last());
        assert((a + b).drop_last() =~= a + b.drop_last());
    }
}

pub proof fn lemma_count_plain_append(a: Seq<Command>, b: Seq<Command>)
    ensures
        count_plain(a + b) == count_plain(a) + count_plain(b),
    decreases b.len(),
{
    if b.len() == 0 {
        assert(a + b =~= a);
    } else {
        lemma_count_plain_append(a, b.drop_last());
        assert((a + b).drop_last() =~= a + b.drop_last());
    }
}

/// The commands of well-formed siblings have bracket depth zero.
pub proof fn lemma_flatten_depth(ts: Seq<Node>)
    requires
        wf_nodes(ts),
    ensures
        depth(flatten_nodes(ts)) == 0,
    decreases ts,
{
    if ts.len() == 0 {
        assert(flatten_nodes(ts) == Seq::<Command>::empty());
        assert(depth(Seq::<Command>::empty()) == 0);
    } else {
        let n = ts[ts.len() - 1];
        let pre = ts.subrange(0, ts.len() - 1);
        lemma_flatten_depth(pre);
        match n.node_type {
            NodeType::Operator => {
                let piece = seq![n.instruction];
                assert(piece.drop_last() =~= seq![]);
                lemma_depth_append(flatten_nodes(pre), piece);
                assert(depth(piece.drop_last()) == 0);
            },
            NodeType::Loop => {
                lemma_flatten_depth(n.childrens@);
                let open = seq![Command::JumpForward];
                let close = seq![Command::JumpBackward];
                assert(open.drop_last() =~= seq![]);
                assert(close.drop_last() =~= seq![]);
                assert(depth(open.drop_last()) == 0);
                lemma_depth_append(open, flatten_nodes(n.childrens@));
                lemma_depth_append(open + flatten_nodes(n.childrens@), close);
                lemma_depth_append(
                    flatten_nodes(pre),
                    open + flatten_nodes(n.childrens@) + close,
                );
            },
            NodeType::Program => {},
        }
    }
}

/// Every operator of a well-formed tree comes from exactly one non-bracket
/// command: the operator nodes number as many as the non-bracket commands the
/// tree was built from.
pub proof fn lemma_operator_count(ts: Seq<Node>)
    requires
        wf_nodes(ts),
    ensures
        count_ops(ts) == count_plain(flatten_nodes(ts)),
    decreases ts,
{
    if ts.len() == 0 {
        assert(flatten_nodes(ts) == Seq::<Command>::empty());
        assert(count_plain(Seq::<Command>::empty()) == 0);
    } else {
        let n = ts[ts.len() - 1];
        let pre = ts.subrange(0, ts.len() - 1);
        lemma_operator_count(pre);
        match n.node_type {
            NodeType::Operator => {
                let piece = seq![n.instruction];
                assert(piece.drop_last() =~= seq![]);
                assert(count_plain(piece.drop_last()) == 0);
                lemma_count_plain_append(flatten_nodes(pre), piece);
            },
            NodeType::Loop => {
                lemma_operator_count(n.childrens@);
                let open = seq![Command::JumpForward];
                let close = seq![Command::JumpBackward];
                assert(open.drop_last() =~= seq![]);
                assert(close.drop_last() =~= seq![]);
                assert(count_plain(open.drop_last()) == 0);
                lemma_count_plain_append(open, flatten_nodes(n.childrens@));
                lemma_count_plain_append(open + flatten_nodes(n.childrens@), close);
                lemma_count_plain_append(
                    flatten_nodes(pre),
                    open + flatten_nodes(n.childrens@) + close,
                );
            },
            NodeType::Program => {},
        }
    }
}

/// Builds, under `node`, the nodes of the commands from `*index` up to the
/// first closing bracket that has no opening partner after `*index`, or up to
/// the end. On return `*index` stands on that closing bracket, or at the end;
/// each nested loop consumes its own closing bracket.
pub fn create_ast(node: &mut Node, commands: &[Command], index: &mut usize)
    requires
        balanced(commands@),
        *old(index) <= commands@.len(),
        wf_nodes(old(node).childrens@),
    ensures
        *old(index) <= *final(index) <= commands@.len(),
        *final(index) == commands@.len() || commands@[*final(index) as int]
            == Command::JumpBackward,
        final(node).node_type == old(node).node_type,
        final(node).instruction == old(node).instruction,
        final(node).childrens@.len() >= old(node).childrens@.len(),
        final(node).childrens@.subrange(0, old(node).childrens@.len() as int)
            == old(node).childrens@,
        wf_nodes(final(node).childrens@),
        flatten_nodes(final(node).childrens@) == flatten_nodes(old(node).childrens@)
            + commands@.subrange(*old(index) as int, *final(index) as int),
    decreases commands@.len() - *old(index),
{
    let ghost s = commands@;
    let ghost start = *index;
    let ghost old_children = node.childrens@;
    while *index < commands.len()
        invariant
            balanced(s),
            s == commands@,
            start == *old(index),
            old_children == old(node).childrens@,
            start <= *index <= s.len(),
            node.node_type == old(node).node_type,
            node.instruction == old(node).instruction,
            node.childrens@.len() >= old_children.len(),
            node.childrens@.subrange(0, old_children.len() as int) == old_children,
            wf_nodes(node.childrens@),
            flatten_nodes(node.childrens@) == flatten_nodes(old_children) + s.subrange(
                start as int,
                *index as int,
            ),
        decreases s.len() - *index,
    {
        let i: usize = *index;
        let cmd = commands[i];
        let ghost before = node.childrens@;
        match cmd {
            Command::JumpForward => {
                let mut new_node = Node {
                    node_type: NodeType::Loop,
                    instruction: Command::JumpForward,
                    childrens: Vec::new(),
                };
                *index = i + 1;
                proof {
                    assert(flatten_nodes(new_node.childrens@) =~= seq![]);
                }
                create_ast(&mut new_node, commands, index);
                let j: usize = *index;
                proof {
                    assert(new_node.childrens@.subrange(0, 0) =~= seq![]);
                    assert(flatten_nodes(new_node.childrens@) =~= s.subrange(i + 1, j as int));
                    lemma_flatten_depth(new_node.childrens@);
                    assert(s.subrange(0, i + 1).drop_last() =~= s.subrange(0, i as int));
                    assert(s.subrange(0, j as int) =~= s.subrange(0, i + 1) + s.subrange(
                        i + 1,
                        j as int,
                    ));
                    lemma_depth_append(s.subrange(0, i + 1), s.subrange(i + 1, j as int));
                    assert(s.subrange(0, i as int) == s.subrange(0, i as int));
                    assert(depth(s.subrange(0, j as int)) >= 1);
                    if j == s.len() {
                        assert(s.subrange(0, j as int) =~= s);
                    }
                }
                node.childrens.push(new_node);
                proof {
                    let after = node.childrens@;
                    assert(after.subrange(0, after.len() - 1) =~= before);
                    assert(after.subrange(0, old_children.len() as int) =~= old_children);
                    assert(s.subrange(start as int, j + 1) =~= s.subrange(start as int, i as int)
                        + seq![Command::JumpForward] + s.subrange(i + 1, j as int) + seq![
                        Command::JumpBackward,
                    ]);
                }
                *index = j + 1;
            },
            Command::JumpBackward => {
                return;
            },
            _ => {
                node.childrens.push(
                    Node { node_type: NodeType::Operator, instruction: cmd, childrens: Vec::new() },
                );
                proof {
                    let after = node.childrens@;
                    assert(after.subrange(0, after.len() - 1) =~= before);
                    assert(after.subrange(0, old_children.len() as int) =~= old_children);
                    assert(s.subrange(start as int, i + 1) =~= s.subrange(start as int, i as int)
                        + seq![cmd]);
                }
                *index = i + 1;
            },
        }
    }
}

/// Checks that the brackets of `commands` balance and, if they do, builds the
/// program tree; otherwise fails with "missing bracket" and builds nothing.
pub fn syntax_analysis(commands: Vec<Command>) -> (r: Result<Node, String>)
    ensures
        r is Ok <==> balanced(commands@),
        r is Ok ==> wf_program(r->Ok_0) && flatten_nodes(r->Ok_0.childrens@) == commands@,
        r is Err ==> r->Err_0@ == "missing bracket"@,
{
    let ghost s = commands@;
    let mut stack: Vec<Command> = Vec::new();
    let mut i: usize = 0;
    while i < commands.len()
        invariant
            s == commands@,
            i <= s.len(),
            stack@.len() == depth(s.subrange(0, i as int)),
            forall|j: int| 0 <= j <= i ==> depth(#[trigger] s.subrange(0, j)) >= 0,
        decreases s.len() - i,
    {
        let cmd = commands[i];
        proof {
            assert(s.subrange(0, i + 1).drop_last() =~= s.subrange(0, i as int));
        }
        match cmd {
            Command::JumpForward => stack.push(Command::JumpForward),
            Command::JumpBackward => match stack.pop() {
                Some(_) => {},
                None => {
                    assert(depth(s.subrange(0, i + 1)) < 0);
                    return Err("missing bracket".to_string());
                },
            },
            _ => {},
        }
        i = i + 1;
    }
    assert(s.subrange(0, s.len() as int) =~= s);
    if stack.len() != 0 {
        return Err("missing bracket".to_string());
    }
    let mut program: Node = Node {
        node_type: NodeType::Program,
        instruction: Command::Default,
        childrens: Vec::new(),
    };
    let mut pos: usize = 0;
    assert(flatten_nodes(program.childrens@) =~= seq![]);
    create_ast(&mut program, commands.as_slice(), &mut pos);
    proof {
        let t = program.childrens@;
        assert(t.subrange(0, 0) =~= seq![]);
        assert(flatten_nodes(t) =~= s.subrange(0, pos as int));
        if pos < s.len() {
            lemma_flatten_depth(t);
            assert(s.subrange(0, pos + 1).drop_last() =~= s.subrange(0, pos as int));
            assert(depth(s.subrange(0, pos + 1)) < 0);
        }
        assert(s.subrange(0, s.len() as int) =~= s);
    }
    Ok(program)
}

} // verus!
