use vstd::prelude::*;

verus! {

/// One instruction of the language; `Default` is the placeholder carried by
/// the root of a program tree.
#[derive(Debug, Clone, Copy, PartialEq, Eq, Structural)]
pub enum Command {
    Default,
    IncDP,
    DecDP,
    IncByte,
    DecByte,
    OutByte,
    InByte,
    JumpForward,
    JumpBackward,
}

/// The command that a source character stands for, if it is one of `><+-.,[]`.
pub open spec fn command_of(c: char) -> Option<Command> {
    if c == '>' {
        Some(Command::IncDP)
    } else if c == '<' {
        Some(Command::DecDP)
    } else if c == '+' {
        Some(Command::IncByte)
    } else if c == '-' {
        Some(Command::DecByte)
    } else if c == '.' {
        Some(Command::OutByte)
    } else if c == ',' {
        Some(Command::InByte)
    } else if c == '[' {
        Some(Command::JumpForward)
    } else if c == ']' {
        Some(Command::JumpBackward)
    } else {
        None
    }
}

/// The commands of a source text: each recognised character in turn, all
/// other characters dropped.
pub open spec fn lex(s: Seq<char>) -> Seq<Command>
    decreases s.len(),
{
    if s.len() == 0 {
        seq![]
    } else {
        let rest = lex(s.drop_last());
        match command_of(s.last()) {
            Some(c) => rest.push(c),
            None => rest,
        }
    }
}

/// Lexing is an order-preserving filter and map: it never yields more
/// commands than there are characters, every command it yields is one of the
/// eight instructions, and the commands of a concatenation are those of the
/// first part followed by those of the second.
pub proof fn lemma_lex_filters(a: Seq<char>, b: Seq<char>)
    ensures
        lex(a).len() <= a.len(),
        forall|k: int| 0 <= k < lex(a).len() ==> lex(a)[k] != Command::Default,
        lex(a + b) == lex(a) + lex(b),
    decreases a.len() + b.len(),
{
    if a.len() > 0 {
        lemma_lex_filters(a.drop_last(), b);
        assert(lex(a.drop_last()).len() <= a.drop_last().len());
    }
    if b.len() == 0 {
        assert(a + b =~= a);
        assert(lex(a) + lex(b) =~= lex(a));
    } else {
        lemma_lex_filters(a, b.drop_last());
        assert((a + b).drop_last() =~= a + b.drop_last());
        assert((a + b).last() == b.last());
        match command_of(b.last()) {
            Some(c) => {
                assert(lex(a) + lex(b.drop_last()).push(c) =~= (lex(a) + lex(b.drop_last())).push(c));
            },
            None => {},
        }
    }
}

fn char_command(c: char) -> (r: Option<Command>)
    ensures
        r == command_of(c),
{
    match c {
        '>' => Some(Command::IncDP),
        '<' => Some(Command::DecDP),
        '+' => Some(Command::IncByte),
        '-' => Some(Command::DecByte),
        '.' => Some(Command::OutByte),
        ',' => Some(Command::InByte),
        '[' => Some(Command::JumpForward),
        ']' => Some(Command::JumpBackward),
        _ => None,
    }
}

/// Turns source text into its commands. Never fails.
pub fn lexical_analysis(commands: String) -> (r: Result<Vec<Command>, String>)
    ensures
        r is Ok,
        r->Ok_0@ == lex(commands@),
{
    let text: &str = commands.as_str();
    let mut result: Vec<Command> = Vec::new();
    for c in it: text.chars()
        invariant
            text@ == commands@,
            it.seq() == commands@,
            result@ == lex(commands@.subrange(0, it.index() as int)),
    {
        let ghost i = it.index();
        assert(commands@.subrange(0, i + 1).drop_last() =~= commands@.subrange(0, i as int));
        match char_command(c) {
            Some(cmd) => result.push(cmd),
            None => {},
        }
    }
    assert(commands@.subrange(0, commands@.len() as int) =~= commands@);
    Ok(result)
}

} // verus!
