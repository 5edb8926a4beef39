//! Why a graph does not compile.
use vstd::prelude::*;
use crate::ir::{LineId, NodeId};

verus! {

/// A cycle or a missing end is an ordinary state for a graph someone is halfway
/// through drawing, so a failure is a value.
#[derive(Debug, Clone, Copy, PartialEq, Eq)]
pub enum CompileError {
    /// A chain of links that comes back to where it started.
    Cycle { node: NodeId },
    /// More of something than there is room for.
    TooLarge { what: &'static str, limit: usize },
    /// A slot outside the table of the host.
    BadSlot { node: NodeId, slot: usize },
    /// A link whose ends carry different things.
    TypeMismatch { node: NodeId, port: u8 },
    /// Two writers on one delay line.
    DuplicateDelayWrite { line: LineId },
    /// A delay line whose two halves disagree about what they carry.
    DelayTypeMismatch { line: LineId },
    /// Something that nothing is compiled to yet.
    NotYet { what: &'static str },
}

/// The digits of a number, the highest first.
pub open spec fn decimal(n: nat) -> Seq<char>
    decreases n,
{
    if n < 10 {
        seq![(48 + n) as char]
    } else {
        decimal(n / 10).push((48 + n % 10) as char)
    }
}

impl CompileError {
    /// What the editor shows. Slots, sockets and lines are counted from one.
    pub open spec fn text(self) -> Seq<char> {
        match self {
            CompileError::Cycle { node } => "the graph loops back on itself at node "@ + decimal(
                node as nat,
            ),
            CompileError::TooLarge { what, limit } => "too many "@ + what@
                + " in one graph (limit "@ + decimal(limit as nat) + ")"@,
            CompileError::BadSlot { node, slot } => "node "@ + decimal(node as nat)
                + " names slot "@ + decimal((slot + 1) as nat) + ", which does not exist"@,
            CompileError::TypeMismatch { node, port } => "input "@ + decimal((port + 1) as nat)
                + " of node "@ + decimal(node as nat) + " is fed something of another type"@,
            CompileError::DuplicateDelayWrite { line } => "two nodes both write delay line "@
                + decimal((line + 1) as nat),
            CompileError::DelayTypeMismatch { line } => "the two halves of delay line "@ + decimal(
                (line + 1) as nat,
            ) + " carry different things"@,
            CompileError::NotYet { what } => what@ + " is not implemented yet"@,
        }
    }

    pub fn message(&self) -> (r: String)
        ensures
            r@ == self.text(),
    {
        let mut text: String = String::new();
        match self {
            CompileError::Cycle { node } => {
                text.append("the graph loops back on itself at node ");
                write_number(&mut text, *node as u128);
            },
            CompileError::TooLarge { what, limit } => {
                text.append("too many ");
                text.append(what);
                text.append(" in one graph (limit ");
                write_number(&mut text, *limit as u128);
                text.append(")");
            },
            CompileError::BadSlot { node, slot } => {
                text.append("node ");
                write_number(&mut text, *node as u128);
                text.append(" names slot ");
                write_number(&mut text, *slot as u128 + 1);
                text.append(", which does not exist");
            },
            CompileError::TypeMismatch { node, port } => {
                text.append("input ");
                write_number(&mut text, *port as u128 + 1);
                text.append(" of node ");
                write_number(&mut text, *node as u128);
                text.append(" is fed something of another type");
            },
            CompileError::DuplicateDelayWrite { line } => {
                text.append("two nodes both write delay line ");
                write_number(&mut text, *line as u128 + 1);
            },
            CompileError::DelayTypeMismatch { line } => {
                text.append("the two halves of delay line ");
                write_number(&mut text, *line as u128 + 1);
                text.append(" carry different things");
            },
            CompileError::NotYet { what } => {
                text.append(what);
                text.append(" is not implemented yet");
            },
        }
        assert(text@ =~= self.text());
        text
    }
}

fn digit(d: u8) -> (r: &'static str)
    requires
        d < 10,
    ensures
        r@ == seq![(48 + d) as char],
{
    proof {
        reveal_strlit("0");
        reveal_strlit("1");
        reveal_strlit("2");
        reveal_strlit("3");
        reveal_strlit("4");
        reveal_strlit("5");
        reveal_strlit("6");
        reveal_strlit("7");
        reveal_strlit("8");
        reveal_strlit("9");
    }
    match d {
        0 => "0",
        1 => "1",
        2 => "2",
        3 => "3",
        4 => "4",
        5 => "5",
        6 => "6",
        7 => "7",
        8 => "8",
        _ => "9",
    }
}

fn write_number(text: &mut String, n: u128)
    ensures
        final(text)@ == old(text)@ + decimal(n as nat),
    decreases n,
{
    if n >= 10 {
        write_number(text, n / 10);
    }
    text.append(digit((n % 10) as u8));
    assert(text@ =~= old(text)@ + decimal(n as nat));
}

} // verus!
