//! The delay lines of a graph, found before anything is compiled.
use vstd::prelude::*;
use crate::error::CompileError;
use crate::ir::{LineId, NodeId, MAX_DELAY_LINES, NO_NODE};
use crate::port::PortType;

verus! {

/// One delay line, as the compiler sees it.
#[derive(Debug, Clone, Copy, PartialEq, Eq, Structural)]
pub struct Line {
    pub id: LineId,
    /// The node that writes it, which its contents are keyed to when the
    /// program changes.
    pub writer: NodeId,
    pub ty: PortType,
}

/// The first line from `at` on with that id.
pub open spec fn line_from(lines: Seq<Line>, id: LineId, at: int) -> Option<int>
    decreases lines.len() - at,
{
    if at >= lines.len() {
        None
    } else if lines[at].id == id {
        Some(at)
    } else {
        line_from(lines, id, at + 1)
    }
}

pub open spec fn line_at(lines: Seq<Line>, id: LineId) -> Option<int> {
    line_from(lines, id, 0)
}

pub proof fn lemma_line_from(lines: Seq<Line>, id: LineId, at: int)
    requires
        0 <= at,
    ensures
        match line_from(lines, id, at) {
            Some(i) => at <= i < lines.len() && lines[i].id == id,
            None => forall|j: int| at <= j < lines.len() ==> (#[trigger] lines[j]).id != id,
        },
    decreases lines.len() - at,
{
    if at < lines.len() && lines[at].id != id {
        lemma_line_from(lines, id, at + 1);
    }
}

pub fn find_line(lines: &[Line], id: LineId) -> (r: Option<usize>)
    ensures
        match r {
            Some(i) => line_at(lines@, id) == Some(i as int) && i < lines@.len(),
            None => line_at(lines@, id) is None,
        },
{
    let mut at: usize = 0;
    while at < lines.len()
        invariant
            at <= lines@.len(),
            line_at(lines@, id) == line_from(lines@, id, at as int),
        decreases lines@.len() - at,
    {
        if lines[at].id == id {
            return Some(at);
        }
        at += 1;
    }
    None
}

/// The first line from `at` on that nobody writes yet.
pub open spec fn unwritten_from(lines: Seq<Line>, at: int) -> int
    decreases lines.len() - at,
{
    if at >= lines.len() || lines[at].writer == NO_NODE {
        at
    } else {
        unwritten_from(lines, at + 1)
    }
}

/// A line that has just found its writer, behind those that have one and before
/// those that have none.
pub open spec fn placed(lines: Seq<Line>, line: Line) -> Seq<Line> {
    lines.insert(unwritten_from(lines, 0), line)
}

pub proof fn lemma_unwritten_from(lines: Seq<Line>, at: int)
    requires
        0 <= at <= lines.len(),
    ensures
        at <= unwritten_from(lines, at) <= lines.len(),
    decreases lines.len() - at,
{
    if at < lines.len() && lines[at].writer != NO_NODE {
        lemma_unwritten_from(lines, at + 1);
    }
}

/// Puts a line that has just found its writer in its place.
fn place(lines: &mut Vec<Line>, line: Line)
    ensures
        final(lines)@ == placed(old(lines)@, line),
{
    let mut at: usize = 0;
    while at < lines.len() && lines[at].writer != NO_NODE
        invariant
            at <= lines@.len(),
            lines@ == old(lines)@,
            unwritten_from(lines@, 0) == unwritten_from(lines@, at as int),
        decreases lines@.len() - at,
    {
        at += 1;
    }
    lines.insert(at, line);
}

/// One end of a line, told to the compiler. Two ends that disagree, two
/// writers, and one line too many are refused.
///
/// The lines that have a writer stand first, in the order their writers were
/// told of, and then those that have none, in the order they were first named.
pub open spec fn declared(
    lines: Seq<Line>,
    node: NodeId,
    line: LineId,
    ty: PortType,
    writes: bool,
) -> Result<Seq<Line>, CompileError> {
    if ty is Note {
        Err(CompileError::NotYet { what: "note delay lines" })
    } else {
        match line_at(lines, line) {
            Some(i) => if lines[i].ty != ty {
                Err(CompileError::DelayTypeMismatch { line })
            } else if !writes {
                Ok(lines)
            } else if lines[i].writer != NO_NODE {
                Err(CompileError::DuplicateDelayWrite { line })
            } else {
                Ok(placed(lines.remove(i), Line { writer: node, ..lines[i] }))
            },
            None => if lines.len() >= MAX_DELAY_LINES {
                Err(CompileError::TooLarge { what: "delay lines", limit: MAX_DELAY_LINES })
            } else {
                Ok(
                    if writes {
                        placed(lines, Line { id: line, writer: node, ty })
                    } else {
                        lines.push(Line { id: line, writer: NO_NODE, ty })
                    },
                )
            },
        }
    }
}

/// What a node is handed before either half is compiled: somewhere to say which
/// delay lines it is an end of.
pub struct DeclareCx {
    pub id: NodeId,
    pub lines: Vec<Line>,
}

impl DeclareCx {
    pub fn new() -> (r: DeclareCx)
        ensures
            r.id == NO_NODE,
            r.lines@ == Seq::<Line>::empty(),
    {
        DeclareCx { id: NO_NODE, lines: Vec::new() }
    }

    /// Turns to the next node.
    pub fn begin(&mut self, id: NodeId)
        ensures
            final(self).id == id,
            final(self).lines == old(self).lines,
    {
        self.id = id;
    }

    /// The lines, numbered by where their writers sit in the patch.
    pub fn finish(self) -> (r: Vec<Line>)
        ensures
            r == self.lines,
    {
        self.lines
    }

    /// Says that the node is one end of a delay line. A line with only reads
    /// reads silence, and a line with only a write is just unread; neither is
    /// an error.
    pub fn declare_line(&mut self, line: LineId, ty: PortType, writes: bool) -> (r: Result<
        (),
        CompileError,
    >)
        ensures
            final(self).id == old(self).id,
            match declared(old(self).lines@, old(self).id, line, ty, writes) {
                Ok(lines) => r is Ok && final(self).lines@ == lines,
                Err(error) => r == Err::<(), CompileError>(error) && final(self).lines
                    == old(self).lines,
            },
    {
        if let PortType::Note = ty {
            return Err(CompileError::NotYet { what: "note delay lines" });
        }
        match find_line(self.lines.as_slice(), line) {
            Some(i) => {
                let existing: Line = self.lines[i];
                if existing.ty != ty {
                    return Err(CompileError::DelayTypeMismatch { line });
                }
                if writes {
                    if existing.writer != NO_NODE {
                        return Err(CompileError::DuplicateDelayWrite { line });
                    }
                    let _ = self.lines.remove(i);
                    place(&mut self.lines, Line { writer: self.id, ..existing });
                }
            },
            None => {
                if self.lines.len() >= MAX_DELAY_LINES {
                    return Err(
                        CompileError::TooLarge { what: "delay lines", limit: MAX_DELAY_LINES },
                    );
                }
                if writes {
                    place(&mut self.lines, Line { id: line, writer: self.id, ty });
                } else {
                    self.lines.push(Line { id: line, writer: NO_NODE, ty });
                }
            },
        }
        Ok(())
    }
}

} // verus!
