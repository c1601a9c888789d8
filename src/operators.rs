use vstd::prelude::*;

verus! {

/// A language operator, as produced by the parser.
pub enum Operator {
    /// Increments the contents of the cell by 1.
    Incr,
    /// Decrements the contents of the cell by 1.
    Decr,
    /// Moves the tape head one cell to the left.
    Prev,
    /// Moves the tape head one cell to the right.
    Next,
    /// Writes the contents of the cell to the output as a byte.
    Put,
    /// Reads one byte of input into the cell.
    Get,
    /// Opens a loop. Only seen while parsing.
    Skip,
    /// Closes a loop. Only seen while parsing.
    Loop,
    /// An ignored, extraneous character.
    Nop(char),
    /// The parsed body of a `[...]` loop.
    Sub(crate::ast::Ast),
}

/// The mathematical model of an operator: the same variants, with loop
/// bodies held as sequences.
pub ghost enum Instr {
    Incr,
    Decr,
    Prev,
    Next,
    Put,
    Get,
    Skip,
    Loop,
    Nop(char),
    Sub(Seq<Instr>),
}

/// The model of one operator.
pub open spec fn op_view(op: Operator) -> Instr
    decreases op,
{
    match op {
        Operator::Incr => Instr::Incr,
        Operator::Decr => Instr::Decr,
        Operator::Prev => Instr::Prev,
        Operator::Next => Instr::Next,
        Operator::Put => Instr::Put,
        Operator::Get => Instr::Get,
        Operator::Skip => Instr::Skip,
        Operator::Loop => Instr::Loop,
        Operator::Nop(c) => Instr::Nop(c),
        Operator::Sub(a) => Instr::Sub(ops_view(a.0@)),
    }
}

/// The model of a sequence of operators.
pub open spec fn ops_view(s: Seq<Operator>) -> Seq<Instr>
    decreases s,
{
    if s.len() == 0 {
        Seq::empty()
    } else {
        ops_view(s.drop_last()).push(op_view(s.last()))
    }
}

/// The operator that a single character stands for.
pub open spec fn instr_of(c: char) -> Instr {
    if c == '+' {
        Instr::Incr
    } else if c == '-' {
        Instr::Decr
    } else if c == '<' {
        Instr::Prev
    } else if c == '>' {
        Instr::Next
    } else if c == '[' {
        Instr::Skip
    } else if c == ']' {
        Instr::Loop
    } else if c == '.' {
        Instr::Put
    } else if c == ',' {
        Instr::Get
    } else {
        Instr::Nop(c)
    }
}

impl Operator {
    /// The operator that the character `c` stands for; any character that
    /// is not one of the eight operators is a comment.
    pub fn from_char(c: char) -> (r: Operator)
        ensures
            op_view(r) == instr_of(c),
    {
        match c {
            '+' => Operator::Incr,
            '-' => Operator::Decr,
            '<' => Operator::Prev,
            '>' => Operator::Next,
            '[' => Operator::Skip,
            ']' => Operator::Loop,
            '.' => Operator::Put,
            ',' => Operator::Get,
            other => Operator::Nop(other),
        }
    }
}

} // verus!
