use vstd::prelude::*;
use crate::ast::Ast;
use crate::operators::{Operator, Instr, op_view, ops_view};
use crate::storage::{Tape, Unit, VectorTape};

verus! {

/// What a step of the machine asks of its caller.
pub enum Action {
    /// Nothing: the machine can step on.
    Continue,
    /// Write this byte to the output.
    Output(Unit),
    /// Read one byte of input and hand it to `Machine::feed`.
    Input,
    /// The program has ended.
    Halt,
}

/// The model of a machine: the tape (every cell, by position), the stack
/// of program counters, and the number of cycles executed.
pub ghost struct State {
    pub head: int,
    pub cells: Map<int, Unit>,
    pub pcs: Seq<int>,
    pub cycles: nat,
}

/// The value of the cell under the head.
pub open spec fn cell_of(s: State) -> Unit {
    s.cells[s.head]
}

/// The operators of the loop body (or program) reached by following the
/// program counters in `path`, each pointing at a loop in the sequence
/// before it.
pub open spec fn frame_ops(p: Seq<Instr>, path: Seq<int>) -> Seq<Instr>
    decreases path.len(),
{
    if path.len() == 0 {
        p
    } else {
        let q = frame_ops(p, path.drop_last());
        let k = path.last();
        if 0 <= k < q.len() {
            match q[k] {
                Instr::Sub(body) => body,
                _ => Seq::empty(),
            }
        } else {
            Seq::empty()
        }
    }
}

/// The sequence being executed at the innermost level.
pub open spec fn cur_ops(p: Seq<Instr>, pcs: Seq<int>) -> Seq<Instr> {
    frame_ops(p, pcs.drop_last())
}

/// Whether the program counters `pcs` are a valid position in `p`: every
/// counter but the last points at a loop, and the last is at most the
/// length of its sequence.
pub open spec fn fits(p: Seq<Instr>, pcs: Seq<int>) -> bool {
    &&& pcs.len() >= 1
    &&& forall|n: int|
        0 <= n < pcs.len() - 1 ==> {
            let q = #[trigger] frame_ops(p, pcs.subrange(0, n));
            &&& 0 <= pcs[n] < q.len()
            &&& q[pcs[n]] is Sub
        }
    &&& 0 <= pcs.last() <= cur_ops(p, pcs).len()
}

/// Whether the program has run to its end.
pub open spec fn halted(p: Seq<Instr>, s: State) -> bool {
    s.pcs.len() == 1 && s.pcs[0] >= p.len()
}

/// The counters with the innermost one moved to the next operator.
pub open spec fn advance(pcs: Seq<int>) -> Seq<int> {
    pcs.update(pcs.len() - 1, pcs.last() + 1)
}

/// `s` with the innermost counter advanced and one more cycle counted.
pub open spec fn executed(s: State) -> State {
    State { pcs: advance(s.pcs), cycles: s.cycles + 1, ..s }
}

/// One step of execution, where the current operator is not an input.
///
/// At the end of a loop body the loop's cell is checked again: the body
/// restarts from its beginning while the cell is non-zero. A loop itself
/// counts no cycle; every other operator counts one.
pub open spec fn step_spec(p: Seq<Instr>, s: State) -> State {
    let ops = cur_ops(p, s.pcs);
    let k = s.pcs.last();
    let v = cell_of(s);
    if k >= ops.len() {
        if s.pcs.len() <= 1 {
            s
        } else if v != 0 {
            State { pcs: s.pcs.update(s.pcs.len() - 1, 0), ..s }
        } else {
            State { pcs: advance(s.pcs.drop_last()), ..s }
        }
    } else {
        match ops[k] {
            Instr::Sub(_) => if v != 0 {
                State { pcs: s.pcs.push(0), ..s }
            } else {
                State { pcs: advance(s.pcs), ..s }
            },
            Instr::Incr => executed(
                State { cells: s.cells.insert(s.head, (if v == 255 { 0 } else { v + 1 }) as Unit), ..s },
            ),
            Instr::Decr => executed(
                State { cells: s.cells.insert(s.head, (if v == 0 { 255 } else { v - 1 }) as Unit), ..s },
            ),
            Instr::Prev => executed(State { head: if s.head < 1 { 0 } else { s.head - 1 }, ..s }),
            Instr::Next => executed(State { head: s.head + 1, ..s }),
            Instr::Get => s,
            _ => executed(s),
        }
    }
}

/// What the step from `s` asks of the caller.
pub open spec fn action_spec(p: Seq<Instr>, s: State) -> Action {
    let ops = cur_ops(p, s.pcs);
    let k = s.pcs.last();
    if halted(p, s) {
        Action::Halt
    } else if k < ops.len() && ops[k] is Put {
        Action::Output(cell_of(s))
    } else if k < ops.len() && ops[k] is Get {
        Action::Input
    } else {
        Action::Continue
    }
}

/// The state after the input operator under the counters reads `byte`;
/// the end of input (`None`) reads as zero. Where the current operator is
/// not an input, nothing changes.
pub open spec fn input_spec(p: Seq<Instr>, s: State, byte: Option<Unit>) -> State {
    let ops = cur_ops(p, s.pcs);
    let k = s.pcs.last();
    if 0 <= k < ops.len() && ops[k] is Get {
        let b: Unit = match byte {
            Some(b) => b,
            None => 0,
        };
        executed(State { cells: s.cells.insert(s.head, b), ..s })
    } else {
        s
    }
}

/// A machine that executes programs on a dense tape of byte cells.
///
/// A program is run one step at a time with `step`; each step reports
/// whether the caller has to write a byte, read one (and hand it over with
/// `feed`), or whether the program has ended.
pub struct Machine {
    /// The main storage.
    tape: VectorTape<Unit>,
    /// The program counters: the first into the program, each later one
    /// into the body of the loop that the one before points at.
    pc: Vec<usize>,
    /// The number of cycles executed.
    cycles: usize,
}

proof fn lemma_ops_view_index(s: Seq<Operator>, k: int)
    requires
        0 <= k < s.len(),
    ensures
        ops_view(s).len() == s.len(),
        ops_view(s)[k] == op_view(s[k]),
    decreases s.len(),
{
    lemma_ops_view_len(s);
    if k < s.len() - 1 {
        lemma_ops_view_index(s.drop_last(), k);
    }
}

proof fn lemma_ops_view_len(s: Seq<Operator>)
    ensures
        ops_view(s).len() == s.len(),
    decreases s.len(),
{
    if s.len() > 0 {
        lemma_ops_view_len(s.drop_last());
    }
}

impl Machine {
    /// The model of this machine.
    pub closed spec fn state(&self) -> State {
        State {
            head: self.tape.head(),
            cells: Map::new(|i: int| true, |i: int| self.tape.at(i)),
            pcs: self.pc@.map_values(|x: usize| x as int),
            cycles: self.cycles as nat,
        }
    }

    /// Well-formedness of the machine.
    pub closed spec fn wf(&self) -> bool {
        self.tape.inv()
    }

    /// Whether the next step stays within machine limits: the cycle
    /// count and the head position can grow by one.
    pub open spec fn in_limits(&self) -> bool {
        &&& self.state().cycles < usize::MAX
        &&& self.state().head + 1 < usize::MAX
    }

    /// A pristine machine: a zeroed tape with the head at zero, positioned
    /// at the start of a program.
    pub fn new() -> (m: Machine)
        ensures
            m.wf(),
            m.state().head == 0,
            forall|i: int| #[trigger] m.state().cells[i] == 0,
            m.state().pcs == seq![0int],
            m.state().cycles == 0,
    {
        let m = Machine { tape: VectorTape::new(), pc: vec![0], cycles: 0 };
        assert(m.state().pcs =~= seq![0int]);
        m
    }

    /// The number of cycles executed since the last `start`.
    pub fn cycles(&self) -> (r: usize)
        ensures
            r == self.state().cycles,
    {
        self.cycles
    }

    /// The value of the cell under the head.
    pub fn current_cell(&mut self) -> (r: Unit)
        requires
            old(self).wf(),
        ensures
            final(self).wf(),
            final(self).state() == old(self).state(),
            r == cell_of(old(self).state()),
    {
        let r = *self.tape.cell();
        assert(self.state().cells =~= old(self).state().cells);
        r
    }

    /// Positions the machine at the start of a program, with no cycles
    /// counted. The tape is kept.
    pub fn start(&mut self)
        requires
            old(self).wf(),
        ensures
            final(self).wf(),
            final(self).state() == (State { pcs: seq![0int], cycles: 0, ..old(self).state() }),
    {
        self.pc = vec![0];
        self.cycles = 0;
        assert(self.state().pcs =~= seq![0int]);
        assert(self.state().cells =~= old(self).state().cells);
    }
}


impl Machine {
    /// The sequence executed at the innermost level, and the one that
    /// holds its loop (the program itself at the outermost level).
    fn current_ops<'a>(&self, program: &'a Ast) -> (r: (&'a Vec<Operator>, &'a Vec<Operator>))
        requires
            fits(program@, self.state().pcs),
        ensures
            ops_view(r.0@) == cur_ops(program@, self.state().pcs),
            self.pc.len() > 1 ==> ops_view(r.1@) == frame_ops(
                program@,
                self.state().pcs.subrange(0, self.pc.len() - 2),
            ),
    {
        let ghost pcs = self.state().pcs;
        let mut ops: &Vec<Operator> = &program.0;
        let mut outer: &Vec<Operator> = &program.0;
        let mut n: usize = 0;
        assert(pcs.subrange(0, 0) =~= Seq::<int>::empty());
        while n + 1 < self.pc.len()
            invariant
                pcs == self.state().pcs,
                fits(program@, pcs),
                n < self.pc.len(),
                ops_view(ops@) == frame_ops(program@, pcs.subrange(0, n as int)),
                n > 0 ==> ops_view(outer@) == frame_ops(program@, pcs.subrange(0, n - 1)),
            decreases self.pc.len() - n,
        {
            let k: usize = self.pc[n];
            proof {
                let q = frame_ops(program@, pcs.subrange(0, n as int));
                assert(0 <= pcs[n as int] < q.len() && q[pcs[n as int]] is Sub);
                lemma_ops_view_len(ops@);
                assert(k as int == pcs[n as int]);
                lemma_ops_view_index(ops@, k as int);
                assert(pcs.subrange(0, n + 1).drop_last() =~= pcs.subrange(0, n as int));
            }
            if let Operator::Sub(a) = &ops[k] {
                outer = ops;
                ops = &a.0;
            }
            n = n + 1;
        }
        assert(pcs.drop_last() =~= pcs.subrange(0, n as int));
        (ops, outer)
    }

    /// Moves the innermost counter to the next operator and counts a cycle.
    fn advance(&mut self)
        requires
            old(self).pc.len() >= 1,
            old(self).pc@.last() < usize::MAX,
            old(self).cycles < usize::MAX,
        ensures
            final(self).tape == old(self).tape,
            final(self).pc@ == old(self).pc@.update(old(self).pc.len() - 1, (old(self).pc@.last() + 1) as usize),
            final(self).cycles == old(self).cycles + 1,
    {
        let last: usize = self.pc.len() - 1;
        let k: usize = self.pc[last];
        self.pc.set(last, k + 1);
        self.cycles = self.cycles + 1;
    }

    /// Executes one step of `program`: one operator, the entry into a
    /// loop, or the check at the end of a loop body.
    ///
    /// An input operator is not executed here: the step asks for a byte
    /// (`Action::Input`), which `feed` then stores.
    pub fn step(&mut self, program: &Ast) -> (r: Action)
        requires
            old(self).wf(),
            fits(program@, old(self).state().pcs),
            old(self).in_limits(),
        ensures
            final(self).wf(),
            final(self).state() == step_spec(program@, old(self).state()),
            r == action_spec(program@, old(self).state()),
            fits(program@, final(self).state().pcs),
    {
        let ghost s = self.state();
        let ghost p = program@;
        let (ops, outer) = self.current_ops(program);
        let depth: usize = self.pc.len();
        let k: usize = self.pc[depth - 1];
        proof {
            lemma_ops_view_len(ops@);
            lemma_ops_view_len(outer@);
        }
        if k >= ops.len() {
            if depth <= 1 {
                return Action::Halt;
            }
            let v: Unit = self.current_cell();
            if v != 0 {
                self.pc.set(depth - 1, 0);
                proof {
                    let t = s.pcs.update(s.pcs.len() - 1, 0);
                    assert(self.state().pcs =~= t);
                    assert forall|n: int| 0 <= n < t.len() - 1 implies t.subrange(0, n) == s.pcs.subrange(0, n) by {
                        assert(t.subrange(0, n) =~= s.pcs.subrange(0, n));
                    }
                    assert(t.drop_last() =~= s.pcs.drop_last());
                }
            } else {
                self.pc.pop();
                let j: usize = self.pc[depth - 2];
                proof {
                    assert(j as int == s.pcs[depth - 2]);
                    let q = frame_ops(p, s.pcs.subrange(0, depth - 2));
                    assert(0 <= s.pcs[depth - 2] < q.len());
                }
                assert(ops_view(outer@).len() == outer@.len());
                assert(j < outer.len());
                self.pc.set(depth - 2, j + 1);
                proof {
                    let t = advance(s.pcs.drop_last());
                    assert(self.state().pcs =~= t);
                    assert forall|n: int| 0 <= n < t.len() - 1 implies t.subrange(0, n) == s.pcs.subrange(0, n) by {
                        assert(t.subrange(0, n) =~= s.pcs.subrange(0, n));
                    }
                    assert(t.drop_last() =~= s.pcs.subrange(0, depth - 2));
                }
            }
            return Action::Continue;
        }
        proof {
            lemma_ops_view_index(ops@, k as int);
            let t = advance(s.pcs);
            assert forall|n: int| 0 <= n < t.len() - 1 implies t.subrange(0, n) == s.pcs.subrange(0, n) by {
                assert(t.subrange(0, n) =~= s.pcs.subrange(0, n));
            }
            assert(t.drop_last() =~= s.pcs.drop_last());
        }
        match &ops[k] {
            Operator::Sub(_) => {
                let v: Unit = self.current_cell();
                if v != 0 {
                    self.pc.push(0);
                    proof {
                        let t = s.pcs.push(0);
                        assert(self.state().pcs =~= t);
                        assert forall|n: int| 0 <= n < t.len() - 1 implies t.subrange(0, n) == s.pcs.subrange(0, n) by {
                            assert(t.subrange(0, n) =~= s.pcs.subrange(0, n));
                        }
                        assert(t.drop_last() =~= s.pcs);
                        assert(self.state().cells =~= s.cells);
                        assert(s.pcs.drop_last() =~= s.pcs.subrange(0, s.pcs.len() - 1));
                    }
                } else {
                    self.pc.set(depth - 1, k + 1);
                    assert(self.state().pcs =~= advance(s.pcs));
                    assert(self.state().cells =~= s.cells);
                }
                assert(self.state() == step_spec(p, s));
                Action::Continue
            },
            Operator::Incr => {
                let c = self.tape.cell();
                *c = if *c == 255 { 0 } else { *c + 1 };
                self.advance();
                assert(self.state().pcs =~= advance(s.pcs));
                assert(self.state().cells =~= step_spec(p, s).cells);
                assert(self.state() == step_spec(p, s));
                Action::Continue
            },
            Operator::Decr => {
                let c = self.tape.cell();
                *c = if *c == 0 { 255 } else { *c - 1 };
                self.advance();
                assert(self.state().pcs =~= advance(s.pcs));
                assert(self.state().cells =~= step_spec(p, s).cells);
                assert(self.state() == step_spec(p, s));
                Action::Continue
            },
            Operator::Prev => {
                self.tape.wind(-1);
                self.advance();
                assert(self.state().pcs =~= advance(s.pcs));
                assert(self.state().cells =~= s.cells);
                assert(self.state() == step_spec(p, s));
                Action::Continue
            },
            Operator::Next => {
                proof {
                    self.tape.lemma_head_nonneg();
                }
                self.tape.wind(1);
                self.advance();
                assert(self.state().pcs =~= advance(s.pcs));
                assert(self.state().cells =~= s.cells);
                assert(self.state() == step_spec(p, s));
                Action::Continue
            },
            Operator::Put => {
                let v: Unit = self.current_cell();
                self.advance();
                assert(self.state().pcs =~= advance(s.pcs));
                assert(self.state().cells =~= s.cells);
                assert(self.state() == step_spec(p, s));
                Action::Output(v)
            },
            Operator::Get => Action::Input,
            _ => {
                self.advance();
                assert(self.state().pcs =~= advance(s.pcs));
                assert(self.state().cells =~= s.cells);
                assert(self.state() == step_spec(p, s));
                Action::Continue
            },
        }
    }
}

impl Machine {
    /// Stores one byte of input in the cell under the head, where the
    /// current operator of `program` is an input; the end of input
    /// (`None`) stores zero. Elsewhere nothing changes.
    pub fn feed(&mut self, program: &Ast, byte: Option<Unit>)
        requires
            old(self).wf(),
            fits(program@, old(self).state().pcs),
            old(self).in_limits(),
        ensures
            final(self).wf(),
            final(self).state() == input_spec(program@, old(self).state(), byte),
            fits(program@, final(self).state().pcs),
    {
        let ghost s = self.state();
        let (ops, _) = self.current_ops(program);
        let depth: usize = self.pc.len();
        let k: usize = self.pc[depth - 1];
        proof {
            lemma_ops_view_len(ops@);
        }
        if k < ops.len() {
            proof {
                lemma_ops_view_index(ops@, k as int);
            }
            if let Operator::Get = &ops[k] {
                let b: Unit = match byte {
                    Some(b) => b,
                    None => 0,
                };
                let c = self.tape.cell();
                *c = b;
                self.advance();
                proof {
                    let t = advance(s.pcs);
                    assert(self.state().pcs =~= t);
                    assert(self.state().cells =~= input_spec(program@, s, byte).cells);
                    assert forall|n: int| 0 <= n < t.len() - 1 implies t.subrange(0, n) == s.pcs.subrange(0, n) by {
                        assert(t.subrange(0, n) =~= s.pcs.subrange(0, n));
                    }
                    assert(t.drop_last() =~= s.pcs.drop_last());
                }
            }
        }
    }

    /// Whether `step` and `feed` may be called with `program`: the
    /// counters are a valid position in it and the machine is within its
    /// limits.
    pub fn ready(&self, program: &Ast) -> (r: bool)
        requires
            self.wf(),
        ensures
            r == (fits(program@, self.state().pcs) && self.in_limits()),
    {
        if self.cycles == usize::MAX || self.tape.position() >= usize::MAX - 1 {
            return false;
        }
        let ghost pcs = self.state().pcs;
        let ghost p = program@;
        if self.pc.len() == 0 {
            return false;
        }
        let mut ops: &Vec<Operator> = &program.0;
        let mut n: usize = 0;
        assert(pcs.subrange(0, 0) =~= Seq::<int>::empty());
        while n + 1 < self.pc.len()
            invariant
                pcs == self.state().pcs,
                p == program@,
                n < self.pc.len(),
                ops_view(ops@) == frame_ops(p, pcs.subrange(0, n as int)),
                forall|m: int|
                    0 <= m < n ==> {
                        let q = #[trigger] frame_ops(p, pcs.subrange(0, m));
                        &&& 0 <= pcs[m] < q.len()
                        &&& q[pcs[m]] is Sub
                    },
            decreases self.pc.len() - n,
        {
            let k: usize = self.pc[n];
            proof {
                lemma_ops_view_len(ops@);
                assert(pcs.subrange(0, n + 1).drop_last() =~= pcs.subrange(0, n as int));
            }
            assert(k as int == pcs[n as int]);
            if k >= ops.len() {
                assert(!fits(p, pcs)) by {
                    let q = frame_ops(p, pcs.subrange(0, n as int));
                    assert(!(0 <= pcs[n as int] < q.len()));
                }
                return false;
            }
            proof {
                lemma_ops_view_index(ops@, k as int);
            }
            match &ops[k] {
                Operator::Sub(a) => {
                    ops = &a.0;
                },
                _ => {
                    assert(!fits(p, pcs)) by {
                        let q = frame_ops(p, pcs.subrange(0, n as int));
                        assert(!(q[pcs[n as int]] is Sub));
                    }
                    return false;
                },
            }
            n = n + 1;
        }
        proof {
            lemma_ops_view_len(ops@);
            assert(pcs.drop_last() =~= pcs.subrange(0, n as int));
        }
        self.pc[n] <= ops.len()
    }
}

/// The state after `n` steps from `s`.
pub open spec fn run_spec(p: Seq<Instr>, s: State, n: nat) -> State
    decreases n,
{
    if n == 0 {
        s
    } else {
        step_spec(p, run_spec(p, s, (n - 1) as nat))
    }
}

/// The program `[-]`.
pub open spec fn clear_loop() -> Seq<Instr> {
    seq![Instr::Sub(seq![Instr::Decr])]
}

/// Cells wrap around: decrementing a zero cell gives the largest value,
/// and incrementing the largest value gives zero.
pub proof fn lemma_cell_wraps(p: Seq<Instr>, s: State)
    requires
        0 <= s.pcs.last() < cur_ops(p, s.pcs).len(),
    ensures
        cur_ops(p, s.pcs)[s.pcs.last()] is Decr && cell_of(s) == 0 ==> cell_of(step_spec(p, s)) == 255,
        cur_ops(p, s.pcs)[s.pcs.last()] is Incr && cell_of(s) == 255 ==> cell_of(step_spec(p, s)) == 0,
{
}

/// Reading at the end of input stores zero in the cell under the head.
pub proof fn lemma_eof_reads_zero(p: Seq<Instr>, s: State)
    requires
        0 <= s.pcs.last() < cur_ops(p, s.pcs).len(),
        cur_ops(p, s.pcs)[s.pcs.last()] is Get,
    ensures
        cell_of(input_spec(p, s, None)) == 0,
        input_spec(p, s, None).cycles == s.cycles + 1,
{
}

proof fn lemma_clear_loop_frames()
    ensures
        cur_ops(clear_loop(), seq![0int]) == clear_loop(),
        cur_ops(clear_loop(), seq![0int, 0int]) == seq![Instr::Decr],
        cur_ops(clear_loop(), seq![0int, 1int]) == seq![Instr::Decr],
        advance(seq![0int, 0int]) == seq![0int, 1int],
        advance(seq![0int]) == seq![1int],
        seq![0int].push(0) == seq![0int, 0int],
        seq![0int, 1int].update(1, 0) == seq![0int, 0int],
        seq![0int, 1int].drop_last() == seq![0int],
{
    let p = clear_loop();
    assert(seq![0int].drop_last() =~= Seq::<int>::empty());
    assert(seq![0int, 0int].drop_last() =~= seq![0int]);
    assert(seq![0int, 1int].drop_last() =~= seq![0int]);
    assert(frame_ops(p, Seq::<int>::empty()) == p);
    assert(frame_ops(p, seq![0int]) == seq![Instr::Decr]);
    assert(seq![0int].push(0) =~= seq![0int, 0int]);
    assert(advance(seq![0int, 0int]) =~= seq![0int, 1int]);
    assert(advance(seq![0int]) =~= seq![1int]);
    assert(seq![0int, 1int].update(1, 0) =~= seq![0int, 0int]);
}

proof fn lemma_clear_loop_pass(s: State, j: int)
    requires
        s.pcs == seq![0int],
        s.cells.dom().contains(s.head),
        0 <= j < cell_of(s),
    ensures
        run_spec(clear_loop(), s, (1 + 2 * j) as nat) == (State {
            cells: s.cells.insert(s.head, (cell_of(s) - j) as Unit),
            pcs: seq![0int, 0int],
            cycles: s.cycles + j as nat,
            ..s
        }),
    decreases j,
{
    let p = clear_loop();
    lemma_clear_loop_frames();
    if j == 0 {
        assert(s.cells.insert(s.head, cell_of(s)) =~= s.cells);
        assert(run_spec(p, s, 0) == s);
        assert(run_spec(p, s, 1) == step_spec(p, s));
    } else {
        lemma_clear_loop_pass(s, j - 1);
        let a = run_spec(p, s, (2 * j - 1) as nat);
        assert(cell_of(a) == cell_of(s) - j + 1);
        let b = step_spec(p, a);
        assert(b.cells =~= s.cells.insert(s.head, (cell_of(s) - j) as Unit));
        assert(run_spec(p, s, (2 * j) as nat) == b);
        assert(run_spec(p, s, (1 + 2 * j) as nat) == step_spec(p, b));
    }
}

/// Running `[-]` from a non-zero cell `v` ends after `2v + 1` steps, with
/// the cell cleared, the head in place and `v` cycles counted.
pub proof fn lemma_clear_loop(s: State)
    requires
        s.pcs == seq![0int],
        s.cells.dom().contains(s.head),
        cell_of(s) != 0,
    ensures
        ({
            let t = run_spec(clear_loop(), s, (2 * cell_of(s) + 1) as nat);
            &&& halted(clear_loop(), t)
            &&& t.cells == s.cells.insert(s.head, 0)
            &&& t.head == s.head
            &&& t.cycles == s.cycles + cell_of(s)
        }),
{
    let p = clear_loop();
    let v = cell_of(s) as int;
    lemma_clear_loop_pass(s, v - 1);
    lemma_clear_loop_frames();
    let a = run_spec(p, s, (2 * v - 1) as nat);
    let b = step_spec(p, a);
    assert(b.cells =~= s.cells.insert(s.head, 0));
    assert(run_spec(p, s, (2 * v) as nat) == b);
    assert(run_spec(p, s, (2 * v + 1) as nat) == step_spec(p, b));
}

/// The program `[[-]-]`.
pub open spec fn clear_then_decrement_loop() -> Seq<Instr> {
    seq![Instr::Sub(seq![Instr::Sub(seq![Instr::Decr]), Instr::Decr])]
}

/// The states that running `[[-]-]` from a non-zero cell passes through.
spec fn diverging_inv(s: State) -> bool {
    ||| (s.pcs == seq![0int] && cell_of(s) != 0)
    ||| s.pcs == seq![0int, 0int]
    ||| (s.pcs == seq![0int, 0int, 0int] && cell_of(s) != 0)
    ||| s.pcs == seq![0int, 0int, 1int]
    ||| (s.pcs == seq![0int, 1int] && cell_of(s) == 0)
    ||| (s.pcs == seq![0int, 2int] && cell_of(s) == 255)
}

proof fn lemma_diverging_frames()
    ensures
        ({
            let p = clear_then_decrement_loop();
            let body = seq![Instr::Sub(seq![Instr::Decr]), Instr::Decr];
            &&& cur_ops(p, seq![0int]) == p
            &&& cur_ops(p, seq![0int, 0int]) == body
            &&& cur_ops(p, seq![0int, 1int]) == body
            &&& cur_ops(p, seq![0int, 2int]) == body
            &&& cur_ops(p, seq![0int, 0int, 0int]) == seq![Instr::Decr]
            &&& cur_ops(p, seq![0int, 0int, 1int]) == seq![Instr::Decr]
        }),
        seq![0int].push(0) == seq![0int, 0int],
        seq![0int, 0int].push(0) == seq![0int, 0int, 0int],
        advance(seq![0int, 0int]) == seq![0int, 1int],
        advance(seq![0int, 1int]) == seq![0int, 2int],
        advance(seq![0int, 0int, 0int]) == seq![0int, 0int, 1int],
        seq![0int, 0int, 1int].update(2, 0) == seq![0int, 0int, 0int],
        seq![0int, 0int, 1int].drop_last() == seq![0int, 0int],
        seq![0int, 2int].update(1, 0) == seq![0int, 0int],
{
    let p = clear_then_decrement_loop();
    let body = seq![Instr::Sub(seq![Instr::Decr]), Instr::Decr];
    assert(seq![0int].drop_last() =~= Seq::<int>::empty());
    assert(seq![0int, 0int].drop_last() =~= seq![0int]);
    assert(seq![0int, 1int].drop_last() =~= seq![0int]);
    assert(seq![0int, 2int].drop_last() =~= seq![0int]);
    assert(seq![0int, 0int, 0int].drop_last() =~= seq![0int, 0int]);
    assert(seq![0int, 0int, 1int].drop_last() =~= seq![0int, 0int]);
    assert(frame_ops(p, Seq::<int>::empty()) == p);
    assert(frame_ops(p, seq![0int]) == body);
    assert(frame_ops(p, seq![0int, 0int]) == seq![Instr::Decr]);
    assert(seq![0int].push(0) =~= seq![0int, 0int]);
    assert(seq![0int, 0int].push(0) =~= seq![0int, 0int, 0int]);
    assert(advance(seq![0int, 0int]) =~= seq![0int, 1int]);
    assert(advance(seq![0int, 1int]) =~= seq![0int, 2int]);
    assert(advance(seq![0int, 0int, 0int]) =~= seq![0int, 0int, 1int]);
    assert(seq![0int, 0int, 1int].update(2, 0) =~= seq![0int, 0int, 0int]);
    assert(seq![0int, 2int].update(1, 0) =~= seq![0int, 0int]);
}

proof fn lemma_diverging_step(s: State)
    requires
        diverging_inv(s),
    ensures
        diverging_inv(step_spec(clear_then_decrement_loop(), s)),
{
    lemma_diverging_frames();
}

proof fn lemma_diverging_run(s: State, n: nat)
    requires
        s.pcs == seq![0int],
        cell_of(s) != 0,
    ensures
        diverging_inv(run_spec(clear_then_decrement_loop(), s, n)),
    decreases n,
{
    if n > 0 {
        lemma_diverging_run(s, (n - 1) as nat);
        lemma_diverging_step(run_spec(clear_then_decrement_loop(), s, (n - 1) as nat));
    }
}

/// The nested loop `[[-]-]` started on a non-zero cell never ends: each
/// pass of the outer body clears the cell in the inner loop, and the `-`
/// after it wraps the cell round to 255, so the outer loop runs again.
pub proof fn lemma_clear_then_decrement_diverges(s: State, n: nat)
    requires
        s.pcs == seq![0int],
        cell_of(s) != 0,
    ensures
        !halted(clear_then_decrement_loop(), run_spec(clear_then_decrement_loop(), s, n)),
{
    lemma_diverging_run(s, n);
}

} // verus!
