use vstd::prelude::*;
use crate::operators::{Operator, Instr, op_view, ops_view, instr_of};

verus! {

/// The parsed representation of a program source.
pub struct Ast(pub Vec<Operator>);

/// Whether `c` is one of the eight operator characters.
pub open spec fn is_op_char(c: char) -> bool {
    c == '+' || c == '-' || c == '<' || c == '>' || c == '[' || c == ']' || c == '.' || c == ','
}

/// The source text of one operator.
pub open spec fn instr_text(i: Instr) -> Seq<char>
    decreases i,
{
    match i {
        Instr::Incr => seq!['+'],
        Instr::Decr => seq!['-'],
        Instr::Prev => seq!['<'],
        Instr::Next => seq!['>'],
        Instr::Put => seq!['.'],
        Instr::Get => seq![','],
        Instr::Skip => seq!['['],
        Instr::Loop => seq![']'],
        Instr::Nop(c) => seq![c],
        Instr::Sub(body) => seq!['['] + text(body) + seq![']'],
    }
}

/// The source text of a sequence of operators.
pub open spec fn text(s: Seq<Instr>) -> Seq<char>
    decreases s,
{
    if s.len() == 0 {
        Seq::empty()
    } else {
        text(s.drop_last()) + instr_text(s.last())
    }
}

/// Whether an operator can stand in a parsed program: no bare loop
/// delimiters, comments only of non-operator characters.
pub open spec fn wf_instr(i: Instr) -> bool
    decreases i,
{
    match i {
        Instr::Skip => false,
        Instr::Loop => false,
        Instr::Nop(c) => !is_op_char(c),
        Instr::Sub(body) => wf(body),
        _ => true,
    }
}

/// Whether a sequence of operators can be a parsed program.
pub open spec fn wf(s: Seq<Instr>) -> bool
    decreases s,
{
    s.len() == 0 || (wf(s.drop_last()) && wf_instr(s.last()))
}

/// The loop-nesting depth after reading `s`, or `None` where some `]` in
/// `s` closes no open loop.
pub open spec fn depth(s: Seq<char>) -> Option<nat>
    decreases s.len(),
{
    if s.len() == 0 {
        Some(0)
    } else {
        match depth(s.drop_last()) {
            None => None,
            Some(d) => if s.last() == '[' {
                Some(d + 1)
            } else if s.last() == ']' {
                if d == 0 {
                    None
                } else {
                    Some((d - 1) as nat)
                }
            } else {
                Some(d)
            },
        }
    }
}

/// The message of the error for a `]` that closes no loop.
pub open spec fn unmatched_close() -> Seq<char> {
    "Unmatched `]`."@
}

/// The message of the error for a `[` that is never closed.
pub open spec fn unmatched_open() -> Seq<char> {
    "Unmatched `[`."@
}

/// The text of a stack of partly built sequences, each followed by the
/// `[` that opened the next.
pub open spec fn stack_text(st: Seq<Vec<Operator>>) -> Seq<char>
    decreases st.len(),
{
    if st.len() == 0 {
        Seq::empty()
    } else {
        stack_text(st.drop_last()) + text(ops_view(st.last()@)) + seq!['[']
    }
}

proof fn lemma_ops_view_push(s: Seq<Operator>, o: Operator)
    ensures
        ops_view(s.push(o)) == ops_view(s).push(op_view(o)),
{
    assert(s.push(o).drop_last() =~= s);
}

proof fn lemma_text_push(s: Seq<Instr>, i: Instr)
    ensures
        text(s.push(i)) == text(s) + instr_text(i),
        wf(s.push(i)) == (wf(s) && wf_instr(i)),
{
    assert(s.push(i).drop_last() =~= s);
}

proof fn lemma_depth_none(s: Seq<char>, n: int)
    requires
        0 <= n <= s.len(),
        depth(s.subrange(0, n)) is None,
    ensures
        depth(s) is None,
    decreases s.len() - n,
{
    if n < s.len() {
        assert(s.subrange(0, n + 1).drop_last() =~= s.subrange(0, n));
        lemma_depth_none(s, n + 1);
    } else {
        assert(s.subrange(0, n) =~= s);
    }
}

proof fn lemma_instr_of_text(c: char)
    requires
        c != '[',
        c != ']',
    ensures
        instr_text(instr_of(c)) == seq![c],
        wf_instr(instr_of(c)),
{
}

impl Ast {
    /// Parses a source string into a program.
    ///
    /// Every character other than the eight operators becomes a comment.
    /// Fails with an "unmatched `]`" message where some `]` closes no
    /// loop, and otherwise with an "unmatched `[`" message where some
    /// loop is never closed.
    pub fn parse_str(source: &str) -> (r: Result<Ast, String>)
        ensures
            r is Ok <==> depth(source@) == Some(0nat),
            match r {
                Ok(a) => wf(a.view()) && text(a.view()) == source@,
                Err(e) => if depth(source@) is None {
                    e@ == unmatched_close()
                } else {
                    e@ == unmatched_open()
                },
            },
    {
        let mut stack: Vec<Vec<Operator>> = Vec::new();
        let mut ops: Vec<Operator> = Vec::new();
        let ghost s = source@;
        for token in it: source.chars()
            invariant
                s == source@,
                it.seq() == s,
                depth(s.subrange(0, it.index() as int)) == Some(stack.len() as nat),
                stack_text(stack@) + text(ops_view(ops@)) == s.subrange(0, it.index() as int),
                forall|k: int| 0 <= k < stack.len() ==> wf(ops_view(#[trigger] stack@[k]@)),
                wf(ops_view(ops@)),
        {
            let ghost i = it.index() as int;
            let ghost pre = s.subrange(0, i);
            assert(s.subrange(0, i + 1) =~= pre.push(token));
            assert(pre.push(token).drop_last() =~= pre);
            let op = Operator::from_char(token);
            match op {
                Operator::Skip => {
                    let ghost old_stack = stack@;
                    stack.push(ops);
                    ops = Vec::new();
                    assert(stack@.drop_last() =~= old_stack);
                    assert(ops_view(ops@) =~= Seq::<Instr>::empty());
                    assert(text(Seq::<Instr>::empty()) =~= Seq::<char>::empty());
                    assert(stack_text(stack@) + text(ops_view(ops@)) =~= pre.push(token));
                },
                Operator::Loop => {
                    if stack.len() == 0 {
                        proof {
                            assert(token == ']');
                            assert(depth(s.subrange(0, i + 1)) is None);
                            lemma_depth_none(s, i + 1);
                            assert(depth(source@) is None);
                        }
                        let e = "Unmatched `]`.".to_owned();
                        proof {
                            reveal_strlit("Unmatched `]`.");
                            assert(e@ == unmatched_close());
                        }
                        return Err(e);
                    }
                    let ghost old_stack = stack@;
                    let ghost body = ops_view(ops@);
                    let mut top = stack.pop().unwrap();
                    assert(old_stack.drop_last() =~= stack@);
                    let ghost top_text = text(ops_view(top@));
                    let sub = Operator::Sub(Ast(ops));
                    proof {
                        lemma_ops_view_push(top@, sub);
                        lemma_text_push(ops_view(top@), op_view(sub));
                    }
                    top.push(sub);
                    ops = top;
                    assert(stack_text(stack@) + text(ops_view(ops@)) =~= pre.push(token));
                },
                _ => {
                    let ghost before = ops_view(ops@);
                    proof {
                        lemma_instr_of_text(token);
                        lemma_ops_view_push(ops@, op);
                        lemma_text_push(before, op_view(op));
                    }
                    ops.push(op);
                    assert(stack_text(stack@) + text(ops_view(ops@)) =~= pre.push(token));
                },
            }
        }
        assert(s.subrange(0, s.len() as int) =~= s);
        if stack.len() != 0 {
            return Err("Unmatched `[`.".to_owned());
        }
        assert(stack_text(stack@) =~= Seq::<char>::empty());
        assert(text(ops_view(ops@)) =~= s);
        Ok(Ast(ops))
    }
}

/// Relies on `String::push`: appends the character `c` to `s`.
#[verifier::external_body]
fn push_char(s: &mut String, c: char)
    ensures
        final(s)@ == old(s)@.push(c),
{
    s.push(c);
}

/// Appends the source text of `op` to `out`.
fn write_op(op: &Operator, out: &mut String)
    ensures
        final(out)@ == old(out)@ + instr_text(op_view(*op)),
    decreases op,
{
    match op {
        Operator::Incr => push_char(out, '+'),
        Operator::Decr => push_char(out, '-'),
        Operator::Prev => push_char(out, '<'),
        Operator::Next => push_char(out, '>'),
        Operator::Put => push_char(out, '.'),
        Operator::Get => push_char(out, ','),
        Operator::Skip => push_char(out, '['),
        Operator::Loop => push_char(out, ']'),
        Operator::Nop(c) => push_char(out, *c),
        Operator::Sub(a) => {
            let ghost before = out@;
            push_char(out, '[');
            write_ops(&a.0, out);
            push_char(out, ']');
            assert(out@ =~= before + instr_text(op_view(*op)));
        },
    }
    assert(out@ =~= old(out)@ + instr_text(op_view(*op)));
}

/// Appends the source text of `ops` to `out`.
fn write_ops(ops: &Vec<Operator>, out: &mut String)
    ensures
        final(out)@ == old(out)@ + text(ops_view(ops@)),
    decreases ops,
{
    let mut k: usize = 0;
    while k < ops.len()
        invariant
            k <= ops.len(),
            out@ == old(out)@ + text(ops_view(ops@.subrange(0, k as int))),
        decreases ops.len() - k,
    {
        let ghost before = out@;
        proof {
            assert(decreases_to!(ops => ops@[k as int]));
        }
        write_op(&ops[k], out);
        proof {
            let pre = ops@.subrange(0, k as int);
            assert(ops@.subrange(0, k + 1) =~= pre.push(ops@[k as int]));
            lemma_ops_view_push(pre, ops@[k as int]);
            lemma_text_push(ops_view(pre), op_view(ops@[k as int]));
        }
        k = k + 1;
        assert(out@ =~= old(out)@ + text(ops_view(ops@.subrange(0, k as int))));
    }
    assert(ops@.subrange(0, ops.len() as int) =~= ops@);
}

impl Ast {
    /// The source text of this program. For a parsed program it is the
    /// text that was parsed, comments included.
    pub fn to_string(&self) -> (r: String)
        ensures
            r@ == text(self@),
    {
        let mut out = String::new();
        write_ops(&self.0, &mut out);
        assert(out@ =~= text(self@));
        out
    }
}

impl Operator {
    /// The source text of this operator.
    pub fn to_string(&self) -> (r: String)
        ensures
            r@ == instr_text(op_view(*self)),
    {
        let mut out = String::new();
        write_op(self, &mut out);
        assert(out@ =~= instr_text(op_view(*self)));
        out
    }
}

impl View for Ast {
    type V = Seq<Instr>;

    open spec fn view(&self) -> Seq<Instr> {
        ops_view(self.0@)
    }
}

proof fn lemma_depth_some_prefix(s: Seq<char>, n: int)
    requires
        0 <= n <= s.len(),
        depth(s) is Some,
    ensures
        depth(s.subrange(0, n)) is Some,
{
    if depth(s.subrange(0, n)) is None {
        lemma_depth_none(s, n);
    }
}

proof fn lemma_extra_close_upto(s: Seq<char>, k: int, j: int)
    requires
        depth(s) == Some(0nat),
        0 <= k <= j <= s.len(),
    ensures
        depth(s.subrange(0, j)) is Some,
        ({
            let t = s.insert(k, ']');
            depth(t.subrange(0, j + 1)) is None || (depth(s.subrange(0, j))->0 >= 1
                && depth(t.subrange(0, j + 1)) == Some((depth(s.subrange(0, j))->0 - 1) as nat))
        }),
    decreases j - k,
{
    let t = s.insert(k, ']');
    lemma_depth_some_prefix(s, j);
    if j == k {
        assert(t.subrange(0, k + 1).drop_last() =~= s.subrange(0, k));
    } else {
        lemma_extra_close_upto(s, k, j - 1);
        assert(t.subrange(0, j + 1).drop_last() =~= t.subrange(0, j));
        assert(t.subrange(0, j + 1).last() == s[j - 1]);
        assert(s.subrange(0, j).drop_last() =~= s.subrange(0, j - 1));
    }
}

/// A single extra `]` anywhere in a balanced source makes it fail with the
/// unmatched-closing error.
pub proof fn lemma_extra_close(s: Seq<char>, k: int)
    requires
        depth(s) == Some(0nat),
        0 <= k <= s.len(),
    ensures
        depth(s.insert(k, ']')) is None,
{
    let t = s.insert(k, ']');
    lemma_extra_close_upto(s, k, s.len() as int);
    assert(s.subrange(0, s.len() as int) =~= s);
    assert(t.subrange(0, s.len() + 1int) =~= t);
}

/// Dropping the final `]` of a balanced source leaves one loop open, which
/// makes it fail with the unmatched-opening error.
pub proof fn lemma_missing_close(s: Seq<char>)
    requires
        depth(s) == Some(0nat),
        s.len() > 0,
        s.last() == ']',
    ensures
        depth(s.drop_last()) == Some(1nat),
{
}

/// A state of parsing in the model: the enclosing sequences still open,
/// and the sequence being built.
pub ghost struct ParseState {
    pub stack: Seq<Seq<Instr>>,
    pub cur: Seq<Instr>,
}

/// Parsing one more character; `None` once a `]` closed no loop.
pub open spec fn parse_char(st: Option<ParseState>, c: char) -> Option<ParseState> {
    match st {
        None => None,
        Some(st) => if c == '[' {
            Some(ParseState { stack: st.stack.push(st.cur), cur: Seq::empty() })
        } else if c == ']' {
            if st.stack.len() == 0 {
                None
            } else {
                Some(ParseState { stack: st.stack.drop_last(), cur: st.stack.last().push(Instr::Sub(st.cur)) })
            }
        } else {
            Some(ParseState { stack: st.stack, cur: st.cur.push(instr_of(c)) })
        },
    }
}

/// Parsing the characters of `s` in order, from `st`.
pub open spec fn parse_chars(st: Option<ParseState>, s: Seq<char>) -> Option<ParseState>
    decreases s.len(),
{
    if s.len() == 0 {
        st
    } else {
        parse_char(parse_chars(st, s.drop_last()), s.last())
    }
}

/// The state parsing starts from.
pub open spec fn parse_start() -> Option<ParseState> {
    Some(ParseState { stack: Seq::empty(), cur: Seq::empty() })
}

proof fn lemma_parse_chars_concat(st: Option<ParseState>, a: Seq<char>, b: Seq<char>)
    ensures
        parse_chars(st, a + b) == parse_chars(parse_chars(st, a), b),
    decreases b.len(),
{
    if b.len() == 0 {
        assert(a + b =~= a);
    } else {
        assert((a + b).drop_last() =~= a + b.drop_last());
        assert((a + b).last() == b.last());
        lemma_parse_chars_concat(st, a, b.drop_last());
    }
}

proof fn lemma_parse_text(stack: Seq<Seq<Instr>>, cur: Seq<Instr>, x: Seq<Instr>)
    requires
        wf(x),
    ensures
        parse_chars(Some(ParseState { stack, cur }), text(x)) == Some(ParseState { stack, cur: cur + x }),
    decreases x, 0int,
{
    let st = Some(ParseState { stack, cur });
    if x.len() == 0 {
        assert(cur + x =~= cur);
    } else {
        let y = x.drop_last();
        lemma_parse_chars_concat(st, text(y), instr_text(x.last()));
        lemma_parse_text(stack, cur, y);
        lemma_parse_instr(stack, cur + y, x.last());
        assert((cur + y).push(x.last()) =~= cur + x);
    }
}

proof fn lemma_parse_instr(stack: Seq<Seq<Instr>>, cur: Seq<Instr>, i: Instr)
    requires
        wf_instr(i),
    ensures
        parse_chars(Some(ParseState { stack, cur }), instr_text(i)) == Some(ParseState { stack, cur: cur.push(i) }),
    decreases i, 1int,
{
    let st = Some(ParseState { stack, cur });
    match i {
        Instr::Sub(body) => {
            let open = seq!['['];
            let close = seq![']'];
            assert(open.drop_last() =~= Seq::<char>::empty());
            assert(close.drop_last() =~= Seq::<char>::empty());
            lemma_parse_chars_concat(st, open + text(body), close);
            lemma_parse_chars_concat(st, open, text(body));
            lemma_parse_text(stack.push(cur), Seq::empty(), body);
            assert(Seq::<Instr>::empty() + body =~= body);
            assert(stack.push(cur).drop_last() =~= stack);
            let inner = Some(ParseState { stack: stack.push(cur), cur: Seq::empty() });
            assert(parse_chars(st, Seq::<char>::empty()) == st);
            assert(parse_chars(st, open) == inner);
            let full = Some(ParseState { stack: stack.push(cur), cur: body });
            assert(parse_chars(st, open + text(body)) == full);
            assert(parse_chars(full, Seq::<char>::empty()) == full);
            assert(parse_chars(full, close) == Some(ParseState { stack, cur: cur.push(i) }));
            assert(instr_text(i) == open + text(body) + close);
        },
        _ => {
            let c = instr_text(i)[0];
            assert(instr_text(i) =~= seq![c]);
            assert(seq![c].drop_last() =~= Seq::<char>::empty());
        },
    }
}

proof fn lemma_parse_depth(s: Seq<char>)
    ensures
        match depth(s) {
            None => parse_chars(parse_start(), s) is None,
            Some(d) => parse_chars(parse_start(), s) is Some && parse_chars(parse_start(), s)->0.stack.len() == d,
        },
    decreases s.len(),
{
    if s.len() > 0 {
        lemma_parse_depth(s.drop_last());
    }
}

/// Rendering a parsed program and parsing the text again gives the same
/// program: the text of a well-formed program is balanced (so parsing it
/// succeeds), and no other well-formed program has the same text.
pub proof fn lemma_round_trip(a: Seq<Instr>, b: Seq<Instr>)
    requires
        wf(a),
        wf(b),
        text(b) == text(a),
    ensures
        depth(text(a)) == Some(0nat),
        b == a,
{
    let e = Seq::<Seq<Instr>>::empty();
    lemma_parse_text(e, Seq::empty(), a);
    lemma_parse_text(e, Seq::empty(), b);
    assert(Seq::<Instr>::empty() + a =~= a);
    assert(Seq::<Instr>::empty() + b =~= b);
    lemma_parse_depth(text(a));
}

} // verus!
