use vstd::prelude::*;
use crate::error::BrainfuckError;

verus! {

broadcast use vstd::seq::axiom_seq_index_decreases, vstd::seq::axiom_seq_subrange_decreases, vstd::std_specs::vec::axiom_vec_decreases_to_view;

/// Position range tracking instructions back to the source bytes.
/// Both ends are inclusive.
#[derive(Debug, Clone, Copy, PartialEq, Eq, Structural)]
pub struct Position {
    pub start: usize,
    pub end: usize,
}

impl From<usize> for Position {
    fn from(i: usize) -> (r: Self)
        ensures
            r == (Position { start: i, end: i }),
    {
        Position { start: i, end: i }
    }
}

impl vstd::std_specs::convert::FromSpecImpl<usize> for Position {
    open spec fn obeys_from_spec() -> bool {
        true
    }

    open spec fn from_spec(i: usize) -> Self {
        Position { start: i, end: i }
    }
}

impl Position {
    /// The merge of two positions: the smallest range covering both.
    pub open spec fn merge_spec(self, other: Position) -> Position {
        Position {
            start: if self.start <= other.start {
                self.start
            } else {
                other.start
            },
            end: if self.end >= other.end {
                self.end
            } else {
                other.end
            },
        }
    }

    /// Merges two positions into one.
    pub fn merge(&self, other: Position) -> (r: Position)
        ensures
            r == self.merge_spec(other),
    {
        let start = if self.start <= other.start {
            self.start
        } else {
            other.start
        };
        let end = if self.end >= other.end {
            self.end
        } else {
            other.end
        };
        Position { start, end }
    }
}

/// A single Brainfuck instruction.
///
/// `Add` amounts use wrapping byte arithmetic, so `-` is parsed as an
/// `Add` of 255. Only `Add`, `Move`, `Input`, `Output` and `Loop` are
/// produced by the parser; `Clear` and `Mul` are synthesized by
/// optimization passes.
#[derive(Debug, PartialEq, Eq)]
pub enum Instruction {
    Add { amount: u8, position: Position },
    Move { offset: isize, position: Position },
    Input { position: Position },
    Output { position: Position },
    Loop { body: Vec<Instruction>, position: Position },
    Clear { position: Position },
    Mul { offset: isize, amount: u8, position: Position },
}

/// The mathematical model of an instruction: the same tree, with loop
/// bodies as sequences. Contracts throughout the crate speak of this type.
pub enum InstrModel {
    Add { amount: u8, position: Position },
    Move { offset: isize, position: Position },
    Input { position: Position },
    Output { position: Position },
    Loop { body: Seq<InstrModel>, position: Position },
    Clear { position: Position },
    Mul { offset: isize, amount: u8, position: Position },
}

/// The model of one instruction: loop bodies become sequences of models.
pub open spec fn view_instr(i: Instruction) -> InstrModel
    decreases i,
{
    match i {
        Instruction::Add { amount, position } => InstrModel::Add { amount, position },
        Instruction::Move { offset, position } => InstrModel::Move { offset, position },
        Instruction::Input { position } => InstrModel::Input { position },
        Instruction::Output { position } => InstrModel::Output { position },
        Instruction::Loop { body, position } => InstrModel::Loop {
            body: view_seq(body@),
            position,
        },
        Instruction::Clear { position } => InstrModel::Clear { position },
        Instruction::Mul { offset, amount, position } => InstrModel::Mul {
            offset,
            amount,
            position,
        },
    }
}

/// The model of a sequence of instructions, element by element.
pub open spec fn view_seq(s: Seq<Instruction>) -> Seq<InstrModel>
    decreases s,
{
    Seq::new(
        s.len(),
        |j: int|
            if 0 <= j < s.len() {
                view_instr(s[j])
            } else {
                arbitrary()
            },
    )
}

impl DeepView for Instruction {
    type V = InstrModel;

    open spec fn deep_view(&self) -> InstrModel {
        view_instr(*self)
    }
}

impl InstrModel {
    /// The position such an instruction carries.
    pub open spec fn position(self) -> Position {
        match self {
            InstrModel::Add { position, .. } => position,
            InstrModel::Move { position, .. } => position,
            InstrModel::Input { position } => position,
            InstrModel::Output { position } => position,
            InstrModel::Loop { position, .. } => position,
            InstrModel::Clear { position } => position,
            InstrModel::Mul { position, .. } => position,
        }
    }

    /// Whether the instruction is, or is implemented by, a Brainfuck loop.
    pub open spec fn is_loop(self) -> bool {
        match self {
            InstrModel::Loop { .. } | InstrModel::Clear { .. } | InstrModel::Mul { .. } => true,
            _ => false,
        }
    }

    /// Whether executing the instruction always leaves the current cell at zero.
    pub open spec fn clears_current_cell(self) -> bool {
        match self {
            InstrModel::Loop { .. } | InstrModel::Clear { .. } => true,
            _ => false,
        }
    }
}

impl Instruction {
    /// Returns the position of this instruction in the source code.
    pub fn position(&self) -> (r: Position)
        ensures
            r == self.deep_view().position(),
    {
        match *self {
            Instruction::Add { position, .. } => position,
            Instruction::Move { position, .. } => position,
            Instruction::Input { position } => position,
            Instruction::Output { position } => position,
            Instruction::Loop { position, .. } => position,
            Instruction::Clear { position } => position,
            Instruction::Mul { position, .. } => position,
        }
    }

    /// Returns `true` if the instruction represents a Brainfuck loop.
    /// `Clear` and `Mul` do not exist natively in the language and are
    /// actually implemented with simple loops.
    pub fn is_loop(&self) -> (r: bool)
        ensures
            r == self.deep_view().is_loop(),
    {
        match *self {
            Instruction::Loop { .. } | Instruction::Clear { .. } | Instruction::Mul { .. } => true,
            _ => false,
        }
    }

    /// Returns whether this instruction sets the value of the current cell
    /// to zero. This is useful for dead code elimination.
    pub fn clears_current_cell(&self) -> (r: bool)
        ensures
            r == self.deep_view().clears_current_cell(),
    {
        match *self {
            Instruction::Loop { .. } | Instruction::Clear { .. } => true,
            _ => false,
        }
    }
}

/// Whether a value fits a signed pointer offset.
pub open spec fn in_isize(v: int) -> bool {
    isize::MIN <= v <= isize::MAX
}

/// Addition of two cell values, wrapping modulo 256.
pub open spec fn byte_add(a: u8, b: u8) -> u8 {
    ((a + b) % 256) as u8
}

/// Multiplication of two cell values, wrapping modulo 256.
pub open spec fn byte_mul(a: u8, b: u8) -> u8 {
    ((a * b) % 256) as u8
}

/// The number of instructions in one instruction, loop bodies included.
pub open spec fn instr_size(i: InstrModel) -> nat
    decreases i,
{
    match i {
        InstrModel::Loop { body, .. } => 1 + seq_size(body),
        _ => 1,
    }
}

/// The number of instructions in a sequence, loop bodies included.
pub open spec fn seq_size(s: Seq<InstrModel>) -> nat
    decreases s,
{
    if s.len() == 0 {
        0
    } else {
        instr_size(s[0]) + seq_size(s.subrange(1, s.len() as int))
    }
}

/// Each element counts no more than the whole sequence.
pub proof fn lemma_seq_size_index(s: Seq<InstrModel>, j: int)
    requires
        0 <= j < s.len(),
    ensures
        instr_size(s[j]) <= seq_size(s),
    decreases j,
{
    if j == 0 {
    } else {
        let rest = s.subrange(1, s.len() as int);
        lemma_seq_size_index(rest, j - 1);
        assert(rest[j - 1] == s[j]);
    }
}

pub broadcast proof fn lemma_view_seq_push(s: Seq<Instruction>, x: Instruction)
    ensures
        #[trigger] view_seq(s.push(x)) == view_seq(s).push(view_instr(x)),
{
    assert(view_seq(s.push(x)) =~= view_seq(s).push(view_instr(x)));
}


/// The eight significant source bytes, by ASCII value.
pub const TOKEN_PLUS: u8 = 43;

pub const TOKEN_MINUS: u8 = 45;

pub const TOKEN_RIGHT: u8 = 62;

pub const TOKEN_LEFT: u8 = 60;

pub const TOKEN_DOT: u8 = 46;

pub const TOKEN_COMMA: u8 = 44;

pub const TOKEN_OPEN: u8 = 91;

pub const TOKEN_CLOSE: u8 = 93;

/// What the parser emits for one source byte that is not a bracket:
/// an instruction for the six simple tokens, nothing for a comment byte.
pub open spec fn token_of(b: u8, i: int) -> Option<InstrModel> {
    let position = Position { start: i as usize, end: i as usize };
    if b == TOKEN_RIGHT {
        Some(InstrModel::Move { offset: 1isize, position })
    } else if b == TOKEN_LEFT {
        Some(InstrModel::Move { offset: -1isize, position })
    } else if b == TOKEN_PLUS {
        Some(InstrModel::Add { amount: 1u8, position })
    } else if b == TOKEN_MINUS {
        Some(InstrModel::Add { amount: 255u8, position })
    } else if b == TOKEN_DOT {
        Some(InstrModel::Output { position })
    } else if b == TOKEN_COMMA {
        Some(InstrModel::Input { position })
    } else {
        None
    }
}

/// What parsing a byte stream yields: the instructions, or the offset of
/// the unmatched bracket.
pub enum ParseOutcome {
    Parsed(Seq<InstrModel>),
    /// A `[` was never closed; `at` is the offset of the outermost one
    /// still open at end of input.
    UnmatchedOpen { at: int },
    /// A `]` had no opening `[`; `at` is its offset.
    UnmatchedClose { at: int },
}

/// One state of the parser's bracket-matching discipline: reading byte `i`,
/// with `cur` the innermost open sequence and `stack` the enclosing open
/// sequences, each with the offset of the `[` that opened it.
pub open spec fn parse_from(
    s: Seq<u8>,
    i: int,
    cur: Seq<InstrModel>,
    stack: Seq<(Seq<InstrModel>, int)>,
) -> ParseOutcome
    decreases s.len() - i,
{
    if i < 0 || i >= s.len() {
        if stack.len() == 0 {
            ParseOutcome::Parsed(cur)
        } else {
            ParseOutcome::UnmatchedOpen { at: stack[0].1 }
        }
    } else {
        let b = s[i];
        if b == TOKEN_OPEN {
            parse_from(s, i + 1, Seq::empty(), stack.push((cur, i)))
        } else if b == TOKEN_CLOSE {
            if stack.len() == 0 {
                ParseOutcome::UnmatchedClose { at: i }
            } else {
                let parent = stack.last();
                let lp = InstrModel::Loop {
                    body: cur,
                    position: Position { start: parent.1 as usize, end: i as usize },
                };
                parse_from(s, i + 1, parent.0.push(lp), stack.drop_last())
            }
        } else {
            match token_of(b, i) {
                Some(instr) => parse_from(s, i + 1, cur.push(instr), stack),
                None => parse_from(s, i + 1, cur, stack),
            }
        }
    }
}

/// The result of parsing a whole byte stream.
pub open spec fn parse_spec(s: Seq<u8>) -> ParseOutcome {
    parse_from(s, 0, Seq::empty(), Seq::empty())
}

/// The model of the parser's stack of open sequences.
pub open spec fn stack_model(st: Seq<(Vec<Instruction>, usize)>) -> Seq<(Seq<InstrModel>, int)> {
    Seq::new(
        st.len(),
        |j: int|
            if 0 <= j < st.len() {
                (view_seq(st[j].0@), st[j].1 as int)
            } else {
                arbitrary()
            },
    )
}

/// Parses a Brainfuck program from the given bytes.
///
/// Succeeds exactly when the brackets are balanced; every byte other than
/// the eight tokens is ignored. An unmatched bracket is reported as a
/// `ParseError` carrying its byte offset.
pub fn parse(r: &[u8]) -> (res: Result<Vec<Instruction>, BrainfuckError>)
    ensures
        (parse_spec(r@) matches ParseOutcome::Parsed(m) ==> res matches Ok(v) && view_seq(v@)
            == m),
        (parse_spec(r@) matches ParseOutcome::UnmatchedOpen { at } ==> res matches Err(e) && e
            matches BrainfuckError::ParseError { message, position } && position == (Position {
            start: at as usize,
            end: at as usize,
        }) && message@ == "This [ has no matching closing ]."@),
        (parse_spec(r@) matches ParseOutcome::UnmatchedClose { at } ==> res matches Err(e) && e
            matches BrainfuckError::ParseError { message, position } && position == (Position {
            start: at as usize,
            end: at as usize,
        }) && message@ == "This ] has no matching opening [."@),
{
    let mut instructions: Vec<Instruction> = Vec::new();
    let mut stack: Vec<(Vec<Instruction>, usize)> = Vec::new();
    let mut idx: usize = 0;

    proof {
        assert(view_seq(instructions@) =~= Seq::<InstrModel>::empty());
        assert(stack_model(stack@) =~= Seq::<(Seq<InstrModel>, int)>::empty());
    }

    while idx < r.len()
        invariant
            idx <= r.len(),
            parse_from(r@, idx as int, view_seq(instructions@), stack_model(stack@)) == parse_spec(
                r@,
            ),
        decreases r.len() - idx,
    {
        let b = r[idx];
        if b == TOKEN_OPEN {
            let ghost prev_stack = stack@;
            stack.push((instructions, idx));
            instructions = Vec::new();
            proof {
                assert(stack_model(stack@) =~= stack_model(prev_stack).push(
                    (view_seq(stack@[prev_stack.len() as int].0@), idx as int),
                ));
                assert(view_seq(instructions@) =~= Seq::<InstrModel>::empty());
            }
        } else if b == TOKEN_CLOSE {
            let ghost prev_stack = stack@;
            match stack.pop() {
                Some((mut parent_instructions, parent_index)) => {
                    let lp = Instruction::Loop {
                        body: instructions,
                        position: Position { start: parent_index, end: idx },
                    };
                    proof {
                        assert(stack_model(prev_stack).last() == (
                            view_seq(parent_instructions@),
                            parent_index as int,
                        ));
                        assert(stack_model(stack@) =~= stack_model(prev_stack).drop_last());
                        lemma_view_seq_push(parent_instructions@, lp);
                    }
                    parent_instructions.push(lp);
                    instructions = parent_instructions;
                },
                None => {
                    return Err(
                        BrainfuckError::ParseError {
                            message: "This ] has no matching opening [.".to_owned(),
                            position: Position { start: idx, end: idx },
                        },
                    );
                },
            }
        } else {
            let ghost prev = instructions@;
            if b == TOKEN_RIGHT {
                instructions.push(
                    Instruction::Move { offset: 1, position: Position { start: idx, end: idx } },
                );
            } else if b == TOKEN_LEFT {
                instructions.push(
                    Instruction::Move { offset: -1, position: Position { start: idx, end: idx } },
                );
            } else if b == TOKEN_PLUS {
                instructions.push(
                    Instruction::Add { amount: 1, position: Position { start: idx, end: idx } },
                );
            } else if b == TOKEN_MINUS {
                instructions.push(
                    Instruction::Add { amount: 255, position: Position { start: idx, end: idx } },
                );
            } else if b == TOKEN_DOT {
                instructions.push(
                    Instruction::Output { position: Position { start: idx, end: idx } },
                );
            } else if b == TOKEN_COMMA {
                instructions.push(
                    Instruction::Input { position: Position { start: idx, end: idx } },
                );
            }
            proof {
                if instructions@ != prev {
                    lemma_view_seq_push(prev, instructions@.last());
                }
            }
        }
        idx = idx + 1;
    }

    if stack.len() > 0 {
        let open_index = stack[0].1;
        return Err(
            BrainfuckError::ParseError {
                message: "This [ has no matching closing ].".to_owned(),
                position: Position { start: open_index, end: open_index },
            },
        );
    }

    Ok(instructions)
}


/// The decimal digits of a number, as text.
fn decimal_string(n: u64) -> (r: String)
    ensures
        r@.len() > 0,
{
    let mut digits: Vec<u64> = Vec::new();
    digits.push(n % 10);
    let mut value = n / 10;
    while value > 0
        invariant
            digits@.len() >= 1,
        decreases value,
    {
        digits.push(value % 10);
        value = value / 10;
    }
    let mut text = String::new();
    let mut k = digits.len();
    while k > 0
        invariant
            k <= digits@.len(),
            text@.len() == digits@.len() - k,
        decreases k,
    {
        k = k - 1;
        let piece = match digits[k] {
            0 => "0",
            1 => "1",
            2 => "2",
            3 => "3",
            4 => "4",
            5 => "5",
            6 => "6",
            7 => "7",
            8 => "8",
            _ => "9",
        };
        proof {
            assert(piece@.len() == 1) by {
                reveal_strlit("0");
                reveal_strlit("1");
                reveal_strlit("2");
                reveal_strlit("3");
                reveal_strlit("4");
                reveal_strlit("5");
                reveal_strlit("6");
                reveal_strlit("7");
                reveal_strlit("8");
                reveal_strlit("9");
            }
        }
        text.append(piece);
    }
    text
}

/// An offset with an explicit sign, as text.
fn signed_string(v: isize) -> (r: String)
    ensures
        r@.len() > 0,
{
    if v >= 0 {
        let mut text = String::from_str("+");
        proof {
            assert("+"@.len() == 1) by {
                reveal_strlit("+");
            }
        }
        text.append(decimal_string(v as u64).as_str());
        text
    } else {
        let mut text = String::from_str("-");
        proof {
            assert("-"@.len() == 1) by {
                reveal_strlit("-");
            }
        }
        // The magnitude, computed without overflowing `isize::MIN`.
        let magnitude = ((-(v + 1)) as u64) + 1;
        text.append(decimal_string(magnitude).as_str());
        text
    }
}

/// Pretty-prints one instruction, one per line, with four spaces of
/// indentation per loop-nesting level. The output is informational, not a
/// stable format; it is never empty.
pub fn print_instruction(instruction: &Instruction, level: usize) -> (r: String)
    ensures
        r@.len() > 0,
{
    let mut indent = String::new();
    let mut k: usize = 0;
    while k < level
        decreases level - k,
    {
        indent.append("    ");
        k = k + 1;
    }
    print_indented(instruction, &indent)
}

/// Pretty-prints one instruction with the given indentation prefix.
#[verifier::loop_isolation(false)]
fn print_indented(instruction: &Instruction, indent: &String) -> (r: String)
    ensures
        r@.len() > 0,
    decreases instr_size(view_instr(*instruction)),
{
    let mut text = indent.clone();
    match instruction {
        Instruction::Add { amount, .. } => {
            text.append("Add(");
            text.append(decimal_string(*amount as u64).as_str());
            text.append(")");
        },
        Instruction::Move { offset, .. } => {
            text.append("Move <");
            text.append(signed_string(*offset).as_str());
            text.append(">");
        },
        Instruction::Input { .. } => {
            text.append("Input");
        },
        Instruction::Output { .. } => {
            text.append("Output");
        },
        Instruction::Loop { body, .. } => {
            text.append("Loop {\n");
            proof {
                reveal_strlit("Loop {\n");
            }
            let mut inner = indent.clone();
            inner.append("    ");
            let mut j: usize = 0;
            while j < body.len()
                invariant
                    text@.len() > indent@.len(),
                decreases body@.len() - j,
            {
                proof {
                    lemma_seq_size_index(view_seq(body@), j as int);
                }
                let line = print_indented(&body[j], &inner);
                text.append(line.as_str());
                text.append("\n");
                j = j + 1;
            }
            text.append(indent.as_str());
            text.append("}");
        },
        Instruction::Clear { .. } => {
            text.append("Clear");
        },
        Instruction::Mul { offset, amount, .. } => {
            text.append("Mul(");
            text.append(decimal_string(*amount as u64).as_str());
            text.append(") <");
            text.append(signed_string(*offset).as_str());
            text.append(">");
        },
    }
    proof {
        assert("Add("@.len() > 0 && "Input"@.len() > 0 && "Output"@.len() > 0 && "Loop {\n"@.len()
            > 0 && "Clear"@.len() > 0 && "Mul("@.len() > 0 && "Move <"@.len() > 0) by {
            reveal_strlit("Add(");
            reveal_strlit("Input");
            reveal_strlit("Output");
            reveal_strlit("Loop {\n");
            reveal_strlit("Clear");
            reveal_strlit("Mul(");
            reveal_strlit("Move <");
        }
    }
    text
}


/// A byte the parser treats as a token rather than a comment.
pub open spec fn is_token_byte(b: u8) -> bool {
    b == TOKEN_PLUS || b == TOKEN_MINUS || b == TOKEN_RIGHT || b == TOKEN_LEFT || b == TOKEN_DOT
        || b == TOKEN_COMMA || b == TOKEN_OPEN || b == TOKEN_CLOSE
}

/// The token bytes of a stream, comments removed.
pub open spec fn tokens_of(s: Seq<u8>) -> Seq<u8>
    decreases s.len(),
{
    if s.len() == 0 {
        Seq::empty()
    } else if is_token_byte(s[0]) {
        seq![s[0]] + tokens_of(s.subrange(1, s.len() as int))
    } else {
        tokens_of(s.subrange(1, s.len() as int))
    }
}

/// An instruction with every position forgotten: the semantic payload.
pub open spec fn erase_instr(i: InstrModel) -> InstrModel
    decreases i,
{
    let nowhere = Position { start: 0, end: 0 };
    match i {
        InstrModel::Add { amount, .. } => InstrModel::Add { amount, position: nowhere },
        InstrModel::Move { offset, .. } => InstrModel::Move { offset, position: nowhere },
        InstrModel::Input { .. } => InstrModel::Input { position: nowhere },
        InstrModel::Output { .. } => InstrModel::Output { position: nowhere },
        InstrModel::Loop { body, .. } => InstrModel::Loop {
            body: erase_seq(body),
            position: nowhere,
        },
        InstrModel::Clear { .. } => InstrModel::Clear { position: nowhere },
        InstrModel::Mul { offset, amount, .. } => InstrModel::Mul {
            offset,
            amount,
            position: nowhere,
        },
    }
}

/// A sequence of instructions with every position forgotten.
pub open spec fn erase_seq(s: Seq<InstrModel>) -> Seq<InstrModel>
    decreases s,
{
    Seq::new(
        s.len(),
        |j: int|
            if 0 <= j < s.len() {
                erase_instr(s[j])
            } else {
                arbitrary()
            },
    )
}

proof fn lemma_erase_seq_push(s: Seq<InstrModel>, x: InstrModel)
    ensures
        erase_seq(s.push(x)) == erase_seq(s).push(erase_instr(x)),
{
    assert(erase_seq(s.push(x)) =~= erase_seq(s).push(erase_instr(x)));
}

/// Two parser stacks whose open sequences agree up to positions.
spec fn stacks_aligned(
    st1: Seq<(Seq<InstrModel>, int)>,
    st2: Seq<(Seq<InstrModel>, int)>,
) -> bool {
    &&& st1.len() == st2.len()
    &&& forall|k: int|
        0 <= k < st1.len() ==> erase_seq((#[trigger] st1[k]).0) == erase_seq(st2[k].0)
}

/// Whether two parses that have read the same tokens so far end alike: in
/// the same instructions up to positions, or in the same kind of
/// unmatched bracket.
spec fn outcomes_aligned(r1: ParseOutcome, r2: ParseOutcome) -> bool {
    match (r1, r2) {
        (ParseOutcome::Parsed(a), ParseOutcome::Parsed(b)) => erase_seq(a) == erase_seq(b),
        (ParseOutcome::UnmatchedOpen { .. }, ParseOutcome::UnmatchedOpen { .. }) => true,
        (ParseOutcome::UnmatchedClose { .. }, ParseOutcome::UnmatchedClose { .. }) => true,
        _ => false,
    }
}

proof fn lemma_parse_aligned(
    s: Seq<u8>,
    i: int,
    t: Seq<u8>,
    j: int,
    cur1: Seq<InstrModel>,
    st1: Seq<(Seq<InstrModel>, int)>,
    cur2: Seq<InstrModel>,
    st2: Seq<(Seq<InstrModel>, int)>,
)
    requires
        0 <= i <= s.len(),
        0 <= j <= t.len(),
        tokens_of(s.subrange(i, s.len() as int)) == tokens_of(t.subrange(j, t.len() as int)),
        erase_seq(cur1) == erase_seq(cur2),
        stacks_aligned(st1, st2),
    ensures
        outcomes_aligned(parse_from(s, i, cur1, st1), parse_from(t, j, cur2, st2)),
    decreases s.len() - i + t.len() - j,
{
    let su = s.subrange(i, s.len() as int);
    let tu = t.subrange(j, t.len() as int);
    if i < s.len() {
        assert(su[0] == s[i]);
        assert(su.subrange(1, su.len() as int) =~= s.subrange(i + 1, s.len() as int));
    }
    if j < t.len() {
        assert(tu[0] == t[j]);
        assert(tu.subrange(1, tu.len() as int) =~= t.subrange(j + 1, t.len() as int));
    }
    if i < s.len() && !is_token_byte(s[i]) {
        assert(token_of(s[i], i) is None);
        lemma_parse_aligned(s, i + 1, t, j, cur1, st1, cur2, st2);
    } else if j < t.len() && !is_token_byte(t[j]) {
        assert(token_of(t[j], j) is None);
        lemma_parse_aligned(s, i, t, j + 1, cur1, st1, cur2, st2);
    } else if i >= s.len() {
        // The left stream is done and holds no more tokens, so neither
        // does the right one: only the end-of-input rule remains.
        assert(tokens_of(su) =~= Seq::<u8>::empty());
        if j < t.len() {
            assert(is_token_byte(t[j]));
            assert(tokens_of(tu).len() > 0);
            assert(false);
        }
    } else if j >= t.len() {
        assert(tokens_of(tu) =~= Seq::<u8>::empty());
        assert(is_token_byte(s[i]));
        assert(tokens_of(su).len() > 0);
        assert(false);
    } else {
        // Both streams sit on a token, and it is the same token.
        assert(is_token_byte(s[i]) && is_token_byte(t[j]));
        assert(tokens_of(su) == seq![s[i]] + tokens_of(s.subrange(i + 1, s.len() as int)));
        assert(tokens_of(tu) == seq![t[j]] + tokens_of(t.subrange(j + 1, t.len() as int)));
        assert(s[i] == t[j]) by {
            assert((seq![s[i]] + tokens_of(s.subrange(i + 1, s.len() as int)))[0] == s[i]);
            assert((seq![t[j]] + tokens_of(t.subrange(j + 1, t.len() as int)))[0] == t[j]);
        }
        assert(tokens_of(s.subrange(i + 1, s.len() as int)) == tokens_of(
            t.subrange(j + 1, t.len() as int),
        )) by {
            assert((seq![s[i]] + tokens_of(s.subrange(i + 1, s.len() as int))).subrange(
                1,
                tokens_of(su).len() as int,
            ) =~= tokens_of(s.subrange(i + 1, s.len() as int)));
            assert((seq![t[j]] + tokens_of(t.subrange(j + 1, t.len() as int))).subrange(
                1,
                tokens_of(tu).len() as int,
            ) =~= tokens_of(t.subrange(j + 1, t.len() as int)));
        }
        let b = s[i];
        if b == TOKEN_OPEN {
            let nst1 = st1.push((cur1, i));
            let nst2 = st2.push((cur2, j));
            assert(stacks_aligned(nst1, nst2)) by {
                assert forall|k: int|
                    0 <= k < nst1.len() implies erase_seq((#[trigger] nst1[k]).0) == erase_seq(
                    nst2[k].0,
                ) by {
                    if k < st1.len() {
                        assert(nst1[k] == st1[k]);
                        assert(nst2[k] == st2[k]);
                    }
                }
            }
            lemma_parse_aligned(s, i + 1, t, j + 1, Seq::empty(), nst1, Seq::empty(), nst2);
        } else if b == TOKEN_CLOSE {
            if st1.len() == 0 {
            } else {
                let pr1 = st1.last();
                let pr2 = st2.last();
                let lp1 = InstrModel::Loop {
                    body: cur1,
                    position: Position { start: pr1.1 as usize, end: i as usize },
                };
                let lp2 = InstrModel::Loop {
                    body: cur2,
                    position: Position { start: pr2.1 as usize, end: j as usize },
                };
                assert(erase_seq(pr1.0) == erase_seq(pr2.0));
                assert(erase_instr(lp1) == erase_instr(lp2));
                lemma_erase_seq_push(pr1.0, lp1);
                lemma_erase_seq_push(pr2.0, lp2);
                assert(stacks_aligned(st1.drop_last(), st2.drop_last())) by {
                    assert forall|k: int|
                        0 <= k < st1.drop_last().len() implies erase_seq(
                        (#[trigger] st1.drop_last()[k]).0,
                    ) == erase_seq(st2.drop_last()[k].0) by {
                        assert(st1.drop_last()[k] == st1[k]);
                        assert(st2.drop_last()[k] == st2[k]);
                    }
                }
                lemma_parse_aligned(
                    s,
                    i + 1,
                    t,
                    j + 1,
                    pr1.0.push(lp1),
                    st1.drop_last(),
                    pr2.0.push(lp2),
                    st2.drop_last(),
                );
            }
        } else {
            let x1 = token_of(b, i).unwrap();
            let x2 = token_of(b, j).unwrap();
            assert(erase_instr(x1) == erase_instr(x2));
            lemma_erase_seq_push(cur1, x1);
            lemma_erase_seq_push(cur2, x2);
            lemma_parse_aligned(s, i + 1, t, j + 1, cur1.push(x1), st1, cur2.push(x2), st2);
        }
    }
}

/// Every non-token byte is ignored: two byte streams that carry the same
/// token bytes parse to the same instructions up to positions, and fail
/// with the same kind of unmatched bracket.
pub proof fn lemma_comments_ignored(s: Seq<u8>, t: Seq<u8>)
    requires
        tokens_of(s) == tokens_of(t),
    ensures
        match (parse_spec(s), parse_spec(t)) {
            (ParseOutcome::Parsed(a), ParseOutcome::Parsed(b)) => erase_seq(a) == erase_seq(b),
            (ParseOutcome::UnmatchedOpen { .. }, ParseOutcome::UnmatchedOpen { .. }) => true,
            (ParseOutcome::UnmatchedClose { .. }, ParseOutcome::UnmatchedClose { .. }) => true,
            _ => false,
        },
{
    assert(s.subrange(0, s.len() as int) =~= s);
    assert(t.subrange(0, t.len() as int) =~= t);
    assert(erase_seq(Seq::<InstrModel>::empty()) =~= erase_seq(Seq::<InstrModel>::empty()));
    lemma_parse_aligned(
        s,
        0,
        t,
        0,
        Seq::empty(),
        Seq::empty(),
        Seq::empty(),
        Seq::empty(),
    );
}

} // verus!

