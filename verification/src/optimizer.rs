use vstd::prelude::*;

pub mod passes;

use crate::error::BrainfuckError;
use crate::parser::{Instruction, InstrModel, view_seq};
use crate::optimizer::passes::{collapse_seq, clear_loops_seq, mul_loops_seq, dead_code_seq,
    collapse_increments, clear_loops, mul_loops, remove_dead_code_inner, CollapseIncrements,
    ClearLoops, MulLoops, DeadCode, lemma_dead_code_preserves_halting,
    lemma_collapse_preserves_halting, lemma_mul_loops_preserves_halting};
use crate::interpreter::{MachineState, Outcome, run_seq_model};
use vstd::string::StrSliceExecFns;

verus! {

/// The four registered optimization passes.
#[derive(Debug, Clone, Copy, PartialEq, Eq, Structural)]
pub enum PassKind {
    CollapseIncrements,
    ClearLoops,
    MulLoops,
    DeadCode,
}

/// What each registered pass computes.
pub open spec fn pass_result(kind: PassKind, s: Seq<InstrModel>) -> Seq<InstrModel> {
    match kind {
        PassKind::CollapseIncrements => collapse_seq(s),
        PassKind::ClearLoops => clear_loops_seq(s),
        PassKind::MulLoops => mul_loops_seq(s),
        PassKind::DeadCode => dead_code_seq(s, true),
    }
}

/// The name each pass is registered under. Lookup is case-sensitive.
pub open spec fn pass_name(kind: PassKind) -> Seq<char> {
    match kind {
        PassKind::CollapseIncrements => "collapse-increments"@,
        PassKind::ClearLoops => "clear-loops"@,
        PassKind::MulLoops => "mul-loops"@,
        PassKind::DeadCode => "dead-code"@,
    }
}

/// The pass registered under the given name, if any.
pub open spec fn kind_of_name(name: Seq<char>) -> Option<PassKind> {
    if name == "clear-loops"@ {
        Some(PassKind::ClearLoops)
    } else if name == "mul-loops"@ {
        Some(PassKind::MulLoops)
    } else if name == "collapse-increments"@ {
        Some(PassKind::CollapseIncrements)
    } else if name == "dead-code"@ {
        Some(PassKind::DeadCode)
    } else {
        None
    }
}

/// The default pass list, in order. clear-loops is not included because
/// mul-loops subsumes it: the body `[-]` becomes a `Mul`-free `Clear`.
pub open spec fn default_pass_kinds() -> Seq<PassKind> {
    seq![PassKind::DeadCode, PassKind::CollapseIncrements, PassKind::MulLoops]
}

/// An optimization pass.
pub trait Pass {
    /// Which registered pass this is.
    spec fn kind(&self) -> PassKind;

    /// Name of the pass.
    fn name(&self) -> (r: &'static str)
        ensures
            r@ == pass_name(self.kind()),
    ;

    /// Executes the pass on the given set of instructions.
    /// Returns the new set of optimized instructions.
    fn run(&self, instructions: Vec<Instruction>) -> (r: Vec<Instruction>)
        ensures
            view_seq(r@) == pass_result(self.kind(), view_seq(instructions@)),
    ;
}

impl Pass for CollapseIncrements {
    open spec fn kind(&self) -> PassKind {
        PassKind::CollapseIncrements
    }

    fn name(&self) -> (r: &'static str) {
        "collapse-increments"
    }

    fn run(&self, instructions: Vec<Instruction>) -> (r: Vec<Instruction>) {
        collapse_increments(instructions)
    }
}

impl Pass for ClearLoops {
    open spec fn kind(&self) -> PassKind {
        PassKind::ClearLoops
    }

    fn name(&self) -> (r: &'static str) {
        "clear-loops"
    }

    fn run(&self, instructions: Vec<Instruction>) -> (r: Vec<Instruction>) {
        clear_loops(instructions)
    }
}

impl Pass for MulLoops {
    open spec fn kind(&self) -> PassKind {
        PassKind::MulLoops
    }

    fn name(&self) -> (r: &'static str) {
        "mul-loops"
    }

    fn run(&self, instructions: Vec<Instruction>) -> (r: Vec<Instruction>) {
        mul_loops(instructions)
    }
}

impl Pass for DeadCode {
    open spec fn kind(&self) -> PassKind {
        PassKind::DeadCode
    }

    fn name(&self) -> (r: &'static str) {
        "dead-code"
    }

    fn run(&self, instructions: Vec<Instruction>) -> (r: Vec<Instruction>) {
        remove_dead_code_inner(instructions, true)
    }
}

/// Runs one registered pass on the given instructions.
pub fn apply_pass(kind: PassKind, instructions: Vec<Instruction>) -> (r: Vec<Instruction>)
    ensures
        view_seq(r@) == pass_result(kind, view_seq(instructions@)),
{
    match kind {
        PassKind::CollapseIncrements => collapse_increments(instructions),
        PassKind::ClearLoops => clear_loops(instructions),
        PassKind::MulLoops => mul_loops(instructions),
        PassKind::DeadCode => remove_dead_code_inner(instructions, true),
    }
}

/// Running a list of passes once, in order.
pub open spec fn passes_result(kinds: Seq<PassKind>, s: Seq<InstrModel>) -> Seq<InstrModel>
    decreases kinds.len(),
{
    if kinds.len() == 0 {
        s
    } else {
        passes_result(kinds.subrange(1, kinds.len() as int), pass_result(kinds[0], s))
    }
}

/// Running a list of passes `n` times over.
pub open spec fn rounds_result(kinds: Seq<PassKind>, s: Seq<InstrModel>, n: nat) -> Seq<
    InstrModel,
>
    decreases n,
{
    if n == 0 {
        s
    } else {
        rounds_result(kinds, passes_result(kinds, s), (n - 1) as nat)
    }
}

/// How many times `Optimizer::run` repeats its pass list to approximate a
/// fixed point.
pub const OPTIMIZER_ROUNDS: usize = 10;

/// The default pass list as a vector.
pub fn default_optimization_passes() -> (r: Vec<PassKind>)
    ensures
        r@ == default_pass_kinds(),
{
    let mut v: Vec<PassKind> = Vec::new();
    v.push(PassKind::DeadCode);
    v.push(PassKind::CollapseIncrements);
    v.push(PassKind::MulLoops);
    proof {
        assert(v@ =~= default_pass_kinds());
    }
    v
}

/// The registered pass names, one per registered pass.
pub fn all_optimization_names() -> (r: Vec<&'static str>)
    ensures
        r@.len() == 4,
        r@[0]@ == pass_name(PassKind::ClearLoops),
        r@[1]@ == pass_name(PassKind::MulLoops),
        r@[2]@ == pass_name(PassKind::CollapseIncrements),
        r@[3]@ == pass_name(PassKind::DeadCode),
{
    let mut v: Vec<&'static str> = Vec::new();
    v.push("clear-loops");
    v.push("mul-loops");
    v.push("collapse-increments");
    v.push("dead-code");
    v
}

/// Compares two strings character by character.
fn str_eq(a: &str, b: &str) -> (r: bool)
    ensures
        r == (a@ == b@),
{
    let alen = a.unicode_len();
    let blen = b.unicode_len();
    if alen != blen {
        return false;
    }
    let mut i: usize = 0;
    while i < alen
        invariant
            i <= alen,
            alen as nat == a@.len(),
            blen as nat == b@.len(),
            alen == blen,
            forall|m: int| 0 <= m < i ==> a@[m] == b@[m],
        decreases alen - i,
    {
        if a.get_char(i) != b.get_char(i) {
            return false;
        }
        i = i + 1;
    }
    proof {
        assert(a@ =~= b@);
    }
    true
}

/// The pass registered under the given name.
fn lookup_pass(name: &str) -> (r: Option<PassKind>)
    ensures
        r == kind_of_name(name@),
{
    if str_eq(name, "clear-loops") {
        Some(PassKind::ClearLoops)
    } else if str_eq(name, "mul-loops") {
        Some(PassKind::MulLoops)
    } else if str_eq(name, "collapse-increments") {
        Some(PassKind::CollapseIncrements)
    } else if str_eq(name, "dead-code") {
        Some(PassKind::DeadCode)
    } else {
        None
    }
}

/// The position of the first comma, or the length when there is none.
pub open spec fn comma_index(s: Seq<char>) -> int
    decreases s.len(),
{
    if s.len() == 0 {
        0
    } else if s[0] == ',' {
        0
    } else {
        1 + comma_index(s.subrange(1, s.len() as int))
    }
}

pub proof fn lemma_comma_index(s: Seq<char>)
    ensures
        0 <= comma_index(s) <= s.len(),
        comma_index(s) < s.len() ==> s[comma_index(s)] == ',',
        forall|m: int| 0 <= m < comma_index(s) ==> s[m] != ',',
    decreases s.len(),
{
    if s.len() > 0 && s[0] != ',' {
        let rest = s.subrange(1, s.len() as int);
        lemma_comma_index(rest);
        assert forall|m: int| 0 <= m < comma_index(s) implies s[m] != ',' by {
            if m > 0 {
                assert(rest[m - 1] != ',');
                assert(s[m] == rest[m - 1]);
            }
        }
    }
}

/// Splitting a comma-separated list of pass names: the passes in order,
/// or the first name that is not registered.
pub open spec fn parse_pass_list(s: Seq<char>) -> Result<Seq<PassKind>, Seq<char>>
    decreases s.len(),
{
    let c = comma_index(s);
    let seg = s.subrange(0, c);
    proof {
        lemma_comma_index(s);
    }
    match kind_of_name(seg) {
        None => Err(seg),
        Some(kind) => {
            if c == s.len() {
                Ok(seq![kind])
            } else {
                match parse_pass_list(s.subrange(c + 1, s.len() as int)) {
                    Ok(tail) => Ok(seq![kind] + tail),
                    Err(e) => Err(e),
                }
            }
        },
    }
}

/// What a pass selector names: `"none"` is the empty list, `"all"` the
/// default list, and anything else a comma-separated list of registered
/// pass names.
pub open spec fn passes_of_str(s: Seq<char>) -> Result<Seq<PassKind>, Seq<char>> {
    if s == "none"@ {
        Ok(Seq::empty())
    } else if s == "all"@ {
        Ok(default_pass_kinds())
    } else {
        parse_pass_list(s)
    }
}

/// Brainfuck IR optimizer: an ordered list of passes.
pub struct Optimizer {
    pub passes: Vec<PassKind>,
}

impl Optimizer {
    /// Constructs a new optimizer with the given list of passes.
    pub fn with_passes(passes: Vec<PassKind>) -> (r: Optimizer)
        ensures
            r.passes@ == passes@,
    {
        Optimizer { passes }
    }

    /// Constructs a new optimizer from a pass selector: `"none"`, `"all"`
    /// or a comma-separated list of registered pass names. An
    /// unregistered name is reported in the error.
    #[verifier::loop_isolation(false)]
    pub fn with_passes_str(s: &str) -> (r: Result<Optimizer, BrainfuckError>)
        ensures
            match passes_of_str(s@) {
                Ok(kinds) => r matches Ok(o) && o.passes@ == kinds,
                Err(name) => r matches Err(e) && e matches BrainfuckError::UnknownOptimizationPass(
                    m,
                ) && m@ == name,
            },
    {
        if str_eq(s, "none") {
            return Ok(Optimizer { passes: Vec::new() });
        }
        if str_eq(s, "all") {
            return Ok(Optimizer { passes: default_optimization_passes() });
        }

        let total = s.unicode_len();
        let mut passes: Vec<PassKind> = Vec::new();
        let mut start: usize = 0;
        proof {
            assert(s@.subrange(0, total as int) =~= s@);
        }
        loop
            invariant
                start <= total,
                total as nat == s@.len(),
                match parse_pass_list(s@.subrange(start as int, total as int)) {
                    Ok(tail) => parse_pass_list(s@) == Ok::<Seq<PassKind>, Seq<char>>(
                        passes@ + tail,
                    ),
                    Err(e) => parse_pass_list(s@) == Err::<Seq<PassKind>, Seq<char>>(e),
                },
            decreases total - start,
        {
            let ghost sub = s@.subrange(start as int, total as int);

            // Find the end of the current segment.
            let mut j: usize = start;
            while j < total && s.get_char(j) != ','
                invariant
                    start <= j <= total,
                    forall|m: int| start <= m < j ==> s@[m] != ',',
                decreases total - j,
            {
                j = j + 1;
            }
            proof {
                lemma_comma_index(sub);
                assert forall|m: int| 0 <= m < j - start implies sub[m] != ',' by {
                    assert(sub[m] == s@[start + m]);
                }
                if comma_index(sub) < j - start {
                    assert(sub[comma_index(sub)] != ',');
                    assert(false);
                }
                if comma_index(sub) > j - start {
                    assert(j < total);
                    assert(sub[j - start] == s@[j as int]);
                    assert(false);
                }
                assert(comma_index(sub) == j - start);
                assert(sub.subrange(0, j - start) =~= s@.subrange(start as int, j as int));
            }
            let seg = s.substring_char(start, j);
            match lookup_pass(seg) {
                None => {
                    return Err(BrainfuckError::UnknownOptimizationPass(seg.to_owned()));
                },
                Some(kind) => {
                    let ghost passes_prev = passes@;
                    passes.push(kind);
                    if j == total {
                        proof {
                            assert(parse_pass_list(sub) == Ok::<Seq<PassKind>, Seq<char>>(seq![
                                kind,
                            ]));
                            assert(passes_prev + seq![kind] =~= passes@);
                        }
                        return Ok(Optimizer { passes });
                    }
                    proof {
                        assert(sub.subrange(j - start + 1, sub.len() as int) =~= s@.subrange(
                            j as int + 1,
                            total as int,
                        ));
                        match parse_pass_list(s@.subrange(j as int + 1, total as int)) {
                            Ok(tail) => {
                                assert(parse_pass_list(sub) == Ok::<Seq<PassKind>, Seq<char>>(
                                    seq![kind] + tail,
                                ));
                                assert(passes_prev + (seq![kind] + tail) =~= passes@ + tail);
                            },
                            Err(_) => {},
                        }
                    }
                    start = j + 1;
                },
            }
        }
    }

    /// Returns the passes configured for this optimizer, in order.
    pub fn passes(&self) -> (r: &Vec<PassKind>)
        ensures
            r@ == self.passes@,
    {
        &self.passes
    }

    /// Runs the whole pass list ten times over on the given instructions,
    /// approximating a fixed point of the rewrites.
    #[verifier::loop_isolation(false)]
    pub fn run(&self, instructions: Vec<Instruction>) -> (r: Vec<Instruction>)
        ensures
            view_seq(r@) == rounds_result(
                self.passes@,
                view_seq(instructions@),
                OPTIMIZER_ROUNDS as nat,
            ),
    {
        let ghost orig = view_seq(instructions@);
        let mut accum = instructions;
        let mut round: usize = 0;
        while round < OPTIMIZER_ROUNDS
            invariant
                round <= OPTIMIZER_ROUNDS,
                rounds_result(self.passes@, orig, OPTIMIZER_ROUNDS as nat) == rounds_result(
                    self.passes@,
                    view_seq(accum@),
                    (OPTIMIZER_ROUNDS - round) as nat,
                ),
            decreases OPTIMIZER_ROUNDS - round,
        {
            let ghost round_start = view_seq(accum@);
            let mut pi: usize = 0;
            proof {
                assert(self.passes@.subrange(0, self.passes@.len() as int) =~= self.passes@);
            }
            while pi < self.passes.len()
                invariant
                    pi <= self.passes@.len(),
                    passes_result(self.passes@, round_start) == passes_result(
                        self.passes@.subrange(pi as int, self.passes@.len() as int),
                        view_seq(accum@),
                    ),
                decreases self.passes@.len() - pi,
            {
                let ghost kinds_rest = self.passes@.subrange(pi as int, self.passes@.len() as int);
                proof {
                    assert(kinds_rest[0] == self.passes@[pi as int]);
                    assert(kinds_rest.subrange(1, kinds_rest.len() as int) =~= self.passes@
                        .subrange(pi as int + 1, self.passes@.len() as int));
                }
                let kind = self.passes[pi];
                accum = apply_pass(kind, accum);
                pi = pi + 1;
            }
            proof {
                assert(self.passes@.subrange(
                    self.passes@.len() as int,
                    self.passes@.len() as int,
                ) =~= Seq::<PassKind>::empty());
                assert(passes_result(Seq::<PassKind>::empty(), view_seq(accum@)) == view_seq(
                    accum@,
                ));
            }
            round = round + 1;
        }
        accum
    }
}


/// A fixed point of one application of the pass list stays fixed however
/// often the list is repeated.
proof fn lemma_rounds_fixed(kinds: Seq<PassKind>, x: Seq<InstrModel>, n: nat)
    requires
        passes_result(kinds, x) == x,
    ensures
        rounds_result(kinds, x, n) == x,
    decreases n,
{
    if n > 0 {
        lemma_rounds_fixed(kinds, x, (n - 1) as nat);
    }
}

/// Idempotence of the optimizer: whenever its rounds reach a fixed point
/// of the pass list, running the optimizer again on its own output yields
/// that same output. (A program can be crafted whose rewrites have not
/// converged after the fixed number of rounds; on such a program a second
/// run may still change the sequence, which is why the fixed point is
/// required here.)
pub proof fn lemma_optimizer_idempotent(kinds: Seq<PassKind>, s: Seq<InstrModel>)
    requires
        passes_result(kinds, rounds_result(kinds, s, OPTIMIZER_ROUNDS as nat)) == rounds_result(
            kinds,
            s,
            OPTIMIZER_ROUNDS as nat,
        ),
    ensures
        rounds_result(
            kinds,
            rounds_result(kinds, s, OPTIMIZER_ROUNDS as nat),
            OPTIMIZER_ROUNDS as nat,
        ) == rounds_result(kinds, s, OPTIMIZER_ROUNDS as nat),
{
    lemma_rounds_fixed(kinds, rounds_result(kinds, s, OPTIMIZER_ROUNDS as nat), OPTIMIZER_ROUNDS as nat);
}


/// One round of the default pass list preserves a halting execution.
proof fn lemma_default_list_preserves_halting(
    st: MachineState,
    s: Seq<InstrModel>,
    fuel: nat,
    r: MachineState,
)
    requires
        0 <= st.pos < st.tape.len(),
        st.tape[st.pos] == 0,
        run_seq_model(st, s, fuel) == Outcome::Halted(r),
    ensures
        run_seq_model(st, passes_result(default_pass_kinds(), s), fuel) == Outcome::Halted(r),
{
    let kinds = default_pass_kinds();
    lemma_dead_code_preserves_halting(st, s, true, fuel, r);
    let s1 = dead_code_seq(s, true);
    lemma_collapse_preserves_halting(st, s1, fuel, r);
    let s2 = collapse_seq(s1);
    lemma_mul_loops_preserves_halting(st, s2, fuel, r);
    let k1 = kinds.subrange(1, 3);
    let k2 = k1.subrange(1, 2);
    let k3 = k2.subrange(1, 1);
    assert(kinds.len() == 3 && kinds[0] == PassKind::DeadCode && kinds[1]
        == PassKind::CollapseIncrements && kinds[2] == PassKind::MulLoops);
    assert(k1[0] == kinds[1] && k1.len() == 2);
    assert(k2[0] == kinds[2] && k2.len() == 1);
    assert(k3 =~= Seq::<PassKind>::empty());
    assert(passes_result(kinds, s) == passes_result(k1, s1));
    assert(passes_result(k1, s1) == passes_result(k2, s2));
    assert(passes_result(k2, s2) == passes_result(k3, mul_loops_seq(s2)));
    assert(passes_result(k3, mul_loops_seq(s2)) == mul_loops_seq(s2));
}

/// The optimizer's soundness on runs that complete: a program and its
/// fully optimized form, started from the same state with the data
/// pointer on a zero cell (as on a fresh tape), halt in exactly the same
/// machine state under the same step budget — same tape, same pointer,
/// same consumed input and same emitted output.
pub proof fn lemma_default_passes_preserve_halting(
    st: MachineState,
    s: Seq<InstrModel>,
    n: nat,
    fuel: nat,
    r: MachineState,
)
    requires
        0 <= st.pos < st.tape.len(),
        st.tape[st.pos] == 0,
        run_seq_model(st, s, fuel) == Outcome::Halted(r),
    ensures
        run_seq_model(st, rounds_result(default_pass_kinds(), s, n), fuel) == Outcome::Halted(r),
    decreases n,
{
    if n > 0 {
        lemma_default_list_preserves_halting(st, s, fuel, r);
        lemma_default_passes_preserve_halting(
            st,
            passes_result(default_pass_kinds(), s),
            (n - 1) as nat,
            fuel,
            r,
        );
    }
}

} // verus!
