use vstd::prelude::*;
use crate::parser::{Instruction, InstrModel, Position, view_seq, view_instr, instr_size, seq_size,
    byte_add, byte_mul, in_isize};
use crate::interpreter::{MachineState, Outcome, run_instr_model, run_seq_model,
    lemma_run_seq_concat, lemma_instr_preserves_bounds, lemma_seq_preserves_bounds,
    lemma_fused_adds_match, lemma_fused_moves_match, lemma_fused_clears_match,
    lemma_null_increment_noop, lemma_loop_like_on_zero_cell_is_noop,
    lemma_clearing_instruction_leaves_zero};

verus! {

broadcast use vstd::seq::axiom_seq_index_decreases, vstd::seq::axiom_seq_subrange_decreases, vstd::std_specs::vec::axiom_vec_decreases_to_view;

/// Whether two adjacent instructions fuse into one: two `Add`s, two
/// `Move`s whose combined offset still fits, or two `Clear`s.
pub open spec fn can_fuse(a: InstrModel, b: InstrModel) -> bool {
    ||| (a is Add && b is Add)
    ||| (a matches InstrModel::Move { offset: x, .. } && b matches InstrModel::Move {
        offset: y,
        ..
    } && in_isize(x + y))
    ||| (a is Clear && b is Clear)
}

/// The single instruction two fusable instructions fuse into; positions
/// merge.
pub open spec fn fuse(a: InstrModel, b: InstrModel) -> InstrModel {
    match (a, b) {
        (
            InstrModel::Add { amount: x, position: pa },
            InstrModel::Add { amount: y, position: pb },
        ) => InstrModel::Add { amount: byte_add(x, y), position: pa.merge_spec(pb) },
        (
            InstrModel::Move { offset: x, position: pa },
            InstrModel::Move { offset: y, position: pb },
        ) => InstrModel::Move { offset: (x + y) as isize, position: pa.merge_spec(pb) },
        (InstrModel::Clear { position: pa }, InstrModel::Clear { position: pb }) => InstrModel::Clear {
            position: pa.merge_spec(pb),
        },
        _ => a,
    }
}

/// The collapse-increments pass on a sequence: fuse adjacent fusable
/// instructions greedily from the left, then rewrite the bodies of the
/// loops that remain.
pub open spec fn collapse_seq(s: Seq<InstrModel>) -> Seq<InstrModel>
    decreases seq_size(s), 2nat,
{
    if s.len() == 0 {
        Seq::empty()
    } else {
        collapse_go(s[0], s.subrange(1, s.len() as int))
    }
}

/// The greedy left-to-right fusion walk: `pending` is the instruction
/// still open for fusion with what follows.
pub open spec fn collapse_go(pending: InstrModel, rest: Seq<InstrModel>) -> Seq<InstrModel>
    decreases instr_size(pending) + seq_size(rest), 1nat,
{
    if rest.len() == 0 {
        seq![collapse_into(pending)]
    } else {
        proof {
            assert(instr_size(rest[0]) >= 1);
        }
        if can_fuse(pending, rest[0]) {
            collapse_go(fuse(pending, rest[0]), rest.subrange(1, rest.len() as int))
        } else {
            seq![collapse_into(pending)] + collapse_go(rest[0], rest.subrange(1, rest.len() as int))
        }
    }
}

/// Rewriting one finished instruction: loop bodies are collapsed in turn.
pub open spec fn collapse_into(i: InstrModel) -> InstrModel
    decreases instr_size(i), 0nat,
{
    match i {
        InstrModel::Loop { body, position } => InstrModel::Loop {
            body: collapse_seq(body),
            position,
        },
        _ => i,
    }
}

/// The size of a concatenation is the sum of the sizes.
pub proof fn lemma_seq_size_concat(a: Seq<InstrModel>, b: Seq<InstrModel>)
    ensures
        seq_size(a + b) == seq_size(a) + seq_size(b),
    decreases a.len(),
{
    if a.len() == 0 {
        assert(a + b =~= b);
    } else {
        assert((a + b)[0] == a[0]);
        assert((a + b).subrange(1, (a + b).len() as int) =~= a.subrange(1, a.len() as int) + b);
        lemma_seq_size_concat(a.subrange(1, a.len() as int), b);
    }
}

/// collapse-increments never increases the instruction count, neither
/// the number of elements nor the total count inside loop bodies.
pub proof fn lemma_collapse_increments_count(s: Seq<InstrModel>)
    ensures
        seq_size(collapse_seq(s)) <= seq_size(s),
        collapse_seq(s).len() <= s.len(),
    decreases seq_size(s), 2nat,
{
    if s.len() > 0 {
        lemma_collapse_go_count(s[0], s.subrange(1, s.len() as int));
    }
}

proof fn lemma_collapse_go_count(pending: InstrModel, rest: Seq<InstrModel>)
    ensures
        seq_size(collapse_go(pending, rest)) <= instr_size(pending) + seq_size(rest),
        collapse_go(pending, rest).len() <= 1 + rest.len(),
    decreases instr_size(pending) + seq_size(rest), 1nat,
{
    if rest.len() == 0 {
        lemma_collapse_into_count(pending);
        assert(seq_size(seq![collapse_into(pending)]) == instr_size(collapse_into(pending))
            + seq_size(Seq::<InstrModel>::empty())) by {
            assert(seq![collapse_into(pending)].subrange(1, 1) =~= Seq::<InstrModel>::empty());
        }
    } else {
        assert(instr_size(rest[0]) >= 1);
        let rest1 = rest.subrange(1, rest.len() as int);
        if can_fuse(pending, rest[0]) {
            lemma_collapse_go_count(fuse(pending, rest[0]), rest1);
        } else {
            lemma_collapse_into_count(pending);
            lemma_collapse_go_count(rest[0], rest1);
            lemma_seq_size_concat(seq![collapse_into(pending)], collapse_go(rest[0], rest1));
            assert(seq_size(seq![collapse_into(pending)]) == instr_size(collapse_into(pending))
                + seq_size(Seq::<InstrModel>::empty())) by {
                assert(seq![collapse_into(pending)].subrange(1, 1) =~= Seq::<InstrModel>::empty());
            }
        }
    }
}

proof fn lemma_collapse_into_count(i: InstrModel)
    ensures
        instr_size(collapse_into(i)) <= instr_size(i),
    decreases instr_size(i), 0nat,
{
    match i {
        InstrModel::Loop { body, .. } => {
            lemma_collapse_increments_count(body);
        },
        _ => {},
    }
}

/// Fuses adjacent instructions that commute into stronger single
/// instructions, recursing into loop bodies.
#[derive(Debug, Clone, Copy, PartialEq, Eq, Structural)]
pub struct CollapseIncrements;

/// One fusion step of collapse-increments in executable form: `Some`
/// exactly when the two instructions fuse.
fn try_fuse(a: &Instruction, b: &Instruction) -> (r: Option<Instruction>)
    ensures
        match r {
            Some(f) => can_fuse(view_instr(*a), view_instr(*b)) && view_instr(f) == fuse(
                view_instr(*a),
                view_instr(*b),
            ),
            None => !can_fuse(view_instr(*a), view_instr(*b)),
        },
{
    match (a, b) {
        (
            Instruction::Add { amount: x, position: pa },
            Instruction::Add { amount: y, position: pb },
        ) => Some(Instruction::Add { amount: x.wrapping_add(*y), position: pa.merge(*pb) }),
        (
            Instruction::Move { offset: x, position: pa },
            Instruction::Move { offset: y, position: pb },
        ) => {
            match x.checked_add(*y) {
                Some(sum) => Some(Instruction::Move { offset: sum, position: pa.merge(*pb) }),
                None => None,
            }
        },
        (Instruction::Clear { position: pa }, Instruction::Clear { position: pb }) => Some(
            Instruction::Clear { position: pa.merge(*pb) },
        ),
        _ => None,
    }
}

/// The collapse-increments pass on an instruction vector.
#[verifier::loop_isolation(false)]
pub fn collapse_increments(instructions: Vec<Instruction>) -> (r: Vec<Instruction>)
    ensures
        view_seq(r@) == collapse_seq(view_seq(instructions@)),
    decreases seq_size(view_seq(instructions@)), 1nat,
{
    let ghost orig = view_seq(instructions@);
    let mut input = instructions;
    let mut out: Vec<Instruction> = Vec::new();

    if input.len() == 0 {
        proof {
            assert(view_seq(out@) =~= collapse_seq(orig));
        }
        return out;
    }
    let mut pending = input.remove(0);
    proof {
        assert(view_seq(input@) =~= orig.subrange(1, orig.len() as int));
        assert(view_seq(out@) =~= Seq::<InstrModel>::empty());
        assert(Seq::<InstrModel>::empty() + collapse_go(view_instr(pending), view_seq(input@))
            =~= collapse_go(view_instr(pending), view_seq(input@)));
    }

    while input.len() > 0
        invariant
            instr_size(view_instr(pending)) + seq_size(view_seq(input@)) <= seq_size(orig),
            collapse_seq(orig) == view_seq(out@) + collapse_go(
                view_instr(pending),
                view_seq(input@),
            ),
        decreases instr_size(view_instr(pending)) + seq_size(view_seq(input@)),
    {
        let ghost rest = view_seq(input@);
        let next = input.remove(0);
        proof {
            assert(view_instr(next) == rest[0]);
            assert(view_seq(input@) =~= rest.subrange(1, rest.len() as int));
            assert(instr_size(rest[0]) >= 1);
        }
        match try_fuse(&pending, &next) {
            Some(fused) => {
                pending = fused;
            },
            None => {
                let ghost p = view_instr(pending);
                let finished = collapse_finish(pending);
                let ghost out_prev = out@;
                out.push(finished);
                proof {
                    assert(view_seq(out@) =~= view_seq(out_prev).push(collapse_into(p)));
                    assert(view_seq(out_prev).push(collapse_into(p)) + collapse_go(
                        view_instr(next),
                        view_seq(input@),
                    ) =~= view_seq(out_prev) + (seq![collapse_into(p)] + collapse_go(
                        view_instr(next),
                        view_seq(input@),
                    )));
                }
                pending = next;
            },
        }
    }
    proof {
        assert(view_seq(input@).len() == 0);
        assert(view_seq(input@) =~= Seq::<InstrModel>::empty());
    }
    let ghost p = view_instr(pending);
    let finished = collapse_finish(pending);
    let ghost out_prev = out@;
    out.push(finished);
    proof {
        assert(view_seq(out@) =~= view_seq(out_prev).push(collapse_into(p)));
        assert(view_seq(out_prev).push(collapse_into(p)) =~= view_seq(out_prev) + seq![
            collapse_into(p),
        ]);
    }
    out
}

/// Closes one instruction out of the fusion walk, collapsing its body if
/// it is a loop.
fn collapse_finish(i: Instruction) -> (r: Instruction)
    ensures
        view_instr(r) == collapse_into(view_instr(i)),
    decreases instr_size(view_instr(i)), 0nat,
{
    let ghost im = view_instr(i);
    match i {
        Instruction::Loop { body, position } => {
            proof {
                assert(im == (InstrModel::Loop { body: view_seq(body@), position }));
            }
            Instruction::Loop { body: collapse_increments(body), position }
        },
        other => other,
    }
}


/// The body shape `[-]`: a single decrement, which as a loop clears the
/// current cell.
pub open spec fn is_clear_idiom(body: Seq<InstrModel>) -> bool {
    body.len() == 1 && body[0] matches InstrModel::Add { amount: 255u8, .. }
}

/// The clear-loops pass: replace each `[-]` loop with `Clear`, recursing
/// into the bodies of the other loops.
pub open spec fn clear_loops_seq(s: Seq<InstrModel>) -> Seq<InstrModel>
    decreases s,
{
    if s.len() == 0 {
        Seq::empty()
    } else {
        let head = match s[0] {
            InstrModel::Loop { body, position } => {
                if is_clear_idiom(body) {
                    InstrModel::Clear { position }
                } else {
                    InstrModel::Loop { body: clear_loops_seq(body), position }
                }
            },
            other => other,
        };
        seq![head] + clear_loops_seq(s.subrange(1, s.len() as int))
    }
}

/// Recognizes the idiom `[-]` and replaces it with `Clear`. Recurses into
/// loop bodies.
#[derive(Debug, Clone, Copy, PartialEq, Eq, Structural)]
pub struct ClearLoops;

/// The clear-loops pass on an instruction vector.
#[verifier::loop_isolation(false)]
pub fn clear_loops(instructions: Vec<Instruction>) -> (r: Vec<Instruction>)
    ensures
        view_seq(r@) == clear_loops_seq(view_seq(instructions@)),
    decreases seq_size(view_seq(instructions@)),
{
    let ghost orig = view_seq(instructions@);
    let mut input = instructions;
    let mut out: Vec<Instruction> = Vec::new();

    proof {
        assert(view_seq(out@) =~= Seq::<InstrModel>::empty());
        assert(view_seq(out@) + clear_loops_seq(view_seq(input@)) =~= clear_loops_seq(
            view_seq(input@),
        ));
    }

    while input.len() > 0
        invariant
            seq_size(view_seq(input@)) <= seq_size(orig),
            clear_loops_seq(orig) == view_seq(out@) + clear_loops_seq(view_seq(input@)),
        decreases seq_size(view_seq(input@)),
    {
        let ghost rest = view_seq(input@);
        let next = input.remove(0);
        proof {
            assert(view_instr(next) == rest[0]);
            assert(view_seq(input@) =~= rest.subrange(1, rest.len() as int));
            assert(instr_size(rest[0]) >= 1);
        }
        let ghost out_prev = out@;
        match next {
            Instruction::Loop { body, position } => {
                let ghost body_model = view_seq(body@);
                let mut idiom = false;
                if body.len() == 1 {
                    match &body[0] {
                        Instruction::Add { amount: 255u8, .. } => {
                            idiom = true;
                        },
                        _ => {},
                    }
                }
                proof {
                    assert(idiom == is_clear_idiom(body_model));
                }
                if idiom {
                    out.push(Instruction::Clear { position });
                } else {
                    proof {
                        assert(seq_size(body_model) < instr_size(rest[0]));
                    }
                    let new_body = clear_loops(body);
                    out.push(Instruction::Loop { body: new_body, position });
                }
            },
            other => {
                out.push(other);
            },
        }
        proof {
            assert(view_seq(out@) =~= view_seq(out_prev).push(view_seq(out@).last()));
            assert(view_seq(out_prev).push(view_seq(out@).last()) + clear_loops_seq(
                view_seq(input@),
            ) =~= view_seq(out_prev) + (seq![view_seq(out@).last()] + clear_loops_seq(
                view_seq(input@),
            )));
        }
    }
    proof {
        assert(view_seq(input@) =~= Seq::<InstrModel>::empty());
        assert(view_seq(out@) + clear_loops_seq(Seq::<InstrModel>::empty()) =~= view_seq(out@));
    }
    out
}

/// An instruction dead-code removes outright: an `Add` of zero or a
/// `Move` of zero.
pub open spec fn is_null_increment(i: InstrModel) -> bool {
    i matches InstrModel::Add { amount: 0u8, .. } || i matches InstrModel::Move {
        offset: 0isize,
        ..
    }
}

/// Dead-code stage one: remove the null increments.
pub open spec fn strip_nulls(s: Seq<InstrModel>) -> Seq<InstrModel>
    decreases s.len(),
{
    if s.len() == 0 {
        Seq::empty()
    } else if is_null_increment(s[0]) {
        strip_nulls(s.subrange(1, s.len() as int))
    } else {
        seq![s[0]] + strip_nulls(s.subrange(1, s.len() as int))
    }
}

/// Dead-code stage two, at the top level only: drop the leading loop-like
/// instructions, which can never run on an all-zero tape.
pub open spec fn skip_leading_loops(s: Seq<InstrModel>) -> Seq<InstrModel>
    decreases s.len(),
{
    if s.len() > 0 && s[0].is_loop() {
        skip_leading_loops(s.subrange(1, s.len() as int))
    } else {
        s
    }
}

/// Dead-code stage three: after an instruction that clears the current
/// cell, a loop-like instruction can never run; drop it.
pub open spec fn drop_loops_after_clear(pending: InstrModel, rest: Seq<InstrModel>) -> Seq<
    InstrModel,
>
    decreases rest.len(),
{
    if rest.len() == 0 {
        seq![pending]
    } else if pending.clears_current_cell() && rest[0].is_loop() {
        drop_loops_after_clear(pending, rest.subrange(1, rest.len() as int))
    } else {
        seq![pending] + drop_loops_after_clear(rest[0], rest.subrange(1, rest.len() as int))
    }
}

/// Stage three over a whole sequence.
pub open spec fn fuse_dead_loops(s: Seq<InstrModel>) -> Seq<InstrModel> {
    if s.len() == 0 {
        s
    } else {
        drop_loops_after_clear(s[0], s.subrange(1, s.len() as int))
    }
}

pub proof fn lemma_strip_nulls_size(s: Seq<InstrModel>)
    ensures
        seq_size(strip_nulls(s)) <= seq_size(s),
    decreases s.len(),
{
    if s.len() > 0 {
        let rest = s.subrange(1, s.len() as int);
        lemma_strip_nulls_size(rest);
        if !is_null_increment(s[0]) {
            lemma_seq_size_concat(seq![s[0]], strip_nulls(rest));
            assert(seq_size(seq![s[0]]) == instr_size(s[0]) + seq_size(
                Seq::<InstrModel>::empty(),
            )) by {
                assert(seq![s[0]].subrange(1, 1) =~= Seq::<InstrModel>::empty());
            }
        }
    }
}

pub proof fn lemma_skip_leading_size(s: Seq<InstrModel>)
    ensures
        seq_size(skip_leading_loops(s)) <= seq_size(s),
    decreases s.len(),
{
    if s.len() > 0 && s[0].is_loop() {
        lemma_skip_leading_size(s.subrange(1, s.len() as int));
    }
}

pub proof fn lemma_drop_loops_after_clear_size(pending: InstrModel, rest: Seq<InstrModel>)
    ensures
        seq_size(drop_loops_after_clear(pending, rest)) <= instr_size(pending) + seq_size(rest),
    decreases rest.len(),
{
    if rest.len() == 0 {
        assert(seq_size(seq![pending]) == instr_size(pending) + seq_size(
            Seq::<InstrModel>::empty(),
        )) by {
            assert(seq![pending].subrange(1, 1) =~= Seq::<InstrModel>::empty());
        }
    } else {
        let rest1 = rest.subrange(1, rest.len() as int);
        if pending.clears_current_cell() && rest[0].is_loop() {
            lemma_drop_loops_after_clear_size(pending, rest1);
        } else {
            lemma_drop_loops_after_clear_size(rest[0], rest1);
            lemma_seq_size_concat(seq![pending], drop_loops_after_clear(rest[0], rest1));
            assert(seq_size(seq![pending]) == instr_size(pending) + seq_size(
                Seq::<InstrModel>::empty(),
            )) by {
                assert(seq![pending].subrange(1, 1) =~= Seq::<InstrModel>::empty());
            }
        }
    }
}

pub proof fn lemma_fuse_dead_loops_size(s: Seq<InstrModel>)
    ensures
        seq_size(fuse_dead_loops(s)) <= seq_size(s),
{
    if s.len() > 0 {
        lemma_drop_loops_after_clear_size(s[0], s.subrange(1, s.len() as int));
    }
}

/// The dead-code pass: remove null increments, drop the leading loops at
/// the top level, drop every loop that follows an instruction that clears
/// the current cell, and rewrite the bodies of the loops that remain.
pub open spec fn dead_code_seq(s: Seq<InstrModel>, skip_initial: bool) -> Seq<InstrModel>
    decreases seq_size(s), 2nat,
{
    let stripped = strip_nulls(s);
    let skipped = if skip_initial {
        skip_leading_loops(stripped)
    } else {
        stripped
    };
    proof {
        lemma_strip_nulls_size(s);
        lemma_skip_leading_size(stripped);
        lemma_fuse_dead_loops_size(skipped);
    }
    recurse_dead(fuse_dead_loops(skipped))
}

/// Rewriting the bodies of the surviving loops, element by element.
pub open spec fn recurse_dead(s: Seq<InstrModel>) -> Seq<InstrModel>
    decreases seq_size(s), 1nat,
{
    if s.len() == 0 {
        Seq::empty()
    } else {
        proof {
            assert(instr_size(s[0]) >= 1);
        }
        seq![dead_one(s[0])] + recurse_dead(s.subrange(1, s.len() as int))
    }
}

/// Rewriting one surviving instruction: a loop body is cleaned with the
/// top-level skip disabled.
pub open spec fn dead_one(i: InstrModel) -> InstrModel
    decreases instr_size(i), 0nat,
{
    match i {
        InstrModel::Loop { body, position } => InstrModel::Loop {
            body: dead_code_seq(body, false),
            position,
        },
        _ => i,
    }
}

/// dead-code only ever removes instructions: the result never holds more
/// than the input, counting loop bodies throughout.
pub proof fn lemma_dead_code_count(s: Seq<InstrModel>, skip_initial: bool)
    ensures
        seq_size(dead_code_seq(s, skip_initial)) <= seq_size(s),
    decreases seq_size(s), 2nat,
{
    let stripped = strip_nulls(s);
    let skipped = if skip_initial {
        skip_leading_loops(stripped)
    } else {
        stripped
    };
    lemma_strip_nulls_size(s);
    lemma_skip_leading_size(stripped);
    lemma_fuse_dead_loops_size(skipped);
    lemma_recurse_dead_count(fuse_dead_loops(skipped));
}

proof fn lemma_recurse_dead_count(s: Seq<InstrModel>)
    ensures
        seq_size(recurse_dead(s)) <= seq_size(s),
        recurse_dead(s).len() == s.len(),
    decreases seq_size(s), 1nat,
{
    if s.len() > 0 {
        assert(instr_size(s[0]) >= 1);
        let rest = s.subrange(1, s.len() as int);
        lemma_dead_one_count(s[0]);
        lemma_recurse_dead_count(rest);
        lemma_seq_size_concat(seq![dead_one(s[0])], recurse_dead(rest));
        assert(seq_size(seq![dead_one(s[0])]) == instr_size(dead_one(s[0])) + seq_size(
            Seq::<InstrModel>::empty(),
        )) by {
            assert(seq![dead_one(s[0])].subrange(1, 1) =~= Seq::<InstrModel>::empty());
        }
    }
}

proof fn lemma_dead_one_count(i: InstrModel)
    ensures
        instr_size(dead_one(i)) <= instr_size(i),
    decreases instr_size(i), 0nat,
{
    match i {
        InstrModel::Loop { body, .. } => {
            lemma_dead_code_count(body, false);
        },
        _ => {},
    }
}

/// Removes provably inert instructions and unreachable loops, recursing
/// into loop bodies.
#[derive(Debug, Clone, Copy, PartialEq, Eq, Structural)]
pub struct DeadCode;

/// The dead-code pass on an instruction vector: `skip_initial` enables
/// the top-level rule that drops leading loops.
#[verifier::loop_isolation(false)]
pub fn remove_dead_code_inner(instructions: Vec<Instruction>, skip_initial: bool) -> (r: Vec<
    Instruction,
>)
    ensures
        view_seq(r@) == dead_code_seq(view_seq(instructions@), skip_initial),
    decreases seq_size(view_seq(instructions@)), 1nat,
{
    let ghost orig = view_seq(instructions@);

    // Stage one: remove null increments.
    let mut input = instructions;
    let mut kept: Vec<Instruction> = Vec::new();
    proof {
        assert(view_seq(kept@) =~= Seq::<InstrModel>::empty());
        assert(view_seq(kept@) + strip_nulls(view_seq(input@)) =~= strip_nulls(view_seq(input@)));
    }
    while input.len() > 0
        invariant
            seq_size(view_seq(kept@)) + seq_size(view_seq(input@)) <= seq_size(orig),
            strip_nulls(orig) == view_seq(kept@) + strip_nulls(view_seq(input@)),
        decreases view_seq(input@).len(),
    {
        let ghost rest = view_seq(input@);
        let ghost kept_prev = kept@;
        let next = input.remove(0);
        proof {
            assert(view_instr(next) == rest[0]);
            assert(view_seq(input@) =~= rest.subrange(1, rest.len() as int));
        }
        let mut null = false;
        match &next {
            Instruction::Add { amount: 0u8, .. } => {
                null = true;
            },
            Instruction::Move { offset: 0isize, .. } => {
                null = true;
            },
            _ => {},
        }
        proof {
            assert(null == is_null_increment(rest[0]));
        }
        if !null {
            kept.push(next);
            proof {
                assert(view_seq(kept@) =~= view_seq(kept_prev).push(rest[0]));
                assert(view_seq(kept_prev).push(rest[0]) + strip_nulls(view_seq(input@))
                    =~= view_seq(kept_prev) + (seq![rest[0]] + strip_nulls(view_seq(input@))));
                assert(seq_size(view_seq(kept@)) == seq_size(view_seq(kept_prev)) + instr_size(
                    rest[0],
                )) by {
                    lemma_seq_size_concat(view_seq(kept_prev), seq![rest[0]]);
                    assert(view_seq(kept@) =~= view_seq(kept_prev) + seq![rest[0]]);
                    assert(seq_size(seq![rest[0]]) == instr_size(rest[0]) + seq_size(
                        Seq::<InstrModel>::empty(),
                    )) by {
                        assert(seq![rest[0]].subrange(1, 1) =~= Seq::<InstrModel>::empty());
                    }
                }
            }
        }
    }
    proof {
        assert(view_seq(input@) =~= Seq::<InstrModel>::empty());
        assert(view_seq(kept@) + strip_nulls(Seq::<InstrModel>::empty()) =~= view_seq(kept@));
        assert(view_seq(kept@) == strip_nulls(orig));
    }

    // Stage two, at the top level only: drop the leading loop-like
    // instructions.
    if skip_initial {
        while kept.len() > 0 && kept[0].is_loop()
            invariant
                seq_size(view_seq(kept@)) <= seq_size(orig),
                skip_leading_loops(strip_nulls(orig)) == skip_leading_loops(view_seq(kept@)),
            decreases view_seq(kept@).len(),
        {
            let ghost before = view_seq(kept@);
            kept.remove(0);
            proof {
                assert(before[0].is_loop());
                assert(view_seq(kept@) =~= before.subrange(1, before.len() as int));
            }
        }
        proof {
            if kept.len() > 0 {
                assert(!view_seq(kept@)[0].is_loop());
            }
            assert(skip_leading_loops(view_seq(kept@)) == view_seq(kept@));
        }
    }
    let ghost skipped = view_seq(kept@);
    proof {
        assert(skipped == (if skip_initial {
            skip_leading_loops(strip_nulls(orig))
        } else {
            strip_nulls(orig)
        }));
    }

    // Stage three: fuse away the loops that follow a clearing
    // instruction, rewriting the body of each survivor.
    let mut out: Vec<Instruction> = Vec::new();
    if kept.len() == 0 {
        proof {
            assert(view_seq(out@) =~= Seq::<InstrModel>::empty());
            assert(view_seq(out@) == dead_code_seq(orig, skip_initial));
        }
        return out;
    }
    let mut pending = kept.remove(0);
    proof {
        assert(view_instr(pending) == skipped[0]);
        assert(view_seq(kept@) =~= skipped.subrange(1, skipped.len() as int));
        assert(view_seq(out@) =~= Seq::<InstrModel>::empty());
        assert(view_seq(out@) + recurse_dead(
            drop_loops_after_clear(view_instr(pending), view_seq(kept@)),
        ) =~= recurse_dead(drop_loops_after_clear(view_instr(pending), view_seq(kept@))));
        lemma_seq_size_concat(seq![skipped[0]], view_seq(kept@));
        assert(seq![skipped[0]] + view_seq(kept@) =~= skipped);
        assert(seq_size(seq![skipped[0]]) == instr_size(skipped[0]) + seq_size(
            Seq::<InstrModel>::empty(),
        )) by {
            assert(seq![skipped[0]].subrange(1, 1) =~= Seq::<InstrModel>::empty());
        }
    }
    while kept.len() > 0
        invariant
            instr_size(view_instr(pending)) + seq_size(view_seq(kept@)) <= seq_size(orig),
            recurse_dead(fuse_dead_loops(skipped)) == view_seq(out@) + recurse_dead(
                drop_loops_after_clear(view_instr(pending), view_seq(kept@)),
            ),
        decreases view_seq(kept@).len(),
    {
        let ghost rest = view_seq(kept@);
        let next = kept.remove(0);
        proof {
            assert(view_instr(next) == rest[0]);
            assert(view_seq(kept@) =~= rest.subrange(1, rest.len() as int));
            assert(instr_size(rest[0]) >= 1);
        }
        if pending.clears_current_cell() && next.is_loop() {
            // `next` can never run: the cell is zero when it is reached.
        } else {
            let ghost p = view_instr(pending);
            let finished = dead_finish(pending);
            let ghost out_prev = out@;
            out.push(finished);
            proof {
                assert(view_seq(out@) =~= view_seq(out_prev).push(dead_one(p)));
                assert(recurse_dead(seq![p] + drop_loops_after_clear(rest[0], view_seq(kept@)))
                    =~= seq![dead_one(p)] + recurse_dead(
                    drop_loops_after_clear(rest[0], view_seq(kept@)),
                )) by {
                    let w = seq![p] + drop_loops_after_clear(rest[0], view_seq(kept@));
                    assert(w[0] == p);
                    assert(w.subrange(1, w.len() as int) =~= drop_loops_after_clear(
                        rest[0],
                        view_seq(kept@),
                    ));
                }
                assert(view_seq(out_prev).push(dead_one(p)) + recurse_dead(
                    drop_loops_after_clear(rest[0], view_seq(kept@)),
                ) =~= view_seq(out_prev) + (seq![dead_one(p)] + recurse_dead(
                    drop_loops_after_clear(rest[0], view_seq(kept@)),
                )));
            }
            pending = next;
        }
    }
    proof {
        assert(view_seq(kept@) =~= Seq::<InstrModel>::empty());
    }
    let ghost p = view_instr(pending);
    let finished = dead_finish(pending);
    let ghost out_prev = out@;
    out.push(finished);
    proof {
        assert(drop_loops_after_clear(p, Seq::<InstrModel>::empty()) =~= seq![p]);
        assert(recurse_dead(seq![p]) =~= seq![dead_one(p)] + recurse_dead(
            Seq::<InstrModel>::empty(),
        )) by {
            assert(seq![p].subrange(1, 1) =~= Seq::<InstrModel>::empty());
        }
        assert(view_seq(out@) =~= view_seq(out_prev).push(dead_one(p)));
        assert(view_seq(out_prev).push(dead_one(p)) =~= view_seq(out_prev) + (seq![dead_one(p)]
            + recurse_dead(Seq::<InstrModel>::empty())));
    }
    out
}

/// Closes one surviving instruction, cleaning its body if it is a loop.
fn dead_finish(i: Instruction) -> (r: Instruction)
    ensures
        view_instr(r) == dead_one(view_instr(i)),
    decreases instr_size(view_instr(i)), 0nat,
{
    let ghost im = view_instr(i);
    match i {
        Instruction::Loop { body, position } => {
            proof {
                assert(im == (InstrModel::Loop { body: view_seq(body@), position }));
            }
            Instruction::Loop { body: remove_dead_code_inner(body, false), position }
        },
        other => other,
    }
}



/// Adds `a` to the entry for key `k` of a sorted association list,
/// inserting the key where it is missing.
pub open spec fn pairs_upsert(pairs: Seq<(isize, u8)>, k: isize, a: u8) -> Seq<(isize, u8)>
    decreases pairs.len(),
{
    if pairs.len() == 0 {
        seq![(k, a)]
    } else if k < pairs[0].0 {
        seq![(k, a)] + pairs
    } else if k == pairs[0].0 {
        seq![(k, byte_add(pairs[0].1, a))] + pairs.subrange(1, pairs.len() as int)
    } else {
        seq![pairs[0]] + pairs_upsert(pairs.subrange(1, pairs.len() as int), k, a)
    }
}

/// The entry for key `k` of an association list, if any.
pub open spec fn pairs_get(pairs: Seq<(isize, u8)>, k: isize) -> Option<u8>
    decreases pairs.len(),
{
    if pairs.len() == 0 {
        Option::None
    } else if pairs[0].0 == k {
        Option::Some(pairs[0].1)
    } else {
        pairs_get(pairs.subrange(1, pairs.len() as int), k)
    }
}

/// The association list without the first entry for key `k`.
pub open spec fn pairs_remove(pairs: Seq<(isize, u8)>, k: isize) -> Seq<(isize, u8)>
    decreases pairs.len(),
{
    if pairs.len() == 0 {
        pairs
    } else if pairs[0].0 == k {
        pairs.subrange(1, pairs.len() as int)
    } else {
        seq![pairs[0]] + pairs_remove(pairs.subrange(1, pairs.len() as int), k)
    }
}

/// The recognizer's walk over a loop body: `offset` is the net pointer
/// displacement so far and `pairs` maps each touched offset to the sum of
/// the amounts added there. Anything but `Add` and `Move` rejects, as
/// does a displacement that leaves the signed pointer range.
pub open spec fn mul_walk(
    body: Seq<InstrModel>,
    offset: int,
    pairs: Seq<(isize, u8)>,
) -> Option<(int, Seq<(isize, u8)>)>
    decreases body.len(),
{
    if body.len() == 0 {
        Option::Some((offset, pairs))
    } else {
        match body[0] {
            InstrModel::Move { offset: k, .. } => {
                if in_isize(offset + k) {
                    mul_walk(body.subrange(1, body.len() as int), offset + k, pairs)
                } else {
                    Option::None
                }
            },
            InstrModel::Add { amount, .. } => mul_walk(
                body.subrange(1, body.len() as int),
                offset,
                pairs_upsert(pairs, offset as isize, amount),
            ),
            _ => Option::None,
        }
    }
}

/// What the mul-loop recognizer accepts: a body of `Add`s and `Move`s
/// with net displacement zero whose own cell decrements by exactly one
/// per iteration. The result maps each other touched offset to its
/// multiplicative factor, ordered by offset.
pub open spec fn recognize_spec(body: Seq<InstrModel>) -> Option<Seq<(isize, u8)>> {
    match mul_walk(body, 0, Seq::empty()) {
        Option::Some((end_offset, pairs)) => {
            if end_offset == 0 && pairs_get(pairs, 0) == Option::Some(255u8) {
                Option::Some(pairs_remove(pairs, 0))
            } else {
                Option::None
            }
        },
        Option::None => Option::None,
    }
}

/// An association list sorted strictly by key.
pub open spec fn pairs_sorted(pairs: Seq<(isize, u8)>) -> bool {
    forall|i: int, j: int|
        0 <= i < j < pairs.len() ==> (#[trigger] pairs[i]).0 < (#[trigger] pairs[j]).0
}

/// A key that no entry carries is not found.
pub proof fn lemma_pairs_get_absent(pairs: Seq<(isize, u8)>, k: isize)
    requires
        forall|j: int| 0 <= j < pairs.len() ==> (#[trigger] pairs[j]).0 != k,
    ensures
        pairs_get(pairs, k) is None,
    decreases pairs.len(),
{
    if pairs.len() > 0 {
        let rest = pairs.subrange(1, pairs.len() as int);
        assert(forall|j: int| 0 <= j < rest.len() ==> (#[trigger] rest[j]).0 != k) by {
            assert(forall|j: int|
                0 <= j < rest.len() ==> #[trigger] rest[j] == pairs[j + 1]);
        }
        lemma_pairs_get_absent(rest, k);
    }
}

/// `pairs_upsert` keeps the list sorted.
#[verifier::spinoff_prover]
#[verifier::rlimit(60)]
pub proof fn lemma_pairs_upsert_sorted(pairs: Seq<(isize, u8)>, k: isize, a: u8)
    requires
        pairs_sorted(pairs),
    ensures
        pairs_sorted(pairs_upsert(pairs, k, a)),
    decreases pairs.len(),
{
    let up = pairs_upsert(pairs, k, a);
    if pairs.len() == 0 {
    } else if k < pairs[0].0 {
        assert(up == seq![(k, a)] + pairs);
        assert forall|i: int, j: int| 0 <= i < j < up.len() implies (#[trigger] up[i]).0 < (
        #[trigger] up[j]).0 by {
            if i > 0 {
                assert(up[i] == pairs[i - 1]);
                assert(up[j] == pairs[j - 1]);
            } else {
                assert(up[j] == pairs[j - 1]);
                if j > 1 {
                    assert(pairs[0].0 < pairs[j - 1].0);
                }
            }
        }
    } else if k == pairs[0].0 {
        assert(up == seq![(k, byte_add(pairs[0].1, a))] + pairs.subrange(1, pairs.len() as int));
        assert forall|i: int, j: int| 0 <= i < j < up.len() implies (#[trigger] up[i]).0 < (
        #[trigger] up[j]).0 by {
            if i > 0 {
                assert(up[i] == pairs[i]);
                assert(up[j] == pairs[j]);
            } else {
                assert(up[j] == pairs[j]);
            }
        }
    } else {
        let rest = pairs.subrange(1, pairs.len() as int);
        lemma_pairs_upsert_sorted(rest, k, a);
        lemma_pairs_upsert_keys(rest, k, a);
        assert(up == seq![pairs[0]] + pairs_upsert(rest, k, a));
        assert forall|i: int, j: int| 0 <= i < j < up.len() implies (#[trigger] up[i]).0 < (
        #[trigger] up[j]).0 by {
            if i > 0 {
                assert(up[i] == pairs_upsert(rest, k, a)[i - 1]);
                assert(up[j] == pairs_upsert(rest, k, a)[j - 1]);
            } else {
                assert(up[j] == pairs_upsert(rest, k, a)[j - 1]);
            }
        }
    }
}

/// Every key of the upserted list is an old key or the new one, and the
/// length grows by at most one.
#[verifier::spinoff_prover]
#[verifier::rlimit(60)]
pub proof fn lemma_pairs_upsert_keys(pairs: Seq<(isize, u8)>, k: isize, a: u8)
    ensures
        forall|j: int|
            0 <= j < pairs_upsert(pairs, k, a).len() ==> ((#[trigger] pairs_upsert(
                pairs,
                k,
                a,
            )[j]).0 == k || exists|m: int|
                0 <= m < pairs.len() && (#[trigger] pairs[m]).0 == pairs_upsert(pairs, k, a)[j].0),
    decreases pairs.len(),
{
    let up = pairs_upsert(pairs, k, a);
    if pairs.len() == 0 {
    } else if k < pairs[0].0 {
        assert forall|j: int| 0 <= j < up.len() implies ((#[trigger] up[j]).0 == k || exists|m: int|
            0 <= m < pairs.len() && (#[trigger] pairs[m]).0 == up[j].0) by {
            if j > 0 {
                assert(up[j] == pairs[j - 1]);
                assert(pairs[j - 1].0 == up[j].0);
            }
        }
    } else if k == pairs[0].0 {
        assert forall|j: int| 0 <= j < up.len() implies ((#[trigger] up[j]).0 == k || exists|m: int|
            0 <= m < pairs.len() && (#[trigger] pairs[m]).0 == up[j].0) by {
            if j > 0 {
                assert(up[j] == pairs[j]);
                assert(pairs[j].0 == up[j].0);
            }
        }
    } else {
        let rest = pairs.subrange(1, pairs.len() as int);
        lemma_pairs_upsert_keys(rest, k, a);
        assert forall|j: int| 0 <= j < up.len() implies ((#[trigger] up[j]).0 == k || exists|m: int|
            0 <= m < pairs.len() && (#[trigger] pairs[m]).0 == up[j].0) by {
            if j == 0 {
                assert(up[0] == pairs[0]);
                assert(pairs[0].0 == up[0].0);
            } else {
                let urest = pairs_upsert(rest, k, a);
                assert(up[j] == urest[j - 1]);
                if urest[j - 1].0 != k {
                    let m = choose|m: int|
                        0 <= m < rest.len() && (#[trigger] rest[m]).0 == urest[j - 1].0;
                    assert(rest[m] == pairs[m + 1]);
                    assert(pairs[m + 1].0 == up[j].0);
                }
            }
        }
    }
}

/// How `pairs_upsert` changes what `pairs_get` sees: the touched key
/// gains `a`, every other key is untouched.
#[verifier::spinoff_prover]
#[verifier::rlimit(60)]
pub proof fn lemma_pairs_get_upsert(pairs: Seq<(isize, u8)>, k: isize, a: u8, q: isize)
    requires
        pairs_sorted(pairs),
    ensures
        pairs_get(pairs_upsert(pairs, k, a), q) == (if q == k {
            match pairs_get(pairs, k) {
                Option::Some(old) => Option::Some(byte_add(old, a)),
                Option::None => Option::Some(a),
            }
        } else {
            pairs_get(pairs, q)
        }),
    decreases pairs.len(),
{
    let up = pairs_upsert(pairs, k, a);
    if pairs.len() == 0 {
        assert(up == seq![(k, a)]);
        assert(up[0] == (k, a));
        assert(up.subrange(1, 1) =~= Seq::<(isize, u8)>::empty());
        assert(pairs_get(up.subrange(1, 1), q) is None);
        assert(pairs_get(pairs, q) is None);
    } else if k < pairs[0].0 {
        assert(up == seq![(k, a)] + pairs);
        assert(up[0] == (k, a));
        assert(up.subrange(1, up.len() as int) =~= pairs);
        if q == k {
            assert(forall|j: int| 0 <= j < pairs.len() ==> (#[trigger] pairs[j]).0 > k) by {
                assert(forall|j: int|
                    1 <= j < pairs.len() ==> pairs[0].0 < (#[trigger] pairs[j]).0);
            }
            lemma_pairs_get_absent(pairs, k);
        }
    } else if k == pairs[0].0 {
        assert(up == seq![(k, byte_add(pairs[0].1, a))] + pairs.subrange(1, pairs.len() as int));
        assert(up[0] == (k, byte_add(pairs[0].1, a)));
        assert(up.subrange(1, up.len() as int) =~= pairs.subrange(1, pairs.len() as int));
    } else {
        let rest = pairs.subrange(1, pairs.len() as int);
        assert(pairs_sorted(rest)) by {
            assert(forall|i: int, j: int|
                0 <= i < j < rest.len() ==> #[trigger] rest[i] == pairs[i + 1] && #[trigger] rest[j]
                    == pairs[j + 1]);
        }
        lemma_pairs_get_upsert(rest, k, a, q);
        assert(up == seq![pairs[0]] + pairs_upsert(rest, k, a));
        assert(up[0] == pairs[0]);
        assert(up.subrange(1, up.len() as int) =~= pairs_upsert(rest, k, a));
    }
}

/// The amount an association list adds at relative offset `d`.
pub open spec fn pair_amount_at(pairs: Seq<(isize, u8)>, d: int) -> Option<u8> {
    if in_isize(d) {
        pairs_get(pairs, d as isize)
    } else {
        Option::None
    }
}

/// A tape seen through a pending list of additions: each entry adds its
/// amount to the cell at `base` plus its key.
pub open spec fn apply_pairs(t: Seq<u8>, base: int, pairs: Seq<(isize, u8)>) -> Seq<u8> {
    Seq::new(
        t.len(),
        |i: int|
            if 0 <= i < t.len() {
                match pair_amount_at(pairs, i - base) {
                    Option::Some(v) => byte_add(t[i], v),
                    Option::None => t[i],
                }
            } else {
                arbitrary()
            },
    )
}

/// Adding `a` to the pending list is adding `a` to the seen tape.
#[verifier::spinoff_prover]
#[verifier::rlimit(60)]
pub proof fn lemma_apply_pairs_upsert(t: Seq<u8>, base: int, pairs: Seq<(isize, u8)>, k: isize, a: u8)
    requires
        pairs_sorted(pairs),
        0 <= base + k < t.len(),
    ensures
        apply_pairs(t, base, pairs_upsert(pairs, k, a)) == apply_pairs(t, base, pairs).update(
            base + k,
            byte_add(apply_pairs(t, base, pairs)[base + k], a),
        ),
{
    let before = apply_pairs(t, base, pairs);
    let lhs = apply_pairs(t, base, pairs_upsert(pairs, k, a));
    let rhs = before.update(base + k, byte_add(before[base + k], a));
    assert forall|i: int| 0 <= i < t.len() implies lhs[i] == rhs[i] by {
        if in_isize(i - base) {
            lemma_pairs_get_upsert(pairs, k, a, (i - base) as isize);
        }
        if i == base + k {
            match pairs_get(pairs, k) {
                Option::Some(old) => {
                    assert(byte_add(byte_add(t[i], old), a) == byte_add(t[i], byte_add(old, a)));
                },
                Option::None => {},
            }
        }
    }
    assert(lhs =~= rhs);
}

/// Running what remains of a recognized multiplication body: starting
/// from the tape seen through the additions accumulated so far, with the
/// pointer at the walk's current offset, the machine performs exactly the
/// walk's remaining additions, ends at the walk's final offset, and never
/// touches the streams.
#[verifier::spinoff_prover]
#[verifier::rlimit(60)]
pub proof fn lemma_mul_body_run(
    t0: Seq<u8>,
    inp: Option<Seq<u8>>,
    outp: Option<Seq<u8>>,
    base: int,
    body: Seq<InstrModel>,
    off: int,
    pairs: Seq<(isize, u8)>,
    fuel: nat,
    r: MachineState,
)
    requires
        pairs_sorted(pairs),
        in_isize(off),
        0 <= base + off < t0.len(),
        forall|j: int| 0 <= j < pairs.len() ==> 0 <= base + (#[trigger] pairs[j]).0 < t0.len(),
        mul_walk(body, off, pairs) is Some,
        run_seq_model(
            MachineState {
                tape: apply_pairs(t0, base, pairs),
                pos: base + off,
                input: inp,
                output: outp,
            },
            body,
            fuel,
        ) == Outcome::Halted(r),
    ensures
        ({
            let end = mul_walk(body, off, pairs).unwrap();
            &&& pairs_sorted(end.1)
            &&& in_isize(end.0)
            &&& 0 <= base + end.0 < t0.len()
            &&& forall|j: int|
                0 <= j < end.1.len() ==> 0 <= base + (#[trigger] end.1[j]).0 < t0.len()
            &&& r == (MachineState {
                tape: apply_pairs(t0, base, end.1),
                pos: base + end.0,
                input: inp,
                output: outp,
            })
        }),
    decreases body.len(),
{
    let cur = MachineState {
        tape: apply_pairs(t0, base, pairs),
        pos: base + off,
        input: inp,
        output: outp,
    };
    if body.len() == 0 {
        assert(run_seq_model(cur, body, fuel)
            == Outcome::Halted(cur));
    } else {
        let rest = body.subrange(1, body.len() as int);
        match body[0] {
            InstrModel::Move { offset: k, .. } => {
                assert(in_isize(off + k));
                let noff = off + k;
                if base + noff < 0 || base + noff >= t0.len() {
                    assert(run_seq_model(cur, body, fuel)
                        == run_instr_model(cur, body[0], fuel));
                    assert(false);
                }
                let stepped = MachineState { pos: base + noff, ..cur };
                assert(run_instr_model(cur, body[0], fuel)
                    == Outcome::Halted(stepped));
                assert(run_seq_model(stepped, rest, fuel)
                    == Outcome::Halted(r));
                lemma_mul_body_run(t0, inp, outp, base, rest, noff, pairs, fuel, r);
            },
            InstrModel::Add { amount, .. } => {
                let npairs = pairs_upsert(pairs, off as isize, amount);
                lemma_pairs_upsert_sorted(pairs, off as isize, amount);
                lemma_apply_pairs_upsert(t0, base, pairs, off as isize, amount);
                lemma_pairs_upsert_keys(pairs, off as isize, amount);
                let stepped = MachineState {
                    tape: cur.tape.update(cur.pos, byte_add(cur.tape[cur.pos], amount)),
                    ..cur
                };
                assert(run_instr_model(cur, body[0], fuel)
                    == Outcome::Halted(stepped));
                assert(stepped.tape == apply_pairs(t0, base, npairs));
                assert(stepped == (MachineState {
                    tape: apply_pairs(t0, base, npairs),
                    pos: base + off,
                    input: inp,
                    output: outp,
                }));
                assert(forall|j: int|
                    0 <= j < npairs.len() ==> 0 <= base + (#[trigger] npairs[j]).0 < t0.len());
                assert(run_seq_model(stepped, rest, fuel)
                    == Outcome::Halted(r));
                lemma_mul_body_run(t0, inp, outp, base, rest, off, npairs, fuel, r);
            },
            _ => {
                assert(false);
            },
        }
    }
}

/// A tape with no pending additions is the tape itself.
pub proof fn lemma_apply_pairs_empty(t: Seq<u8>, base: int)
    ensures
        apply_pairs(t, base, Seq::empty()) == t,
{
    assert(apply_pairs(t, base, Seq::<(isize, u8)>::empty()) =~= t);
}

/// A tape with each entry of an association list scaled by `c`: the cell
/// at `base` plus a key gains the key's amount times `c`.
pub open spec fn scaled_tape(t: Seq<u8>, base: int, pairs: Seq<(isize, u8)>, c: u8) -> Seq<u8> {
    Seq::new(
        t.len(),
        |i: int|
            if 0 <= i < t.len() {
                match pair_amount_at(pairs, i - base) {
                    Option::Some(v) => byte_add(t[i], byte_mul(c, v)),
                    Option::None => t[i],
                }
            } else {
                arbitrary()
            },
    )
}

/// Scaling by zero changes nothing.
pub proof fn lemma_scaled_tape_zero(t: Seq<u8>, base: int, pairs: Seq<(isize, u8)>)
    ensures
        scaled_tape(t, base, pairs, 0) == t,
{
    assert forall|i: int| 0 <= i < t.len() implies scaled_tape(t, base, pairs, 0)[i] == t[i] by {
        match pair_amount_at(pairs, i - base) {
            Option::Some(v) => {
                assert(byte_mul(0, v) == 0);
                assert(byte_add(t[i], 0) == t[i]);
            },
            Option::None => {},
        }
    }
    assert(scaled_tape(t, base, pairs, 0) =~= t);
}

/// One more pass over the additions raises the scale by one.
#[verifier::spinoff_prover]
#[verifier::rlimit(60)]
pub proof fn lemma_scaled_tape_step(t: Seq<u8>, base: int, pairs: Seq<(isize, u8)>, c: u8)
    requires
        c > 0,
    ensures
        scaled_tape(apply_pairs(t, base, pairs), base, pairs, (c - 1) as u8) == scaled_tape(
            t,
            base,
            pairs,
            c,
        ),
{
    let once = apply_pairs(t, base, pairs);
    assert forall|i: int|
        0 <= i < t.len() implies scaled_tape(once, base, pairs, (c - 1) as u8)[i] == scaled_tape(
        t,
        base,
        pairs,
        c,
    )[i] by {
        match pair_amount_at(pairs, i - base) {
            Option::Some(v) => {
                assert(byte_add(byte_add(t[i], v), byte_mul((c - 1) as u8, v)) == byte_add(
                    t[i],
                    byte_mul(c, v),
                )) by {
                    assert((c - 1) * v == c * v - v) by (nonlinear_arith);
                }
            },
            Option::None => {},
        }
    }
    assert(scaled_tape(once, base, pairs, (c - 1) as u8) =~= scaled_tape(t, base, pairs, c));
}

/// What a recognized multiplication loop computes when it halts: each
/// touched cell gains its factor times the initial value of the current
/// cell (the current cell itself, decremented once per iteration, ends at
/// zero), the pointer returns home, and the streams are untouched.
#[verifier::spinoff_prover]
#[verifier::rlimit(60)]
pub proof fn lemma_mul_loop_run(
    s: MachineState,
    body: Seq<InstrModel>,
    position: Position,
    full: Seq<(isize, u8)>,
    fuel: nat,
    r: MachineState,
)
    requires
        0 <= s.pos < s.tape.len(),
        mul_walk(body, 0, Seq::empty()) == Option::Some((0int, full)),
        pairs_get(full, 0) == Option::Some(255u8),
        run_instr_model(
            s,
            InstrModel::Loop { body, position },
            fuel,
        ) == Outcome::Halted(r),
    ensures
        r == (MachineState {
            tape: scaled_tape(s.tape, s.pos, full, s.tape[s.pos]),
            pos: s.pos,
            input: s.input,
            output: s.output,
        }),
        s.tape[s.pos] > 0 ==> pairs_sorted(full) && forall|j: int|
            0 <= j < full.len() ==> 0 <= s.pos + (#[trigger] full[j]).0 < s.tape.len(),
    decreases s.tape[s.pos],
{
    let c = s.tape[s.pos];
    let lp = InstrModel::Loop { body, position };
    if c == 0 {
        lemma_scaled_tape_zero(s.tape, s.pos, full);
        assert(r == s);
        assert(r =~= (MachineState {
            tape: scaled_tape(s.tape, s.pos, full, 0),
            pos: s.pos,
            input: s.input,
            output: s.output,
        }));
    } else if fuel > 0 {
        lemma_apply_pairs_empty(s.tape, s.pos);
        let cur = MachineState {
            tape: apply_pairs(s.tape, s.pos, Seq::empty()),
            pos: s.pos + 0,
            input: s.input,
            output: s.output,
        };
        assert(cur =~= s);
        match run_seq_model(s, body, (fuel - 1) as nat) {
            Outcome::Halted(s2) => {
                assert(run_seq_model(cur, body, (fuel - 1) as nat)
                    == Outcome::Halted(s2));
                lemma_mul_body_run(
                    s.tape,
                    s.input,
                    s.output,
                    s.pos,
                    body,
                    0,
                    Seq::empty(),
                    (fuel - 1) as nat,
                    s2,
                );
                assert(s2 == (MachineState {
                    tape: apply_pairs(s.tape, s.pos, full),
                    pos: s.pos,
                    input: s.input,
                    output: s.output,
                }));
                assert(s2.tape[s2.pos] == byte_add(c, 255u8));
                assert(byte_add(c, 255u8) == c - 1);
                assert(run_instr_model(s2, lp, (fuel - 1) as nat)
                    == Outcome::Halted(r));
                lemma_mul_loop_run(s2, body, position, full, (fuel - 1) as nat, r);
                lemma_scaled_tape_step(s.tape, s.pos, full, c);
            },
            _ => {
                assert(false);
            },
        }
    } else {
        assert(false);
    }
}

/// The recognizer's walk keeps its association list sorted.
pub proof fn lemma_mul_walk_sorted(body: Seq<InstrModel>, off: int, pairs: Seq<(isize, u8)>)
    requires
        pairs_sorted(pairs),
        mul_walk(body, off, pairs) is Some,
    ensures
        pairs_sorted(mul_walk(body, off, pairs).unwrap().1),
    decreases body.len(),
{
    if body.len() > 0 {
        let rest = body.subrange(1, body.len() as int);
        match body[0] {
            InstrModel::Move { offset: k, .. } => {
                lemma_mul_walk_sorted(rest, off + k, pairs);
            },
            InstrModel::Add { amount, .. } => {
                lemma_pairs_upsert_sorted(pairs, off as isize, amount);
                lemma_mul_walk_sorted(rest, off, pairs_upsert(pairs, off as isize, amount));
            },
            _ => {},
        }
    }
}

/// What `pairs_remove` leaves for `pairs_get` on a sorted list: the
/// removed key is gone, every other key is untouched.
pub proof fn lemma_pairs_get_remove(pairs: Seq<(isize, u8)>, k: isize, q: isize)
    requires
        pairs_sorted(pairs),
    ensures
        pairs_get(pairs_remove(pairs, k), q) == (if q == k {
            Option::<u8>::None
        } else {
            pairs_get(pairs, q)
        }),
    decreases pairs.len(),
{
    let rm = pairs_remove(pairs, k);
    if pairs.len() == 0 {
    } else {
        let rest = pairs.subrange(1, pairs.len() as int);
        assert(pairs_sorted(rest)) by {
            assert(forall|i: int, j: int|
                0 <= i < j < rest.len() ==> #[trigger] rest[i] == pairs[i + 1] && #[trigger] rest[j]
                    == pairs[j + 1]);
        }
        if pairs[0].0 == k {
            assert(rm == rest);
            if q == k {
                assert(forall|j: int| 0 <= j < rest.len() ==> (#[trigger] rest[j]).0 != k) by {
                    assert(forall|j: int|
                        0 <= j < rest.len() ==> #[trigger] rest[j] == pairs[j + 1]);
                }
                lemma_pairs_get_absent(rest, k);
            }
        } else {
            lemma_pairs_get_remove(rest, k, q);
            assert(rm == seq![pairs[0]] + pairs_remove(rest, k));
            assert(rm[0] == pairs[0]);
            assert(rm.subrange(1, rm.len() as int) =~= pairs_remove(rest, k));
        }
    }
}

/// Every entry that `pairs_remove` keeps was an entry of the list.
pub proof fn lemma_pairs_remove_keys(pairs: Seq<(isize, u8)>, k: isize)
    ensures
        forall|j: int|
            0 <= j < pairs_remove(pairs, k).len() ==> exists|m: int|
                0 <= m < pairs.len() && #[trigger] pairs_remove(pairs, k)[j] == pairs[m],
    decreases pairs.len(),
{
    let rm = pairs_remove(pairs, k);
    if pairs.len() == 0 {
    } else {
        let rest = pairs.subrange(1, pairs.len() as int);
        lemma_pairs_remove_keys(rest, k);
        if pairs[0].0 == k {
            assert forall|j: int| 0 <= j < rm.len() implies exists|m: int|
                0 <= m < pairs.len() && #[trigger] rm[j] == pairs[m] by {
                assert(rm[j] == pairs[j + 1]);
            }
        } else {
            assert(rm == seq![pairs[0]] + pairs_remove(rest, k));
            assert forall|j: int| 0 <= j < rm.len() implies exists|m: int|
                0 <= m < pairs.len() && #[trigger] rm[j] == pairs[m] by {
                if j == 0 {
                    assert(rm[0] == pairs[0]);
                } else {
                    assert(rm[j] == pairs_remove(rest, k)[j - 1]);
                    let m = choose|m: int|
                        0 <= m < rest.len() && #[trigger] pairs_remove(rest, k)[j - 1] == rest[m];
                    assert(rest[m] == pairs[m + 1]);
                }
            }
        }
    }
}

/// The `Mul` instructions a recognized loop rewrites into, one per entry.
pub open spec fn muls_of(pairs: Seq<(isize, u8)>, position: Position) -> Seq<InstrModel> {
    Seq::new(
        pairs.len(),
        |j: int|
            if 0 <= j < pairs.len() {
                InstrModel::Mul { offset: pairs[j].0, amount: pairs[j].1, position }
            } else {
                arbitrary()
            },
    )
}

/// The mul-loops pass: replace each recognized loop by its `Mul`
/// instructions followed by one `Clear`, recursing into the bodies of the
/// loops not rewritten.
pub open spec fn mul_loops_seq(s: Seq<InstrModel>) -> Seq<InstrModel>
    decreases s,
{
    if s.len() == 0 {
        Seq::empty()
    } else {
        let head = match s[0] {
            InstrModel::Loop { body, position } => match recognize_spec(body) {
                Option::Some(pairs) => muls_of(pairs, position).push(
                    InstrModel::Clear { position },
                ),
                Option::None => seq![
                    InstrModel::Loop { body: mul_loops_seq(body), position },
                ],
            },
            other => seq![other],
        };
        head + mul_loops_seq(s.subrange(1, s.len() as int))
    }
}

/// mul-loops replaces every recognized loop with one instruction per
/// entry of the recognized map plus one: one `Mul` per touched offset,
/// then one `Clear`.
pub proof fn lemma_mul_loops_rewrite_count(
    body: Seq<InstrModel>,
    position: Position,
    pairs: Seq<(isize, u8)>,
)
    requires
        recognize_spec(body) == Option::Some(pairs),
    ensures
        mul_loops_seq(seq![InstrModel::Loop { body, position }]) == muls_of(
            pairs,
            position,
        ).push(InstrModel::Clear { position }),
        mul_loops_seq(seq![InstrModel::Loop { body, position }]).len() == pairs.len() + 1,
{
    let s = seq![InstrModel::Loop { body, position }];
    assert(s[0] == (InstrModel::Loop { body, position }));
    assert(s.subrange(1, 1) =~= Seq::<InstrModel>::empty());
    assert(mul_loops_seq(s.subrange(1, 1)) =~= Seq::<InstrModel>::empty());
    assert(muls_of(pairs, position).push(InstrModel::Clear { position }) + Seq::<
        InstrModel,
    >::empty() =~= muls_of(pairs, position).push(InstrModel::Clear { position }));
}

/// Replaces every loop whose body is a recognized multiplication with
/// `Mul` instructions and a `Clear`.
#[derive(Debug, Clone, Copy, PartialEq, Eq, Structural)]
pub struct MulLoops;

/// Adds `a` to the entry for `k`, keeping the list sorted by key.
#[verifier::loop_isolation(false)]
fn upsert_pair(pairs: &mut Vec<(isize, u8)>, k: isize, a: u8)
    ensures
        final(pairs)@ == pairs_upsert(old(pairs)@, k, a),
{
    let ghost orig = pairs@;
    let mut j: usize = 0;
    proof {
        assert(orig.subrange(0, 0) =~= Seq::<(isize, u8)>::empty());
        assert(Seq::<(isize, u8)>::empty() + pairs_upsert(orig.subrange(0, orig.len() as int), k, a)
            =~= pairs_upsert(orig.subrange(0, orig.len() as int), k, a));
        assert(orig.subrange(0, orig.len() as int) =~= orig);
    }
    while j < pairs.len()
        invariant
            pairs@ == orig,
            j <= orig.len(),
            pairs_upsert(orig, k, a) == orig.subrange(0, j as int) + pairs_upsert(
                orig.subrange(j as int, orig.len() as int),
                k,
                a,
            ),
        decreases orig.len() - j,
    {
        let ghost tail = orig.subrange(j as int, orig.len() as int);
        proof {
            assert(tail[0] == orig[j as int]);
            assert(tail.subrange(1, tail.len() as int) =~= orig.subrange(
                j as int + 1,
                orig.len() as int,
            ));
        }
        let pj = pairs[j];
        if k < pj.0 {
            pairs.insert(j, (k, a));
            proof {
                assert(pairs_upsert(tail, k, a) == seq![(k, a)] + tail);
                assert(pairs@ =~= orig.subrange(0, j as int) + (seq![(k, a)] + tail));
            }
            return ;
        } else if k == pj.0 {
            let sum = pj.1.wrapping_add(a);
            pairs[j] = (k, sum);
            proof {
                assert(pairs_upsert(tail, k, a) == seq![(k, byte_add(tail[0].1, a))]
                    + tail.subrange(1, tail.len() as int));
                assert(pairs@ =~= orig.subrange(0, j as int) + (seq![(k, byte_add(tail[0].1, a))]
                    + tail.subrange(1, tail.len() as int)));
            }
            return ;
        } else {
            proof {
                assert(pairs_upsert(tail, k, a) == seq![tail[0]] + pairs_upsert(
                    tail.subrange(1, tail.len() as int),
                    k,
                    a,
                ));
                assert(orig.subrange(0, j as int) + (seq![tail[0]] + pairs_upsert(
                    tail.subrange(1, tail.len() as int),
                    k,
                    a,
                )) =~= orig.subrange(0, j as int + 1) + pairs_upsert(
                    orig.subrange(j as int + 1, orig.len() as int),
                    k,
                    a,
                ));
            }
            j = j + 1;
        }
    }
    proof {
        assert(orig.subrange(j as int, orig.len() as int) =~= Seq::<(isize, u8)>::empty());
        assert(pairs_upsert(Seq::<(isize, u8)>::empty(), k, a) == seq![(k, a)]);
    }
    pairs.push((k, a));
    proof {
        assert(pairs@ =~= orig.subrange(0, j as int) + seq![(k, a)]);
    }
}

/// Recognizes whether a loop body is a multiplication loop.
///
/// The returned list records, sorted by offset, the cells the loop adds
/// to and their multiplicative factors: an entry `(i, x)` means that the
/// cell at offset `i` from the current one gains the current cell times
/// `x`.
#[verifier::loop_isolation(false)]
pub fn recognize_mul_loop(instructions: &Vec<Instruction>) -> (r: Option<Vec<(isize, u8)>>)
    ensures
        match r {
            Some(pairs) => recognize_spec(view_seq(instructions@)) == Option::Some(pairs@),
            None => recognize_spec(view_seq(instructions@)) is None,
        },
{
    let ghost body = view_seq(instructions@);
    let mut offset: isize = 0;
    let mut pairs: Vec<(isize, u8)> = Vec::new();
    let mut k: usize = 0;

    proof {
        assert(body.subrange(0, body.len() as int) =~= body);
        assert(pairs@ =~= Seq::<(isize, u8)>::empty());
    }
    while k < instructions.len()
        invariant
            k <= instructions.len(),
            mul_walk(body, 0, Seq::empty()) == mul_walk(
                body.subrange(k as int, body.len() as int),
                offset as int,
                pairs@,
            ),
        decreases instructions.len() - k,
    {
        let ghost tail = body.subrange(k as int, body.len() as int);
        proof {
            assert(tail[0] == body[k as int]);
            assert(tail.subrange(1, tail.len() as int) =~= body.subrange(
                k as int + 1,
                body.len() as int,
            ));
        }
        match &instructions[k] {
            Instruction::Move { offset: off, .. } => {
                match offset.checked_add(*off) {
                    Some(sum) => {
                        offset = sum;
                    },
                    None => {
                        return None;
                    },
                }
            },
            Instruction::Add { amount, .. } => {
                upsert_pair(&mut pairs, offset, *amount);
            },
            _ => {
                return None;
            },
        }
        k = k + 1;
    }
    proof {
        assert(body.subrange(k as int, body.len() as int) =~= Seq::<InstrModel>::empty());
        assert(mul_walk(body, 0, Seq::empty()) == Option::Some((offset as int, pairs@)));
    }

    // The number of lefts and rights must balance: otherwise the loop
    // ends on a different cell than it started and is not a mul-loop.
    if offset != 0 {
        return None;
    }

    // The loop must decrement its own cell by exactly one per iteration.
    let ghost walked = pairs@;
    let mut idx: usize = 0;
    proof {
        assert(walked.subrange(0, 0) =~= Seq::<(isize, u8)>::empty());
        assert(walked.subrange(0, walked.len() as int) =~= walked);
    }
    while idx < pairs.len()
        invariant
            pairs@ == walked,
            idx <= walked.len(),
            pairs_get(walked, 0) == pairs_get(
                walked.subrange(idx as int, walked.len() as int),
                0,
            ),
            pairs_remove(walked, 0) == walked.subrange(0, idx as int) + pairs_remove(
                walked.subrange(idx as int, walked.len() as int),
                0,
            ),
        decreases walked.len() - idx,
    {
        let ghost tail = walked.subrange(idx as int, walked.len() as int);
        proof {
            assert(tail[0] == walked[idx as int]);
            assert(tail.subrange(1, tail.len() as int) =~= walked.subrange(
                idx as int + 1,
                walked.len() as int,
            ));
        }
        let p = pairs[idx];
        if p.0 == 0 {
            if p.1 == 255 {
                pairs.remove(idx);
                proof {
                    assert(pairs_remove(tail, 0) == tail.subrange(1, tail.len() as int));
                    assert(pairs@ =~= walked.subrange(0, idx as int) + tail.subrange(
                        1,
                        tail.len() as int,
                    ));
                    assert(recognize_spec(body) == Option::Some(pairs@));
                }
                return Some(pairs);
            } else {
                proof {
                    assert(pairs_get(walked, 0) == Option::Some(p.1));
                }
                return None;
            }
        }
        proof {
            assert(walked.subrange(0, idx as int) + (seq![tail[0]] + pairs_remove(
                tail.subrange(1, tail.len() as int),
                0,
            )) =~= walked.subrange(0, idx as int + 1) + pairs_remove(
                walked.subrange(idx as int + 1, walked.len() as int),
                0,
            ));
        }
        idx = idx + 1;
    }
    proof {
        assert(walked.subrange(idx as int, walked.len() as int) =~= Seq::<(isize, u8)>::empty());
        assert(pairs_get(walked, 0) is None);
    }
    None
}

/// The mul-loops pass on an instruction vector.
#[verifier::loop_isolation(false)]
pub fn mul_loops(instructions: Vec<Instruction>) -> (r: Vec<Instruction>)
    ensures
        view_seq(r@) == mul_loops_seq(view_seq(instructions@)),
    decreases seq_size(view_seq(instructions@)),
{
    let ghost orig = view_seq(instructions@);
    let mut input = instructions;
    let mut out: Vec<Instruction> = Vec::new();

    proof {
        assert(view_seq(out@) =~= Seq::<InstrModel>::empty());
        assert(view_seq(out@) + mul_loops_seq(view_seq(input@)) =~= mul_loops_seq(
            view_seq(input@),
        ));
    }
    while input.len() > 0
        invariant
            seq_size(view_seq(input@)) <= seq_size(orig),
            mul_loops_seq(orig) == view_seq(out@) + mul_loops_seq(view_seq(input@)),
        decreases seq_size(view_seq(input@)),
    {
        let ghost rest = view_seq(input@);
        let next = input.remove(0);
        proof {
            assert(view_instr(next) == rest[0]);
            assert(view_seq(input@) =~= rest.subrange(1, rest.len() as int));
            assert(instr_size(rest[0]) >= 1);
        }
        let ghost out_prev = out@;
        let ghost head = match rest[0] {
            InstrModel::Loop { body, position } => match recognize_spec(body) {
                Option::Some(pairs) => muls_of(pairs, position).push(
                    InstrModel::Clear { position },
                ),
                Option::None => seq![
                    InstrModel::Loop { body: mul_loops_seq(body), position },
                ],
            },
            other => seq![other],
        };
        match next {
            Instruction::Loop { body, position } => {
                let ghost body_model = view_seq(body@);
                match recognize_mul_loop(&body) {
                    Some(muls) => {
                        let mut j: usize = 0;
                        proof {
                            assert(view_seq(out@) =~= view_seq(out_prev) + muls_of(
                                muls@,
                                position,
                            ).subrange(0, 0));
                        }
                        while j < muls.len()
                            invariant
                                j <= muls@.len(),
                                view_seq(out@) =~= view_seq(out_prev) + muls_of(
                                    muls@,
                                    position,
                                ).subrange(0, j as int),
                            decreases muls@.len() - j,
                        {
                            let pair = muls[j];
                            let ghost out_mid = out@;
                            out.push(
                                Instruction::Mul {
                                    offset: pair.0,
                                    amount: pair.1,
                                    position,
                                },
                            );
                            proof {
                                assert(view_seq(out@) =~= view_seq(out_mid).push(
                                    InstrModel::Mul { offset: pair.0, amount: pair.1, position },
                                ));
                                assert(view_seq(out_mid).push(
                                    InstrModel::Mul { offset: pair.0, amount: pair.1, position },
                                ) =~= view_seq(out_prev) + muls_of(muls@, position).subrange(
                                    0,
                                    j as int + 1,
                                ));
                            }
                            j = j + 1;
                        }
                        let ghost out_mid = out@;
                        out.push(Instruction::Clear { position });
                        proof {
                            assert(muls_of(muls@, position).subrange(
                                0,
                                muls@.len() as int,
                            ) =~= muls_of(muls@, position));
                            assert(view_seq(out@) =~= view_seq(out_mid).push(
                                InstrModel::Clear { position },
                            ));
                            assert(view_seq(out@) =~= view_seq(out_prev) + head);
                        }
                    },
                    None => {
                        proof {
                            assert(seq_size(body_model) < instr_size(rest[0]));
                        }
                        let new_body = mul_loops(body);
                        out.push(Instruction::Loop { body: new_body, position });
                        proof {
                            assert(view_seq(out@) =~= view_seq(out_prev).push(
                                InstrModel::Loop { body: mul_loops_seq(body_model), position },
                            ));
                            assert(view_seq(out@) =~= view_seq(out_prev) + head);
                        }
                    },
                }
            },
            other => {
                let ghost om = view_instr(other);
                out.push(other);
                proof {
                    assert(view_seq(out@) =~= view_seq(out_prev).push(om));
                    assert(view_seq(out@) =~= view_seq(out_prev) + head);
                }
            },
        }
        proof {
            assert(view_seq(out_prev) + head + mul_loops_seq(view_seq(input@)) =~= view_seq(
                out_prev,
            ) + (head + mul_loops_seq(view_seq(input@))));
        }
    }
    proof {
        assert(view_seq(input@) =~= Seq::<InstrModel>::empty());
        assert(view_seq(out@) + mul_loops_seq(Seq::<InstrModel>::empty()) =~= view_seq(out@));
    }
    out
}



/// A key that is not found has no entry.
pub proof fn lemma_pairs_get_none_absent(pairs: Seq<(isize, u8)>, k: isize)
    requires
        pairs_get(pairs, k) is None,
    ensures
        forall|j: int| 0 <= j < pairs.len() ==> (#[trigger] pairs[j]).0 != k,
    decreases pairs.len(),
{
    if pairs.len() > 0 {
        let rest = pairs.subrange(1, pairs.len() as int);
        lemma_pairs_get_none_absent(rest, k);
        assert forall|j: int| 0 <= j < pairs.len() implies (#[trigger] pairs[j]).0 != k by {
            if j > 0 {
                assert(rest[j - 1] == pairs[j]);
            }
        }
    }
}

/// `pairs_remove` keeps the list sorted.
pub proof fn lemma_pairs_remove_sorted(pairs: Seq<(isize, u8)>, k: isize)
    requires
        pairs_sorted(pairs),
    ensures
        pairs_sorted(pairs_remove(pairs, k)),
    decreases pairs.len(),
{
    let rm = pairs_remove(pairs, k);
    if pairs.len() == 0 {
    } else {
        let rest = pairs.subrange(1, pairs.len() as int);
        assert(pairs_sorted(rest)) by {
            assert(forall|i: int, j: int|
                0 <= i < j < rest.len() ==> #[trigger] rest[i] == pairs[i + 1] && #[trigger] rest[j]
                    == pairs[j + 1]);
        }
        lemma_pairs_remove_sorted(rest, k);
        if pairs[0].0 == k {
        } else {
            lemma_pairs_remove_keys(rest, k);
            assert(rm == seq![pairs[0]] + pairs_remove(rest, k));
            assert forall|i: int, j: int| 0 <= i < j < rm.len() implies (#[trigger] rm[i]).0 < (
            #[trigger] rm[j]).0 by {
                if i > 0 {
                    assert(rm[i] == pairs_remove(rest, k)[i - 1]);
                    assert(rm[j] == pairs_remove(rest, k)[j - 1]);
                } else {
                    assert(rm[0] == pairs[0]);
                    assert(rm[j] == pairs_remove(rest, k)[j - 1]);
                    let m = choose|m: int|
                        0 <= m < rest.len() && #[trigger] pairs_remove(rest, k)[j - 1] == rest[m];
                    assert(rest[m] == pairs[m + 1]);
                }
            }
        }
    }
}

/// Running the rewrite a recognized loop is replaced with: the `Mul`
/// instructions, one per entry, then one `Clear`. Each entry's cell gains
/// its factor times the current cell, the `Clear` zeroes the current
/// cell, and the streams are untouched.
#[verifier::spinoff_prover]
#[verifier::rlimit(60)]
proof fn lemma_muls_clear_run(
    t: Seq<u8>,
    base: int,
    inp: Option<Seq<u8>>,
    outp: Option<Seq<u8>>,
    c: u8,
    pairs: Seq<(isize, u8)>,
    position: Position,
    fuel: nat,
)
    requires
        0 <= base < t.len(),
        t[base] == c,
        pairs_sorted(pairs),
        forall|j: int| 0 <= j < pairs.len() ==> (#[trigger] pairs[j]).0 != 0,
        c > 0 ==> forall|j: int|
            0 <= j < pairs.len() ==> 0 <= base + (#[trigger] pairs[j]).0 < t.len(),
    ensures
        run_seq_model(
            MachineState { tape: t, pos: base, input: inp, output: outp },
            muls_of(pairs, position).push(InstrModel::Clear { position }),
            fuel,
        ) == Outcome::Halted(
            MachineState {
                tape: scaled_tape(t, base, pairs, c).update(base, 0u8),
                pos: base,
                input: inp,
                output: outp,
            },
        ),
    decreases pairs.len(),
{
    let s0 = MachineState { tape: t, pos: base, input: inp, output: outp };
    let prog = muls_of(pairs, position).push(InstrModel::Clear { position });
    if pairs.len() == 0 {
        assert(prog.len() == 1);
        assert(prog[0] == (InstrModel::Clear { position }));
        let fin = MachineState { tape: t.update(base, 0u8), ..s0 };
        assert(run_instr_model(s0, prog[0], fuel)
            == Outcome::Halted(fin));
        assert(prog.subrange(1, 1) =~= Seq::<InstrModel>::empty());
        assert(run_seq_model(fin, prog.subrange(1, 1), fuel)
            == Outcome::Halted(fin));
        assert(scaled_tape(t, base, pairs, c) =~= t);
    } else {
        let k = pairs[0].0;
        let v = pairs[0].1;
        let rest = pairs.subrange(1, pairs.len() as int);
        assert(pairs_sorted(rest) && forall|j: int|
            0 <= j < rest.len() ==> (#[trigger] rest[j]).0 != 0 && (c > 0 ==> 0 <= base + rest[j].0
                < t.len())) by {
            assert(forall|j: int| 0 <= j < rest.len() ==> #[trigger] rest[j] == pairs[j + 1]);
            assert(forall|i: int, j: int|
                0 <= i < j < rest.len() ==> #[trigger] rest[i] == pairs[i + 1] && #[trigger] rest[j]
                    == pairs[j + 1]);
        }
        assert(prog[0] == (InstrModel::Mul { offset: k, amount: v, position }));
        assert(prog.subrange(1, prog.len() as int) =~= muls_of(rest, position).push(
            InstrModel::Clear { position },
        )) by {
            assert(forall|j: int|
                0 <= j < rest.len() ==> muls_of(rest, position)[j] == (InstrModel::Mul {
                    offset: (#[trigger] rest[j]).0,
                    amount: rest[j].1,
                    position,
                }) && rest[j] == pairs[j + 1]);
        }
        if c == 0 {
            assert(run_instr_model(s0, prog[0], fuel)
                == Outcome::Halted(s0));
            lemma_muls_clear_run(t, base, inp, outp, c, rest, position, fuel);
            lemma_scaled_tape_zero(t, base, rest);
            lemma_scaled_tape_zero(t, base, pairs);
        } else {
            let t1 = t.update(base + k, byte_add(t[base + k], byte_mul(c, v)));
            let s1 = MachineState { tape: t1, ..s0 };
            assert(base + k != base);
            assert(run_instr_model(s0, prog[0], fuel)
                == Outcome::Halted(s1));
            assert(t1[base] == c);
            lemma_muls_clear_run(t1, base, inp, outp, c, rest, position, fuel);
            assert forall|i: int|
                0 <= i < t.len() implies scaled_tape(t1, base, rest, c)[i] == scaled_tape(
                t,
                base,
                pairs,
                c,
            )[i] by {
                let d = i - base;
                if in_isize(d) {
                    if d == k {
                        assert(forall|j: int| 0 <= j < rest.len() ==> (#[trigger] rest[j]).0 != k)
                            by {
                            assert(forall|j: int|
                                0 <= j < rest.len() ==> #[trigger] rest[j] == pairs[j + 1]
                                    && pairs[0].0 < pairs[j + 1].0);
                        }
                        lemma_pairs_get_absent(rest, k);
                        assert(pairs_get(pairs, d as isize) == Option::Some(v));
                        assert(t1[i] == byte_add(t[i], byte_mul(c, v)));
                    } else {
                        assert(pairs_get(pairs, d as isize) == pairs_get(rest, d as isize));
                        assert(t1[i] == t[i]);
                    }
                }
            }
            assert(scaled_tape(t1, base, rest, c) =~= scaled_tape(t, base, pairs, c));
        }
    }
}

/// The mul-loops rewrite is sound, loop by loop: whenever a recognized
/// loop halts, the `Mul` instructions and the `Clear` that replace it
/// halt in exactly the same machine state, under any step budget.
#[verifier::spinoff_prover]
#[verifier::rlimit(60)]
pub proof fn lemma_mul_rewrite_matches_loop(
    s: MachineState,
    body: Seq<InstrModel>,
    position: Position,
    pairs: Seq<(isize, u8)>,
    fuel: nat,
    fuel2: nat,
    r: MachineState,
)
    requires
        0 <= s.pos < s.tape.len(),
        recognize_spec(body) == Option::Some(pairs),
        run_instr_model(
            s,
            InstrModel::Loop { body, position },
            fuel,
        ) == Outcome::Halted(r),
    ensures
        run_seq_model(
            s,
            muls_of(pairs, position).push(InstrModel::Clear { position }),
            fuel2,
        ) == Outcome::Halted(r),
{
    let full = mul_walk(body, 0, Seq::empty()).unwrap().1;
    assert(mul_walk(body, 0, Seq::empty()) == Option::Some((0int, full)));
    assert(pairs_get(full, 0) == Option::Some(255u8));
    assert(pairs == pairs_remove(full, 0));
    lemma_mul_walk_sorted(body, 0, Seq::empty());
    lemma_pairs_remove_sorted(full, 0);
    lemma_pairs_get_remove(full, 0, 0);
    lemma_pairs_get_none_absent(pairs, 0);
    lemma_mul_loop_run(s, body, position, full, fuel, r);
    let c = s.tape[s.pos];
    let t = s.tape;
    let base = s.pos;
    if c > 0 {
        lemma_pairs_remove_keys(full, 0);
        assert(forall|j: int|
            0 <= j < pairs.len() ==> 0 <= base + (#[trigger] pairs[j]).0 < t.len()) by {
            assert forall|j: int|
                0 <= j < pairs.len() implies 0 <= base + (#[trigger] pairs[j]).0 < t.len() by {
                let m = choose|m: int| 0 <= m < full.len() && #[trigger] pairs[j] == full[m];
                assert(0 <= base + full[m].0 < t.len());
            }
        }
    }
    lemma_muls_clear_run(t, base, s.input, s.output, c, pairs, position, fuel2);
    assert forall|i: int|
        0 <= i < t.len() implies scaled_tape(t, base, pairs, c).update(base, 0u8)[i]
        == scaled_tape(t, base, full, c)[i] by {
        let d = i - base;
        if i == base {
            let ci = c as int;
            assert(byte_mul(c, 255u8) == ((ci * 255) % 256) as u8);
            assert((ci + (ci * 255) % 256) % 256 == 0) by (nonlinear_arith)
                requires 0 <= ci < 256;
            assert(byte_add(c, byte_mul(c, 255u8)) == 0);
        } else if in_isize(d) {
            lemma_pairs_get_remove(full, 0, d as isize);
        }
    }
    assert(scaled_tape(t, base, pairs, c).update(base, 0u8) =~= scaled_tape(t, base, full, c));
}


/// What the mul-loops pass emits in place of one instruction.
pub open spec fn mul_rewrite_head(i: InstrModel) -> Seq<InstrModel> {
    match i {
        InstrModel::Loop { body, position } => match recognize_spec(body) {
            Option::Some(pairs) => muls_of(pairs, position).push(InstrModel::Clear { position }),
            Option::None => seq![InstrModel::Loop { body: mul_loops_seq(body), position }],
        },
        other => seq![other],
    }
}

/// The mul-loops pass preserves every halting execution exactly: on any
/// program that runs to completion, the rewritten program reaches the
/// same final state under the same step budget.
#[verifier::spinoff_prover]
#[verifier::rlimit(60)]
pub proof fn lemma_mul_loops_preserves_halting(
    st: MachineState,
    s: Seq<InstrModel>,
    fuel: nat,
    r: MachineState,
)
    requires
        0 <= st.pos < st.tape.len(),
        run_seq_model(st, s, fuel) == Outcome::Halted(r),
    ensures
        run_seq_model(st, mul_loops_seq(s), fuel) == Outcome::Halted(r),
    decreases fuel, seq_size(s), 1nat,
{
    if s.len() == 0 {
        assert(mul_loops_seq(s) =~= Seq::<InstrModel>::empty());
    } else {
        assert(instr_size(s[0]) >= 1);
        let rest = s.subrange(1, s.len() as int);
        match run_instr_model(st, s[0], fuel) {
            Outcome::Halted(m) => {
                lemma_instr_preserves_bounds(st, s[0], fuel);
                lemma_mul_loops_preserves_halting_instr(st, s[0], fuel, m);
                lemma_mul_loops_preserves_halting(m, rest, fuel, r);
                lemma_run_seq_concat(st, mul_rewrite_head(s[0]), mul_loops_seq(rest), fuel);
                assert(mul_loops_seq(s) == mul_rewrite_head(s[0]) + mul_loops_seq(rest));
            },
            _ => {
                assert(false);
            },
        }
    }
}

/// The same preservation for one instruction against what the pass emits
/// for it.
#[verifier::spinoff_prover]
#[verifier::rlimit(60)]
#[verifier::spinoff_prover]
#[verifier::rlimit(60)]
proof fn lemma_mul_loops_preserves_halting_instr(
    st: MachineState,
    i: InstrModel,
    fuel: nat,
    r: MachineState,
)
    requires
        0 <= st.pos < st.tape.len(),
        run_instr_model(st, i, fuel) == Outcome::Halted(r),
    ensures
        run_seq_model(st, mul_rewrite_head(i), fuel) == Outcome::Halted(r),
    decreases fuel, instr_size(i), 0nat,
{
    match i {
        InstrModel::Loop { body, position } => {
            match recognize_spec(body) {
                Option::Some(pairs) => {
                    lemma_mul_rewrite_matches_loop(st, body, position, pairs, fuel, fuel, r);
                    assert(mul_rewrite_head(i) == muls_of(pairs, position).push(
                        InstrModel::Clear { position },
                    ));
                },
                Option::None => {
                    let rewritten = InstrModel::Loop { body: mul_loops_seq(body), position };
                    assert(run_instr_model(st, rewritten, fuel) == Outcome::Halted(r)) by {
                        if st.tape[st.pos] == 0 {
                        } else if fuel > 0 {
                            match run_seq_model(st, body, (fuel - 1) as nat) {
                                Outcome::Halted(m) => {
                                    lemma_seq_preserves_bounds(st, body, (fuel - 1) as nat);
                                    lemma_mul_loops_preserves_halting(
                                        st,
                                        body,
                                        (fuel - 1) as nat,
                                        m,
                                    );
                                    lemma_mul_loops_preserves_halting_instr(
                                        m,
                                        i,
                                        (fuel - 1) as nat,
                                        r,
                                    );
                                    assert(run_seq_model(m, seq![rewritten], (fuel - 1) as nat)
                                        == Outcome::Halted(r));
                                    assert(seq![rewritten].subrange(1, 1)
                                        =~= Seq::<InstrModel>::empty());
                                    match run_instr_model(m, rewritten, (fuel - 1) as nat) {
                                        Outcome::Halted(x) => {
                                            assert(run_seq_model(
                                                x,
                                                seq![rewritten].subrange(1, 1),
                                                (fuel - 1) as nat,
                                            ) == Outcome::Halted(x));
                                            assert(x == r);
                                        },
                                        _ => {
                                            assert(false);
                                        },
                                    }
                                },
                                _ => {
                                    assert(false);
                                },
                            }
                        } else {
                            assert(false);
                        }
                    }
                    assert(mul_rewrite_head(i) == seq![rewritten]);
                    assert(seq![rewritten][0] == rewritten);
                    assert(seq![rewritten].subrange(1, 1) =~= Seq::<InstrModel>::empty());
                    assert(run_seq_model(r, seq![rewritten].subrange(1, 1), fuel)
                        == Outcome::Halted(r));
                    assert(run_seq_model(st, seq![rewritten], fuel) == Outcome::Halted(r));
                },
            }
        },
        _ => {
            assert(mul_rewrite_head(i) == seq![i]);
            assert(seq![i].subrange(1, 1) =~= Seq::<InstrModel>::empty());
            assert(run_seq_model(r, seq![i].subrange(1, 1), fuel) == Outcome::Halted(r));
        },
    }
}


/// The collapse-increments pass preserves every halting execution
/// exactly: on any program that runs to completion, the fused program
/// reaches the same final state under the same step budget.
#[verifier::spinoff_prover]
#[verifier::rlimit(60)]
pub proof fn lemma_collapse_preserves_halting(
    st: MachineState,
    s: Seq<InstrModel>,
    fuel: nat,
    r: MachineState,
)
    requires
        0 <= st.pos < st.tape.len(),
        run_seq_model(st, s, fuel) == Outcome::Halted(r),
    ensures
        run_seq_model(st, collapse_seq(s), fuel) == Outcome::Halted(r),
    decreases fuel, seq_size(s), 2nat,
{
    if s.len() == 0 {
    } else {
        let rest = s.subrange(1, s.len() as int);
        assert(seq![s[0]] + rest =~= s);
        lemma_collapse_go_preserves_halting(st, s[0], rest, fuel, r);
    }
}

/// The greedy fusion walk preserves halting executions of the pending
/// instruction followed by the rest.
#[verifier::spinoff_prover]
#[verifier::rlimit(60)]
proof fn lemma_collapse_go_preserves_halting(
    st: MachineState,
    pending: InstrModel,
    rest: Seq<InstrModel>,
    fuel: nat,
    r: MachineState,
)
    requires
        0 <= st.pos < st.tape.len(),
        run_seq_model(st, seq![pending] + rest, fuel) == Outcome::Halted(r),
    ensures
        run_seq_model(st, collapse_go(pending, rest), fuel) == Outcome::Halted(r),
    decreases fuel, instr_size(pending) + seq_size(rest), 1nat,
{
    let whole = seq![pending] + rest;
    assert(whole[0] == pending);
    assert(whole.subrange(1, whole.len() as int) =~= rest);
    if rest.len() == 0 {
        match run_instr_model(st, pending, fuel) {
            Outcome::Halted(m) => {
                assert(run_seq_model(m, rest, fuel) == Outcome::Halted(m));
                lemma_collapse_into_preserves_halting(st, pending, fuel, m);
                let fin = seq![collapse_into(pending)];
                assert(fin[0] == collapse_into(pending));
                assert(fin.subrange(1, 1) =~= Seq::<InstrModel>::empty());
                assert(run_seq_model(m, fin.subrange(1, 1), fuel) == Outcome::Halted(m));
                assert(run_seq_model(st, fin, fuel) == Outcome::Halted(m));
            },
            _ => {
                assert(false);
            },
        }
    } else {
        assert(instr_size(rest[0]) >= 1);
        let rest1 = rest.subrange(1, rest.len() as int);
        if can_fuse(pending, rest[0]) {
            // The two heads run to the same state as the fused head.
            let two = seq![pending, rest[0]];
            assert(two + rest1 =~= whole);
            lemma_run_seq_concat(st, two, rest1, fuel);
            match run_seq_model(st, two, fuel) {
                Outcome::Halted(m2) => {
                    assert(run_instr_model(st, fuse(pending, rest[0]), fuel) == Outcome::Halted(
                        m2,
                    )) by {
                        match (pending, rest[0]) {
                            (
                                InstrModel::Add { amount: x, position: pa },
                                InstrModel::Add { amount: y, position: pb },
                            ) => {
                                lemma_fused_adds_match(
                                    st,
                                    x,
                                    y,
                                    pa,
                                    pb,
                                    pa.merge_spec(pb),
                                    fuel,
                                );
                                assert(two =~= seq![
                                    InstrModel::Add { amount: x, position: pa },
                                    InstrModel::Add { amount: y, position: pb },
                                ]);
                            },
                            (
                                InstrModel::Move { offset: x, position: pa },
                                InstrModel::Move { offset: y, position: pb },
                            ) => {
                                assert(two =~= seq![
                                    InstrModel::Move { offset: x, position: pa },
                                    InstrModel::Move { offset: y, position: pb },
                                ]);
                                lemma_fused_moves_match(
                                    st,
                                    x,
                                    y,
                                    pa,
                                    pb,
                                    pa.merge_spec(pb),
                                    fuel,
                                    m2,
                                );
                            },
                            (
                                InstrModel::Clear { position: pa },
                                InstrModel::Clear { position: pb },
                            ) => {
                                lemma_fused_clears_match(st, pa, pb, pa.merge_spec(pb), fuel);
                                assert(two =~= seq![
                                    InstrModel::Clear { position: pa },
                                    InstrModel::Clear { position: pb },
                                ]);
                            },
                            _ => {
                                assert(false);
                            },
                        }
                    }
                    let fused_whole = seq![fuse(pending, rest[0])] + rest1;
                    assert(fused_whole[0] == fuse(pending, rest[0]));
                    assert(fused_whole.subrange(1, fused_whole.len() as int) =~= rest1);
                    assert(run_seq_model(st, fused_whole, fuel) == Outcome::Halted(r));
                    assert(instr_size(fuse(pending, rest[0])) == 1);
                    lemma_collapse_go_preserves_halting(st, fuse(pending, rest[0]), rest1, fuel, r);
                },
                _ => {
                    assert(false);
                },
            }
        } else {
            match run_instr_model(st, pending, fuel) {
                Outcome::Halted(m) => {
                    lemma_instr_preserves_bounds(st, pending, fuel);
                    lemma_collapse_into_preserves_halting(st, pending, fuel, m);
                    assert(rest =~= seq![rest[0]] + rest1);
                    lemma_collapse_go_preserves_halting(m, rest[0], rest1, fuel, r);
                    lemma_run_seq_concat(
                        st,
                        seq![collapse_into(pending)],
                        collapse_go(rest[0], rest1),
                        fuel,
                    );
                    let fin = seq![collapse_into(pending)];
                    assert(fin[0] == collapse_into(pending));
                    assert(fin.subrange(1, 1) =~= Seq::<InstrModel>::empty());
                    assert(run_seq_model(m, fin.subrange(1, 1), fuel) == Outcome::Halted(m));
                    assert(run_seq_model(st, fin, fuel) == Outcome::Halted(m));
                },
                _ => {
                    assert(false);
                },
            }
        }
    }
}

/// Closing one instruction out of the walk preserves its halting
/// executions: a loop behaves as the same loop with a collapsed body.
#[verifier::spinoff_prover]
#[verifier::rlimit(60)]
proof fn lemma_collapse_into_preserves_halting(
    st: MachineState,
    i: InstrModel,
    fuel: nat,
    r: MachineState,
)
    requires
        0 <= st.pos < st.tape.len(),
        run_instr_model(st, i, fuel) == Outcome::Halted(r),
    ensures
        run_instr_model(st, collapse_into(i), fuel) == Outcome::Halted(r),
    decreases fuel, instr_size(i), 0nat,
{
    match i {
        InstrModel::Loop { body, position } => {
            let rewritten = InstrModel::Loop { body: collapse_seq(body), position };
            if st.tape[st.pos] == 0 {
            } else if fuel > 0 {
                match run_seq_model(st, body, (fuel - 1) as nat) {
                    Outcome::Halted(m) => {
                        lemma_seq_preserves_bounds(st, body, (fuel - 1) as nat);
                        lemma_collapse_preserves_halting(st, body, (fuel - 1) as nat, m);
                        lemma_collapse_into_preserves_halting(m, i, (fuel - 1) as nat, r);
                    },
                    _ => {
                        assert(false);
                    },
                }
            } else {
                assert(false);
            }
        },
        _ => {},
    }
}


/// Removing the null increments preserves every halting execution.
#[verifier::spinoff_prover]
#[verifier::rlimit(60)]
proof fn lemma_strip_nulls_preserves_halting(
    st: MachineState,
    s: Seq<InstrModel>,
    fuel: nat,
    r: MachineState,
)
    requires
        0 <= st.pos < st.tape.len(),
        run_seq_model(st, s, fuel) == Outcome::Halted(r),
    ensures
        run_seq_model(st, strip_nulls(s), fuel) == Outcome::Halted(r),
    decreases s.len(),
{
    if s.len() > 0 {
        let rest = s.subrange(1, s.len() as int);
        if is_null_increment(s[0]) {
            lemma_null_increment_noop(st, s[0].position(), fuel);
            assert(run_instr_model(st, s[0], fuel) == Outcome::Halted(st));
            lemma_strip_nulls_preserves_halting(st, rest, fuel, r);
        } else {
            match run_instr_model(st, s[0], fuel) {
                Outcome::Halted(m) => {
                    lemma_instr_preserves_bounds(st, s[0], fuel);
                    lemma_strip_nulls_preserves_halting(m, rest, fuel, r);
                    lemma_run_seq_concat(st, seq![s[0]], strip_nulls(rest), fuel);
                    assert(seq![s[0]].subrange(1, 1) =~= Seq::<InstrModel>::empty());
                    assert(run_seq_model(m, seq![s[0]].subrange(1, 1), fuel) == Outcome::Halted(
                        m,
                    ));
                    assert(run_seq_model(st, seq![s[0]], fuel) == Outcome::Halted(m));
                },
                _ => {
                    assert(false);
                },
            }
        }
    }
}

/// With the data pointer on a zero cell, dropping the leading loop-like
/// instructions preserves every halting execution: none of them can run.
#[verifier::spinoff_prover]
#[verifier::rlimit(60)]
proof fn lemma_skip_leading_preserves_halting(
    st: MachineState,
    s: Seq<InstrModel>,
    fuel: nat,
    r: MachineState,
)
    requires
        0 <= st.pos < st.tape.len(),
        st.tape[st.pos] == 0,
        run_seq_model(st, s, fuel) == Outcome::Halted(r),
    ensures
        run_seq_model(st, skip_leading_loops(s), fuel) == Outcome::Halted(r),
    decreases s.len(),
{
    if s.len() > 0 && s[0].is_loop() {
        lemma_loop_like_on_zero_cell_is_noop(st, s[0], fuel);
        assert(run_instr_model(st, s[0], fuel) == Outcome::Halted(st));
        lemma_skip_leading_preserves_halting(st, s.subrange(1, s.len() as int), fuel, r);
    }
}

/// Dropping each loop-like instruction that follows one that clears the
/// current cell preserves every halting execution: the cell is zero when
/// the dropped instruction is reached.
#[verifier::spinoff_prover]
#[verifier::rlimit(60)]
proof fn lemma_drop_after_clear_preserves_halting(
    st: MachineState,
    pending: InstrModel,
    rest: Seq<InstrModel>,
    fuel: nat,
    r: MachineState,
)
    requires
        0 <= st.pos < st.tape.len(),
        run_seq_model(st, seq![pending] + rest, fuel) == Outcome::Halted(r),
    ensures
        run_seq_model(st, drop_loops_after_clear(pending, rest), fuel) == Outcome::Halted(r),
    decreases rest.len(),
{
    let whole = seq![pending] + rest;
    assert(whole[0] == pending);
    assert(whole.subrange(1, whole.len() as int) =~= rest);
    if rest.len() == 0 {
        assert(drop_loops_after_clear(pending, rest) =~= whole);
    } else {
        let rest1 = rest.subrange(1, rest.len() as int);
        match run_instr_model(st, pending, fuel) {
            Outcome::Halted(m) => {
                lemma_instr_preserves_bounds(st, pending, fuel);
                if pending.clears_current_cell() && rest[0].is_loop() {
                    lemma_clearing_instruction_leaves_zero(st, pending, fuel, m);
                    lemma_loop_like_on_zero_cell_is_noop(m, rest[0], fuel);
                    assert(run_instr_model(m, rest[0], fuel) == Outcome::Halted(m));
                    assert(run_seq_model(m, rest, fuel) == run_seq_model(m, rest1, fuel));
                    let shorter = seq![pending] + rest1;
                    assert(shorter[0] == pending);
                    assert(shorter.subrange(1, shorter.len() as int) =~= rest1);
                    assert(run_seq_model(st, shorter, fuel) == Outcome::Halted(r));
                    lemma_drop_after_clear_preserves_halting(st, pending, rest1, fuel, r);
                } else {
                    assert(rest =~= seq![rest[0]] + rest1);
                    lemma_drop_after_clear_preserves_halting(m, rest[0], rest1, fuel, r);
                    lemma_run_seq_concat(
                        st,
                        seq![pending],
                        drop_loops_after_clear(rest[0], rest1),
                        fuel,
                    );
                    assert(seq![pending].subrange(1, 1) =~= Seq::<InstrModel>::empty());
                    assert(run_seq_model(m, seq![pending].subrange(1, 1), fuel)
                        == Outcome::Halted(m));
                    assert(run_seq_model(st, seq![pending], fuel) == Outcome::Halted(m));
                }
            },
            _ => {
                assert(false);
            },
        }
    }
}

/// The dead-code pass preserves every halting execution exactly. The
/// top-level form of the pass, which also drops the program's leading
/// loops, asks that the run start with the data pointer on a zero cell,
/// which is how every program starts on a fresh tape.
#[verifier::spinoff_prover]
#[verifier::rlimit(60)]
pub proof fn lemma_dead_code_preserves_halting(
    st: MachineState,
    s: Seq<InstrModel>,
    skip_initial: bool,
    fuel: nat,
    r: MachineState,
)
    requires
        0 <= st.pos < st.tape.len(),
        skip_initial ==> st.tape[st.pos] == 0,
        run_seq_model(st, s, fuel) == Outcome::Halted(r),
    ensures
        run_seq_model(st, dead_code_seq(s, skip_initial), fuel) == Outcome::Halted(r),
    decreases fuel, seq_size(s), 2nat,
{
    lemma_strip_nulls_size(s);
    let stripped = strip_nulls(s);
    lemma_skip_leading_size(stripped);
    let skipped = if skip_initial {
        skip_leading_loops(stripped)
    } else {
        stripped
    };
    lemma_fuse_dead_loops_size(skipped);
    lemma_strip_nulls_preserves_halting(st, s, fuel, r);
    if skip_initial {
        lemma_skip_leading_preserves_halting(st, stripped, fuel, r);
    }
    if skipped.len() == 0 {
        assert(fuse_dead_loops(skipped) == skipped);
        assert(recurse_dead(fuse_dead_loops(skipped)) =~= Seq::<InstrModel>::empty());
    } else {
        assert(seq![skipped[0]] + skipped.subrange(1, skipped.len() as int) =~= skipped);
        lemma_drop_after_clear_preserves_halting(
            st,
            skipped[0],
            skipped.subrange(1, skipped.len() as int),
            fuel,
            r,
        );
    }
    lemma_recurse_dead_preserves_halting(st, fuse_dead_loops(skipped), fuel, r);
}

/// Rewriting the bodies of the surviving loops preserves every halting
/// execution.
#[verifier::spinoff_prover]
#[verifier::rlimit(60)]
proof fn lemma_recurse_dead_preserves_halting(
    st: MachineState,
    s: Seq<InstrModel>,
    fuel: nat,
    r: MachineState,
)
    requires
        0 <= st.pos < st.tape.len(),
        run_seq_model(st, s, fuel) == Outcome::Halted(r),
    ensures
        run_seq_model(st, recurse_dead(s), fuel) == Outcome::Halted(r),
    decreases fuel, seq_size(s), 1nat,
{
    if s.len() > 0 {
        assert(instr_size(s[0]) >= 1);
        let rest = s.subrange(1, s.len() as int);
        match run_instr_model(st, s[0], fuel) {
            Outcome::Halted(m) => {
                lemma_instr_preserves_bounds(st, s[0], fuel);
                lemma_dead_one_preserves_halting(st, s[0], fuel, m);
                lemma_recurse_dead_preserves_halting(m, rest, fuel, r);
                lemma_run_seq_concat(st, seq![dead_one(s[0])], recurse_dead(rest), fuel);
                assert(seq![dead_one(s[0])].subrange(1, 1) =~= Seq::<InstrModel>::empty());
                assert(run_seq_model(m, seq![dead_one(s[0])].subrange(1, 1), fuel)
                    == Outcome::Halted(m));
                assert(run_seq_model(st, seq![dead_one(s[0])], fuel) == Outcome::Halted(m));
            },
            _ => {
                assert(false);
            },
        }
    }
}

/// Rewriting one surviving instruction preserves its halting executions:
/// a loop behaves as the same loop with a cleaned body.
#[verifier::spinoff_prover]
#[verifier::rlimit(60)]
proof fn lemma_dead_one_preserves_halting(
    st: MachineState,
    i: InstrModel,
    fuel: nat,
    r: MachineState,
)
    requires
        0 <= st.pos < st.tape.len(),
        run_instr_model(st, i, fuel) == Outcome::Halted(r),
    ensures
        run_instr_model(st, dead_one(i), fuel) == Outcome::Halted(r),
    decreases fuel, instr_size(i), 0nat,
{
    match i {
        InstrModel::Loop { body, position } => {
            if st.tape[st.pos] == 0 {
            } else if fuel > 0 {
                match run_seq_model(st, body, (fuel - 1) as nat) {
                    Outcome::Halted(m) => {
                        lemma_seq_preserves_bounds(st, body, (fuel - 1) as nat);
                        lemma_dead_code_preserves_halting(st, body, false, (fuel - 1) as nat, m);
                        lemma_dead_one_preserves_halting(m, i, (fuel - 1) as nat, r);
                    },
                    _ => {
                        assert(false);
                    },
                }
            } else {
                assert(false);
            }
        },
        _ => {},
    }
}


/// A halting run of the idiom loop `[-]` ends with the current cell
/// cleared and nothing else changed, so `Clear` reaches the same state
/// under any budget.
#[verifier::spinoff_prover]
#[verifier::rlimit(60)]
proof fn lemma_clear_idiom_halted(
    st: MachineState,
    p1: Position,
    p2: Position,
    p3: Position,
    fuel: nat,
    fuel2: nat,
    r: MachineState,
)
    requires
        0 <= st.pos < st.tape.len(),
        run_instr_model(
            st,
            InstrModel::Loop {
                body: seq![InstrModel::Add { amount: 255u8, position: p1 }],
                position: p2,
            },
            fuel,
        ) == Outcome::Halted(r),
    ensures
        run_instr_model(st, InstrModel::Clear { position: p3 }, fuel2) == Outcome::Halted(r),
    decreases st.tape[st.pos],
{
    let body = seq![InstrModel::Add { amount: 255u8, position: p1 }];
    let lp = InstrModel::Loop { body, position: p2 };
    let c = st.tape[st.pos];
    if c == 0 {
        assert(r == st);
        assert(st.tape.update(st.pos, 0u8) =~= st.tape);
        assert((MachineState { tape: st.tape.update(st.pos, 0u8), ..st }) =~= st);
    } else if fuel > 0 {
        let mid = MachineState {
            tape: st.tape.update(st.pos, byte_add(st.tape[st.pos], 255u8)),
            ..st
        };
        assert(run_seq_model(st, body, (fuel - 1) as nat) == Outcome::Halted(mid)) by {
            assert(body[0] == (InstrModel::Add { amount: 255u8, position: p1 }));
            assert(run_instr_model(st, body[0], (fuel - 1) as nat) == Outcome::Halted(mid));
            let tail = body.subrange(1, 1);
            assert(tail =~= Seq::<InstrModel>::empty());
            assert(run_seq_model(mid, tail, (fuel - 1) as nat) == Outcome::Halted(mid));
        }
        assert(mid.tape[mid.pos] == c - 1);
        assert(run_instr_model(mid, lp, (fuel - 1) as nat) == Outcome::Halted(r));
        lemma_clear_idiom_halted(mid, p1, p2, p3, (fuel - 1) as nat, fuel2, r);
        assert(mid.tape.update(mid.pos, 0u8) =~= st.tape.update(st.pos, 0u8));
        assert((MachineState { tape: mid.tape.update(mid.pos, 0u8), ..mid }) =~= (MachineState {
            tape: st.tape.update(st.pos, 0u8),
            ..st
        }));
    } else {
        assert(false);
    }
}

/// What the clear-loops pass emits in place of one instruction.
pub open spec fn clear_rewrite_head(i: InstrModel) -> InstrModel {
    match i {
        InstrModel::Loop { body, position } => {
            if is_clear_idiom(body) {
                InstrModel::Clear { position }
            } else {
                InstrModel::Loop { body: clear_loops_seq(body), position }
            }
        },
        other => other,
    }
}

/// The clear-loops pass preserves every halting execution exactly: on
/// any program that runs to completion, the rewritten program reaches the
/// same final state under the same step budget.
#[verifier::spinoff_prover]
#[verifier::rlimit(60)]
pub proof fn lemma_clear_loops_preserves_halting(
    st: MachineState,
    s: Seq<InstrModel>,
    fuel: nat,
    r: MachineState,
)
    requires
        0 <= st.pos < st.tape.len(),
        run_seq_model(st, s, fuel) == Outcome::Halted(r),
    ensures
        run_seq_model(st, clear_loops_seq(s), fuel) == Outcome::Halted(r),
    decreases fuel, seq_size(s), 1nat,
{
    if s.len() == 0 {
        assert(clear_loops_seq(s) =~= Seq::<InstrModel>::empty());
    } else {
        assert(instr_size(s[0]) >= 1);
        let rest = s.subrange(1, s.len() as int);
        match run_instr_model(st, s[0], fuel) {
            Outcome::Halted(m) => {
                lemma_instr_preserves_bounds(st, s[0], fuel);
                lemma_clear_one_preserves_halting(st, s[0], fuel, m);
                lemma_clear_loops_preserves_halting(m, rest, fuel, r);
                lemma_run_seq_concat(st, seq![clear_rewrite_head(s[0])], clear_loops_seq(rest), fuel);
                assert(seq![clear_rewrite_head(s[0])].subrange(1, 1)
                    =~= Seq::<InstrModel>::empty());
                assert(run_seq_model(m, seq![clear_rewrite_head(s[0])].subrange(1, 1), fuel)
                    == Outcome::Halted(m));
                assert(run_seq_model(st, seq![clear_rewrite_head(s[0])], fuel)
                    == Outcome::Halted(m));
            },
            _ => {
                assert(false);
            },
        }
    }
}

/// The same preservation for one instruction against what the pass emits
/// for it.
#[verifier::spinoff_prover]
#[verifier::rlimit(60)]
proof fn lemma_clear_one_preserves_halting(
    st: MachineState,
    i: InstrModel,
    fuel: nat,
    r: MachineState,
)
    requires
        0 <= st.pos < st.tape.len(),
        run_instr_model(st, i, fuel) == Outcome::Halted(r),
    ensures
        run_instr_model(st, clear_rewrite_head(i), fuel) == Outcome::Halted(r),
    decreases fuel, instr_size(i), 0nat,
{
    match i {
        InstrModel::Loop { body, position } => {
            if is_clear_idiom(body) {
                assert(body =~= seq![
                    InstrModel::Add { amount: 255u8, position: body[0].position() },
                ]) by {
                    assert(body[0] matches InstrModel::Add { amount: 255u8, .. });
                }
                lemma_clear_idiom_halted(
                    st,
                    body[0].position(),
                    position,
                    position,
                    fuel,
                    fuel,
                    r,
                );
            } else {
                let rewritten = InstrModel::Loop { body: clear_loops_seq(body), position };
                if st.tape[st.pos] == 0 {
                } else if fuel > 0 {
                    match run_seq_model(st, body, (fuel - 1) as nat) {
                        Outcome::Halted(m) => {
                            lemma_seq_preserves_bounds(st, body, (fuel - 1) as nat);
                            lemma_clear_loops_preserves_halting(st, body, (fuel - 1) as nat, m);
                            lemma_clear_one_preserves_halting(m, i, (fuel - 1) as nat, r);
                        },
                        _ => {
                            assert(false);
                        },
                    }
                } else {
                    assert(false);
                }
            }
        },
        _ => {},
    }
}

} // verus!
