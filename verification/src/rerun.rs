//! Matching again after `reset`: the stacks of the `UNTIL` operations that `reset` leaves
//! behind are never read by the next match, which runs as it would on a fresh state.
use vstd::prelude::*;
use crate::constants::{SreOpcode, opcode_of};
use crate::state::{
    Env, Machine, Drive, MatchContext, Handler, RepeatOneContext, MinUntilContext,
    MaxUntilContext, spec_marks_push, spec_marks_pop_keep,
};
use crate::drive::{
    spec_skip_char, spec_back_skip_char, spec_sync, spec_peek_code, spec_remaining_chars,
    spec_skip_code, spec_can_success, spec_remaining_codes,
};
use crate::ops_spec::{
    spec_dispatch, spec_handle, spec_count, spec_general_count, spec_general_count_loop,
    spec_op_repeat_one, spec_op_min_repeat_one, spec_repeat_one_seek, spec_repeat_one_create,
    spec_repeat_one_uncount, spec_op_literal, spec_op_in, spec_op_groupref,
    spec_op_groupref_exists, spec_op_mark, spec_op_assert, spec_op_assert_not, spec_op_branch,
    spec_op_repeat, spec_op_min_until, spec_min_until_body, spec_min_until_tail,
    spec_min_repeat_one_callback, spec_repeat_one_callback, LiteralKind, InKind, GroupKind,
    spec_run_context, spec_step, pop_seq,
};
use crate::in_step::seek_goes_back;
use crate::engine::{
    run, halts, match_terminates, match_result, with_first_context, fresh_machine, spec_reset,
    start_offset, lemma_run_fuel,
};

verus! {

/// The machine `m` with the entries `mu` and `xu` lying below its `UNTIL` stacks.
pub open spec fn under(m: Machine, mu: Seq<MinUntilContext>, xu: Seq<MaxUntilContext>) -> Machine {
    Machine {
        min_until_stack: mu + m.min_until_stack,
        max_until_stack: xu + m.max_until_stack,
        ..m
    }
}

/// The drive `d` with the entries `mu` and `xu` lying below its `UNTIL` stacks.
pub open spec fn under_d(d: Drive, mu: Seq<MinUntilContext>, xu: Seq<MaxUntilContext>) -> Drive {
    Drive { m: under(d.m, mu, xu), ..d }
}

/// The run of an operation from `d` gives `r`; from `d` with entries below its `UNTIL`
/// stacks, it gives `r` with the same entries below.
pub open spec fn lifts(
    r: Option<Drive>,
    r2: Option<Drive>,
    mu: Seq<MinUntilContext>,
    xu: Seq<MaxUntilContext>,
) -> bool {
    r is Some ==> r2 == Some(under_d(r.unwrap(), mu, xu))
}

proof fn lemma_op_literal_lifts(
    e: Env,
    d: Drive,
    kind: LiteralKind,
    mu: Seq<MinUntilContext>,
    xu: Seq<MaxUntilContext>,
)
    ensures
        lifts(spec_op_literal(e, d, kind), spec_op_literal(e, under_d(d, mu, xu), kind), mu, xu),
{
}

proof fn lemma_op_in_lifts(
    e: Env,
    d: Drive,
    kind: InKind,
    mu: Seq<MinUntilContext>,
    xu: Seq<MaxUntilContext>,
)
    ensures
        lifts(spec_op_in(e, d, kind), spec_op_in(e, under_d(d, mu, xu), kind), mu, xu),
{
}

proof fn lemma_op_groupref_lifts(
    e: Env,
    d: Drive,
    kind: GroupKind,
    mu: Seq<MinUntilContext>,
    xu: Seq<MaxUntilContext>,
)
    ensures
        lifts(spec_op_groupref(e, d, kind), spec_op_groupref(e, under_d(d, mu, xu), kind), mu, xu),
{
}

proof fn lemma_op_misc_lifts(e: Env, d: Drive, mu: Seq<MinUntilContext>, xu: Seq<MaxUntilContext>)
    ensures
        lifts(spec_op_groupref_exists(e, d), spec_op_groupref_exists(e, under_d(d, mu, xu)), mu, xu),
        lifts(spec_op_mark(e, d), spec_op_mark(e, under_d(d, mu, xu)), mu, xu),
        lifts(spec_op_assert(e, d), spec_op_assert(e, under_d(d, mu, xu)), mu, xu),
        lifts(spec_op_assert_not(e, d), spec_op_assert_not(e, under_d(d, mu, xu)), mu, xu),
        lifts(spec_op_branch(e, d), spec_op_branch(e, under_d(d, mu, xu)), mu, xu),
        lifts(spec_op_repeat(e, d), spec_op_repeat(e, under_d(d, mu, xu)), mu, xu),
{
}

/// Pushing onto, reading, updating and popping the top of a stack with entries below it
/// acts on its own part only, where that part is not empty.
proof fn lemma_stack_under<T>(mu: Seq<T>)
    ensures
        forall|s: Seq<T>, x: T| #[trigger] (mu + s).push(x) == mu + s.push(x),
        forall|s: Seq<T>| s.len() > 0 ==> #[trigger] (mu + s).last() == s.last(),
        forall|s: Seq<T>| s.len() > 0 ==> #[trigger] pop_seq(mu + s) == mu + pop_seq(s),
        forall|s: Seq<T>| s.len() > 0 ==> #[trigger] (mu + s).drop_last() == mu + s.drop_last(),
        forall|s: Seq<T>, x: T|
            s.len() > 0 ==> #[trigger] (mu + s).update(mu.len() + s.len() - 1, x) == mu + s.update(
                s.len() - 1,
                x,
            ),
{
    assert forall|s: Seq<T>, x: T| #[trigger] (mu + s).push(x) == mu + s.push(x) by {
        assert((mu + s).push(x) =~= mu + s.push(x));
    }
    assert forall|s: Seq<T>| s.len() > 0 implies #[trigger] pop_seq(mu + s) == mu + pop_seq(s) by {
        assert((mu + s).drop_last() =~= mu + s.drop_last());
    }
    assert forall|s: Seq<T>| s.len() > 0 implies #[trigger] (mu + s).drop_last() == mu
        + s.drop_last() by {
        assert((mu + s).drop_last() =~= mu + s.drop_last());
    }
    assert forall|s: Seq<T>, x: T| s.len() > 0 implies #[trigger] (mu + s).update(
        mu.len() + s.len() - 1,
        x,
    ) == mu + s.update(s.len() - 1, x) by {
        assert((mu + s).update(mu.len() + s.len() - 1, x) =~= mu + s.update(s.len() - 1, x));
    }
}

proof fn lemma_min_until_lifts(e: Env, d: Drive, mu: Seq<MinUntilContext>, xu: Seq<MaxUntilContext>)
    ensures
        lifts(spec_op_min_until(e, d), spec_op_min_until(e, under_d(d, mu, xu)), mu, xu),
        lifts(spec_min_until_body(d), spec_min_until_body(under_d(d, mu, xu)), mu, xu),
        lifts(spec_min_until_tail(d), spec_min_until_tail(under_d(d, mu, xu)), mu, xu),
{
    lemma_stack_under(mu);
}

proof fn lemma_simple_lifts(
    e: Env,
    op: SreOpcode,
    d: Drive,
    mu: Seq<MinUntilContext>,
    xu: Seq<MaxUntilContext>,
)
    requires
        op == SreOpcode::FAILURE || op == SreOpcode::SUCCESS || op == SreOpcode::ANY || op
            == SreOpcode::ANY_ALL || op == SreOpcode::AT || op == SreOpcode::CATEGORY || op
            == SreOpcode::INFO || op == SreOpcode::JUMP,
    ensures
        lifts(spec_dispatch(e, op, d), spec_dispatch(e, op, under_d(d, mu, xu)), mu, xu),
{
}

proof fn lemma_seek_lifts(
    e: Env,
    d: Drive,
    count: usize,
    min_count: usize,
    ch: u32,
    mu: Seq<MinUntilContext>,
    xu: Seq<MaxUntilContext>,
)
    requires
        spec_repeat_one_seek(e, d, count, min_count, ch) is Some,
    ensures
        spec_repeat_one_seek(e, under_d(d, mu, xu), count, min_count, ch) == Some(
            (
                under_d(spec_repeat_one_seek(e, d, count, min_count, ch).unwrap().0, mu, xu),
                spec_repeat_one_seek(e, d, count, min_count, ch).unwrap().1,
            ),
        ),
    decreases d.ctx.string_position,
{
    if seek_goes_back(e, d, ch) == Some(true) && count > min_count {
        let c2 = spec_back_skip_char(e, d.ctx, 1).unwrap();
        let m2 = spec_repeat_one_uncount(d.m).unwrap();
        assert(spec_repeat_one_uncount(under(d.m, mu, xu)) == Some(under(m2, mu, xu)));
        lemma_seek_lifts(e, Drive { m: m2, ctx: c2, ..d }, count, min_count, ch, mu, xu);
    }
}

proof fn lemma_repeat_one_create_lifts(
    e: Env,
    d: Drive,
    mu: Seq<MinUntilContext>,
    xu: Seq<MaxUntilContext>,
)
    requires
        spec_repeat_one_create(e, d) is Some,
    ensures
        spec_repeat_one_create(e, under_d(d, mu, xu)) == Some(
            under_d(spec_repeat_one_create(e, d).unwrap(), mu, xu),
        ),
{
    let r = d.m.repeat_one_stack.last();
    if let Some(ch) = r.following_literal {
        lemma_seek_lifts(e, d, r.count, r.min_count, ch, mu, xu);
    }
}

proof fn lemma_dispatch_lifts(
    e: Env,
    op: SreOpcode,
    d: Drive,
    mu: Seq<MinUntilContext>,
    xu: Seq<MaxUntilContext>,
)
    requires
        spec_dispatch(e, op, d) is Some,
    ensures
        spec_dispatch(e, op, under_d(d, mu, xu)) == Some(
            under_d(spec_dispatch(e, op, d).unwrap(), mu, xu),
        ),
    decreases e.pattern.len() - d.ctx.code_position, 5int, 0int,
{
    match op {
        SreOpcode::GROUPREF_EXISTS | SreOpcode::MARK | SreOpcode::ASSERT | SreOpcode::ASSERT_NOT
        | SreOpcode::BRANCH | SreOpcode::REPEAT => lemma_op_misc_lifts(e, d, mu, xu),
        SreOpcode::FAILURE | SreOpcode::SUCCESS | SreOpcode::ANY | SreOpcode::ANY_ALL
        | SreOpcode::AT | SreOpcode::CATEGORY | SreOpcode::INFO | SreOpcode::JUMP => {
            lemma_simple_lifts(e, op, d, mu, xu)
        },
        SreOpcode::REPEAT_ONE => lemma_op_repeat_one_lifts(e, d, mu, xu),
        SreOpcode::MIN_REPEAT_ONE => lemma_op_min_repeat_one_lifts(e, d, mu, xu),
        SreOpcode::MIN_UNTIL => lemma_min_until_lifts(e, d, mu, xu),
        SreOpcode::IN => lemma_op_in_lifts(e, d, InKind::Plain, mu, xu),
        SreOpcode::IN_IGNORE => lemma_op_in_lifts(e, d, InKind::Ignore, mu, xu),
        SreOpcode::IN_UNI_IGNORE => lemma_op_in_lifts(e, d, InKind::UniIgnore, mu, xu),
        SreOpcode::IN_LOC_IGNORE => lemma_op_in_lifts(e, d, InKind::LocIgnore, mu, xu),
        SreOpcode::LITERAL => lemma_op_literal_lifts(e, d, LiteralKind::Eq, mu, xu),
        SreOpcode::NOT_LITERAL => lemma_op_literal_lifts(e, d, LiteralKind::NotEq, mu, xu),
        SreOpcode::LITERAL_IGNORE => lemma_op_literal_lifts(e, d, LiteralKind::EqIgnore, mu, xu),
        SreOpcode::NOT_LITERAL_IGNORE => lemma_op_literal_lifts(
            e,
            d,
            LiteralKind::NotEqIgnore,
            mu,
            xu,
        ),
        SreOpcode::LITERAL_UNI_IGNORE => lemma_op_literal_lifts(
            e,
            d,
            LiteralKind::EqUniIgnore,
            mu,
            xu,
        ),
        SreOpcode::NOT_LITERAL_UNI_IGNORE => lemma_op_literal_lifts(
            e,
            d,
            LiteralKind::NotEqUniIgnore,
            mu,
            xu,
        ),
        SreOpcode::LITERAL_LOC_IGNORE => lemma_op_literal_lifts(
            e,
            d,
            LiteralKind::LocIgnore,
            mu,
            xu,
        ),
        SreOpcode::NOT_LITERAL_LOC_IGNORE => lemma_op_literal_lifts(
            e,
            d,
            LiteralKind::NotLocIgnore,
            mu,
            xu,
        ),
        SreOpcode::GROUPREF => lemma_op_groupref_lifts(e, d, GroupKind::Plain, mu, xu),
        SreOpcode::GROUPREF_IGNORE => lemma_op_groupref_lifts(e, d, GroupKind::Ignore, mu, xu),
        SreOpcode::GROUPREF_LOC_IGNORE => lemma_op_groupref_lifts(
            e,
            d,
            GroupKind::LocIgnore,
            mu,
            xu,
        ),
        SreOpcode::GROUPREF_UNI_IGNORE => lemma_op_groupref_lifts(
            e,
            d,
            GroupKind::UniIgnore,
            mu,
            xu,
        ),
        _ => {},
    }
}

proof fn lemma_op_repeat_one_lifts(
    e: Env,
    d: Drive,
    mu: Seq<MinUntilContext>,
    xu: Seq<MaxUntilContext>,
)
    requires
        spec_op_repeat_one(e, d) is Some,
    ensures
        spec_op_repeat_one(e, under_d(d, mu, xu)) == Some(
            under_d(spec_op_repeat_one(e, d).unwrap(), mu, xu),
        ),
    decreases e.pattern.len() - d.ctx.code_position, 4int, 0int,
{
    let max_count = spec_peek_code(e, d.ctx, 3).unwrap() as usize;
    let min_count = spec_peek_code(e, d.ctx, 2).unwrap() as usize;
    if spec_remaining_chars(e, d.ctx).unwrap() >= min_count {
        lemma_count_lifts(e, spec_sync(d), max_count, mu, xu);
        assert(spec_sync(under_d(d, mu, xu)) == under_d(spec_sync(d), mu, xu));
        let (d1, count) = spec_count(e, spec_sync(d), max_count).unwrap();
        let c2 = spec_skip_char(e, d1.ctx, count).unwrap();
        if count >= min_count {
            let d2 = Drive { ctx: c2, ..d1 };
            let skip = spec_peek_code(e, d2.ctx, 1).unwrap();
            let next_code = spec_peek_code(e, d2.ctx, (skip + 1) as usize).unwrap();
            if !(next_code == 1 && spec_can_success(e, d2.ctx)) {
                let following_literal: Option<u32> = if next_code == 16 {
                    Some(spec_peek_code(e, d2.ctx, (skip + 2) as usize).unwrap())
                } else {
                    None
                };
                let m = spec_marks_push(d2.m);
                let d3 = Drive {
                    m: Machine {
                        repeat_one_stack: m.repeat_one_stack.push(
                            RepeatOneContext { count, min_count, max_count, following_literal },
                        ),
                        ..m
                    },
                    ctx: MatchContext { handler: Some(Handler::RepeatOneCreate), ..d2.ctx },
                    ..d2
                };
                lemma_repeat_one_create_lifts(e, d3, mu, xu);
            }
        }
    }
}

proof fn lemma_op_min_repeat_one_lifts(
    e: Env,
    d: Drive,
    mu: Seq<MinUntilContext>,
    xu: Seq<MaxUntilContext>,
)
    requires
        spec_op_min_repeat_one(e, d) is Some,
    ensures
        spec_op_min_repeat_one(e, under_d(d, mu, xu)) == Some(
            under_d(spec_op_min_repeat_one(e, d).unwrap(), mu, xu),
        ),
    decreases e.pattern.len() - d.ctx.code_position, 4int, 0int,
{
    let min_count = spec_peek_code(e, d.ctx, 2).unwrap() as usize;
    assert(spec_sync(under_d(d, mu, xu)) == under_d(spec_sync(d), mu, xu));
    if spec_remaining_chars(e, d.ctx).unwrap() >= min_count && min_count != 0 {
        lemma_count_lifts(e, spec_sync(d), min_count, mu, xu);
    }
}

proof fn lemma_count_lifts(
    e: Env,
    d: Drive,
    maxcount: usize,
    mu: Seq<MinUntilContext>,
    xu: Seq<MaxUntilContext>,
)
    requires
        spec_count(e, d, maxcount) is Some,
    ensures
        spec_count(e, under_d(d, mu, xu), maxcount) == Some(
            (
                under_d(spec_count(e, d, maxcount).unwrap().0, mu, xu),
                spec_count(e, d, maxcount).unwrap().1,
            ),
        ),
    decreases e.pattern.len() - d.ctx.code_position, 3int, 0int,
{
    let rc = spec_remaining_chars(e, d.ctx).unwrap();
    let max = if maxcount <= rc { maxcount } else { rc };
    if spec_count(e, d, maxcount) == spec_general_count(e, d, max) {
        lemma_general_count_lifts(e, d, max, mu, xu);
    }
}

proof fn lemma_general_count_lifts(
    e: Env,
    d: Drive,
    maxcount: usize,
    mu: Seq<MinUntilContext>,
    xu: Seq<MaxUntilContext>,
)
    requires
        spec_general_count(e, d, maxcount) is Some,
    ensures
        spec_general_count(e, under_d(d, mu, xu), maxcount) == Some(
            (
                under_d(spec_general_count(e, d, maxcount).unwrap().0, mu, xu),
                spec_general_count(e, d, maxcount).unwrap().1,
            ),
        ),
    decreases e.pattern.len() - d.ctx.code_position, 2int, 0int,
{
    let rc = spec_remaining_chars(e, d.ctx).unwrap();
    let max = if maxcount <= rc { maxcount } else { rc };
    let c1 = spec_skip_code(d.ctx, 4).unwrap();
    lemma_general_count_loop_lifts(e, Drive { ctx: c1, ..d }, c1.code_position, 0, max, mu, xu);
}

proof fn lemma_general_count_loop_lifts(
    e: Env,
    d: Drive,
    reset: usize,
    count: usize,
    maxcount: usize,
    mu: Seq<MinUntilContext>,
    xu: Seq<MaxUntilContext>,
)
    requires
        spec_general_count_loop(e, d, reset, count, maxcount) is Some,
    ensures
        spec_general_count_loop(e, under_d(d, mu, xu), reset, count, maxcount) == Some(
            (
                under_d(spec_general_count_loop(e, d, reset, count, maxcount).unwrap().0, mu, xu),
                spec_general_count_loop(e, d, reset, count, maxcount).unwrap().1,
            ),
        ),
    decreases e.pattern.len() - reset + 4, 1int, maxcount - count,
{
    if count < maxcount {
        let d1 = Drive { ctx: MatchContext { code_position: reset, ..d.ctx }, ..d };
        let op = opcode_of(spec_peek_code(e, d1.ctx, 0).unwrap()).unwrap();
        lemma_dispatch_lifts(e, op, d1, mu, xu);
        let d2 = spec_dispatch(e, op, d1).unwrap();
        if d2.ctx.has_matched != Some(false) {
            lemma_general_count_loop_lifts(e, d2, reset, (count + 1) as usize, maxcount, mu, xu);
        }
    }
}

proof fn lemma_simple_handlers_lifts(
    e: Env,
    d: Drive,
    mu: Seq<MinUntilContext>,
    xu: Seq<MaxUntilContext>,
)
    ensures
        lifts(
            spec_handle(e, Handler::AssertDone, d),
            spec_handle(e, Handler::AssertDone, under_d(d, mu, xu)),
            mu,
            xu,
        ),
        lifts(
            spec_handle(e, Handler::AssertNotDone, d),
            spec_handle(e, Handler::AssertNotDone, under_d(d, mu, xu)),
            mu,
            xu,
        ),
        lifts(
            spec_handle(e, Handler::BranchCreate, d),
            spec_handle(e, Handler::BranchCreate, under_d(d, mu, xu)),
            mu,
            xu,
        ),
        lifts(
            spec_handle(e, Handler::BranchCallback, d),
            spec_handle(e, Handler::BranchCallback, under_d(d, mu, xu)),
            mu,
            xu,
        ),
        lifts(
            spec_handle(e, Handler::MinRepeatOneCreate, d),
            spec_handle(e, Handler::MinRepeatOneCreate, under_d(d, mu, xu)),
            mu,
            xu,
        ),
        lifts(
            spec_handle(e, Handler::RepeatDone, d),
            spec_handle(e, Handler::RepeatDone, under_d(d, mu, xu)),
            mu,
            xu,
        ),
{
}

proof fn lemma_repeat_one_callback_lifts(
    e: Env,
    d: Drive,
    mu: Seq<MinUntilContext>,
    xu: Seq<MaxUntilContext>,
)
    requires
        spec_repeat_one_callback(e, d) is Some,
    ensures
        spec_repeat_one_callback(e, under_d(d, mu, xu)) == Some(
            under_d(spec_repeat_one_callback(e, d).unwrap(), mu, xu),
        ),
{
    let child = d.m.popped_context.unwrap();
    if child.has_matched != Some(true) && d.m.repeat_one_stack.len() > 0 {
        let r = d.m.repeat_one_stack.last();
        if r.count > r.min_count {
            let c2 = spec_back_skip_char(e, d.ctx, 1).unwrap();
            let m2 = spec_repeat_one_uncount(d.m).unwrap();
            let m3 = spec_marks_pop_keep(m2).unwrap();
            assert(spec_repeat_one_uncount(under(d.m, mu, xu)) == Some(under(m2, mu, xu)));
            assert(spec_marks_pop_keep(under(m2, mu, xu)) == Some(under(m3, mu, xu)));
            lemma_repeat_one_create_lifts(
                e,
                Drive {
                    m: m3,
                    ctx: MatchContext { handler: Some(Handler::RepeatOneCreate), ..c2 },
                    ..d
                },
                mu,
                xu,
            );
        }
    }
}

proof fn lemma_min_repeat_one_callback_lifts(
    e: Env,
    d: Drive,
    mu: Seq<MinUntilContext>,
    xu: Seq<MaxUntilContext>,
)
    requires
        spec_min_repeat_one_callback(e, d) is Some,
    ensures
        spec_min_repeat_one_callback(e, under_d(d, mu, xu)) == Some(
            under_d(spec_min_repeat_one_callback(e, d).unwrap(), mu, xu),
        ),
{
    let child = d.m.popped_context.unwrap();
    assert(spec_sync(under_d(d, mu, xu)) == under_d(spec_sync(d), mu, xu));
    if child.has_matched != Some(true) {
        lemma_count_lifts(e, spec_sync(d), 1, mu, xu);
    }
}

proof fn lemma_handle_lifts(
    e: Env,
    h: Handler,
    d: Drive,
    mu: Seq<MinUntilContext>,
    xu: Seq<MaxUntilContext>,
)
    requires
        spec_handle(e, h, d) is Some,
    ensures
        spec_handle(e, h, under_d(d, mu, xu)) == Some(under_d(spec_handle(e, h, d).unwrap(), mu, xu)),
{
    match h {
        Handler::RepeatOneCreate => lemma_repeat_one_create_lifts(e, d, mu, xu),
        Handler::RepeatOneCallback => lemma_repeat_one_callback_lifts(e, d, mu, xu),
        Handler::MinRepeatOneCallback => lemma_min_repeat_one_callback_lifts(e, d, mu, xu),
        Handler::MinUntilBody | Handler::MinUntilTail => lemma_min_until_lifts(e, d, mu, xu),
        _ => lemma_simple_handlers_lifts(e, d, mu, xu),
    }
}

/// No operation, and no resumed context, reads the entries below what the current match put
/// on the `UNTIL` stacks: run from a drive with more entries below, it does the same.
pub proof fn lemma_run_context_lifts(
    e: Env,
    d: Drive,
    mu: Seq<MinUntilContext>,
    xu: Seq<MaxUntilContext>,
)
    requires
        spec_run_context(e, d) is Some,
    ensures
        spec_run_context(e, under_d(d, mu, xu)) == Some(
            under_d(spec_run_context(e, d).unwrap(), mu, xu),
        ),
{
    reveal(spec_run_context);
    match d.ctx.handler {
        Some(h) => lemma_handle_lifts(e, h, d, mu, xu),
        None => {
            if spec_remaining_codes(e, d.ctx) matches Some(rc) && rc > 0 {
                let op = opcode_of(spec_peek_code(e, d.ctx, 0).unwrap()).unwrap();
                lemma_dispatch_lifts(e, op, d, mu, xu);
            }
        },
    }
}

/// A round of the matching loop does the same with more entries below the `UNTIL` stacks.
pub proof fn lemma_step_lifts(
    e: Env,
    m: Machine,
    mu: Seq<MinUntilContext>,
    xu: Seq<MaxUntilContext>,
)
    requires
        spec_step(e, m) is Some,
    ensures
        spec_step(e, under(m, mu, xu)) == Some(under(spec_step(e, m).unwrap(), mu, xu)),
{
    let d = Drive {
        m: Machine { context_stack: m.context_stack.drop_last(), ..m },
        ctx: m.context_stack.last(),
        next_ctx: None,
    };
    assert(Drive {
        m: Machine {
            context_stack: under(m, mu, xu).context_stack.drop_last(),
            ..under(m, mu, xu)
        },
        ctx: under(m, mu, xu).context_stack.last(),
        next_ctx: None,
    } == under_d(d, mu, xu));
    lemma_run_context_lifts(e, d, mu, xu);
}

/// A run of the matching loop that stops does the same, and stops, with more entries below
/// the `UNTIL` stacks.
pub proof fn lemma_run_lifts(
    e: Env,
    m: Machine,
    fuel: nat,
    mu: Seq<MinUntilContext>,
    xu: Seq<MaxUntilContext>,
)
    requires
        halts(e, m, fuel),
    ensures
        halts(e, under(m, mu, xu), fuel),
        run(e, under(m, mu, xu), fuel) == under(run(e, m, fuel), mu, xu),
    decreases fuel,
{
    if m.context_stack.len() > 0 {
        lemma_step_lifts(e, m, mu, xu);
        lemma_run_lifts(e, spec_step(e, m).unwrap(), (fuel - 1) as nat, mu, xu);
    }
}

/// Matching after `reset` runs as on a fresh state: where a match from a fresh state with
/// the same subject, range and pattern stops, the match after `reset` stops too, and gives
/// the same answer, string position, marks and last group; only the entries that `reset`
/// left on the `UNTIL` stacks stay below.
pub proof fn lemma_match_after_reset(e: Env, m: Machine)
    requires
        match_terminates(e, with_first_context(e, fresh_machine(e.start), start_offset(e), true)),
    ensures
        match_terminates(e, with_first_context(e, spec_reset(e, m), start_offset(e), true)),
        ({
            let r = match_result(e, with_first_context(e, spec_reset(e, m), start_offset(e), true));
            let f = match_result(
                e,
                with_first_context(e, fresh_machine(e.start), start_offset(e), true),
            );
            &&& r == under(f, m.min_until_stack, m.max_until_stack)
            &&& r.has_matched == f.has_matched
            &&& r.string_position == f.string_position
            &&& r.marks == f.marks
            &&& r.lastindex == f.lastindex
        }),
{
    let mu = m.min_until_stack;
    let xu = m.max_until_stack;
    let o = start_offset(e);
    let x = with_first_context(e, fresh_machine(e.start), o, true);
    assert(spec_reset(e, m) == under(fresh_machine(e.start), mu, xu)) by {
        assert(mu + Seq::<MinUntilContext>::empty() =~= mu);
        assert(xu + Seq::<MaxUntilContext>::empty() =~= xu);
    }
    assert(with_first_context(e, spec_reset(e, m), o, true) == under(x, mu, xu));
    let n = choose|n: nat| halts(e, x, n);
    lemma_run_lifts(e, x, n, mu, xu);
    let y = under(x, mu, xu);
    lemma_run_fuel(e, y, n, choose|k: nat| halts(e, y, k));
}

} // verus!
