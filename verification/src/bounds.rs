//! Positions within the range: no operation, assertions included, moves a context or the
//! state's string position past the end of the range.
use vstd::prelude::*;
use crate::constants::{SreOpcode, opcode_of};
use crate::state::{
    Env, Machine, Drive, MatchContext, Handler, RepeatOneContext, spec_marks_push,
    spec_marks_pop_keep, spec_get_marks,
};
use crate::drive::{
    spec_skip_char, spec_back_skip_char, spec_sync, spec_peek_code, spec_remaining_chars,
    spec_skip_code, spec_can_success, spec_remaining_codes,
};
use crate::ops_spec::{
    spec_dispatch, spec_handle, spec_count, spec_general_count_loop, spec_op_repeat_one,
    spec_op_min_repeat_one, spec_repeat_one_seek, spec_repeat_one_create, spec_repeat_one_uncount,
    spec_op_groupref, spec_groupref_loop, literal_kind_of, spec_run_context, spec_step, GroupKind,
    LiteralKind, InKind, spec_op_literal, spec_op_in, spec_op_groupref_exists, spec_op_mark,
    spec_op_assert, spec_op_assert_not, spec_op_branch, spec_op_repeat, spec_op_min_until,
};
use crate::engine::{
    env_ok, run, halts, match_result, match_terminates, with_first_context, spec_reset,
    search_loop_ok, search_loop_result, search_terminates, search_result, start_offset,
};
use crate::in_step::{seek_goes_back, lemma_complement_past_end};

verus! {

/// A drive keeps within the range: its context, the state's string position and the child
/// context it asks for all lie at or before the end.
pub open spec fn drive_within(e: Env, d: Drive) -> bool {
    &&& d.ctx.string_position <= e.end
    &&& d.m.string_position <= e.end
    &&& (d.next_ctx is Some ==> d.next_ctx.unwrap().string_position <= e.end)
}

proof fn lemma_seek_within(e: Env, d: Drive, count: usize, min_count: usize, ch: u32)
    requires
        drive_within(e, d),
        spec_repeat_one_seek(e, d, count, min_count, ch) is Some,
    ensures
        drive_within(e, spec_repeat_one_seek(e, d, count, min_count, ch).unwrap().0),
    decreases d.ctx.string_position,
{
    if seek_goes_back(e, d, ch) == Some(true) && count > min_count {
        let c2 = spec_back_skip_char(e, d.ctx, 1).unwrap();
        let m2 = spec_repeat_one_uncount(d.m).unwrap();
        lemma_seek_within(e, Drive { m: m2, ctx: c2, ..d }, count, min_count, ch);
    }
}

proof fn lemma_groupref_loop_within(
    e: Env,
    w: MatchContext,
    g: MatchContext,
    n: nat,
    kind: GroupKind,
)
    requires
        w.string_position <= e.end,
        spec_groupref_loop(e, w, g, n, kind) matches Some(Some(_)),
    ensures
        spec_groupref_loop(e, w, g, n, kind).unwrap().unwrap().string_position <= e.end,
    decreases n,
{
    if n > 0 {
        let w2 = spec_skip_char(e, w, 1).unwrap();
        let g2 = spec_skip_char(e, g, 1).unwrap();
        lemma_groupref_loop_within(e, w2, g2, (n - 1) as nat, kind);
    }
}

proof fn lemma_op_groupref_within(e: Env, d: Drive, kind: GroupKind)
    requires
        drive_within(e, d),
        spec_op_groupref(e, d, kind) is Some,
    ensures
        drive_within(e, spec_op_groupref(e, d, kind).unwrap()),
{
    let gi = spec_peek_code(e, d.ctx, 1).unwrap();
    if let Some((Some(gs), Some(ge))) = spec_get_marks(d.m, gi as usize) {
        if gs <= ge {
            let goff = e.string.offset(0, gs).unwrap();
            let g = MatchContext { string_position: gs, string_offset: goff, ..d.ctx };
            if let Some(Some(w)) = spec_groupref_loop(e, d.ctx, g, (ge - gs) as nat, kind) {
                lemma_groupref_loop_within(e, d.ctx, g, (ge - gs) as nat, kind);
            }
        }
    }
}

proof fn lemma_repeat_one_create_within(e: Env, d: Drive)
    requires
        drive_within(e, d),
        spec_repeat_one_create(e, d) is Some,
    ensures
        drive_within(e, spec_repeat_one_create(e, d).unwrap()),
{
    let r = d.m.repeat_one_stack.last();
    if let Some(ch) = r.following_literal {
        lemma_seek_within(e, d, r.count, r.min_count, ch);
    }
}

proof fn lemma_op_literal_within(e: Env, d: Drive, kind: LiteralKind)
    requires
        drive_within(e, d),
        spec_op_literal(e, d, kind) is Some,
    ensures
        drive_within(e, spec_op_literal(e, d, kind).unwrap()),
{
}

proof fn lemma_op_in_within(e: Env, d: Drive, kind: InKind)
    requires
        drive_within(e, d),
        spec_op_in(e, d, kind) is Some,
    ensures
        drive_within(e, spec_op_in(e, d, kind).unwrap()),
{
}

proof fn lemma_op_misc_within(e: Env, d: Drive)
    requires
        drive_within(e, d),
    ensures
        spec_op_groupref_exists(e, d) is Some ==> drive_within(
            e,
            spec_op_groupref_exists(e, d).unwrap(),
        ),
        spec_op_mark(e, d) is Some ==> drive_within(e, spec_op_mark(e, d).unwrap()),
        spec_op_assert(e, d) is Some ==> drive_within(e, spec_op_assert(e, d).unwrap()),
        spec_op_assert_not(e, d) is Some ==> drive_within(e, spec_op_assert_not(e, d).unwrap()),
        spec_op_branch(e, d) is Some ==> drive_within(e, spec_op_branch(e, d).unwrap()),
        spec_op_repeat(e, d) is Some ==> drive_within(e, spec_op_repeat(e, d).unwrap()),
{
}

proof fn lemma_op_min_until_within(e: Env, d: Drive)
    requires
        drive_within(e, d),
        spec_op_min_until(e, d) is Some,
    ensures
        drive_within(e, spec_op_min_until(e, d).unwrap()),
{
}

proof fn lemma_dispatch_within(e: Env, op: SreOpcode, d: Drive)
    requires
        env_ok(e),
        drive_within(e, d),
        spec_dispatch(e, op, d) is Some,
    ensures
        drive_within(e, spec_dispatch(e, op, d).unwrap()),
    decreases e.pattern.len() - d.ctx.code_position, 5int, 0int,
{
    lemma_op_misc_within(e, d);
    match op {
        SreOpcode::REPEAT_ONE => lemma_op_repeat_one_within(e, d),
        SreOpcode::MIN_REPEAT_ONE => lemma_op_min_repeat_one_within(e, d),
        SreOpcode::MIN_UNTIL => lemma_op_min_until_within(e, d),
        SreOpcode::IN => lemma_op_in_within(e, d, InKind::Plain),
        SreOpcode::IN_IGNORE => lemma_op_in_within(e, d, InKind::Ignore),
        SreOpcode::IN_UNI_IGNORE => lemma_op_in_within(e, d, InKind::UniIgnore),
        SreOpcode::IN_LOC_IGNORE => lemma_op_in_within(e, d, InKind::LocIgnore),
        SreOpcode::LITERAL => lemma_op_literal_within(e, d, LiteralKind::Eq),
        SreOpcode::NOT_LITERAL => lemma_op_literal_within(e, d, LiteralKind::NotEq),
        SreOpcode::LITERAL_IGNORE => lemma_op_literal_within(e, d, LiteralKind::EqIgnore),
        SreOpcode::NOT_LITERAL_IGNORE => lemma_op_literal_within(e, d, LiteralKind::NotEqIgnore),
        SreOpcode::LITERAL_UNI_IGNORE => lemma_op_literal_within(e, d, LiteralKind::EqUniIgnore),
        SreOpcode::NOT_LITERAL_UNI_IGNORE => lemma_op_literal_within(
            e,
            d,
            LiteralKind::NotEqUniIgnore,
        ),
        SreOpcode::LITERAL_LOC_IGNORE => lemma_op_literal_within(e, d, LiteralKind::LocIgnore),
        SreOpcode::NOT_LITERAL_LOC_IGNORE => lemma_op_literal_within(
            e,
            d,
            LiteralKind::NotLocIgnore,
        ),
        SreOpcode::GROUPREF => lemma_op_groupref_within(e, d, GroupKind::Plain),
        SreOpcode::GROUPREF_IGNORE => lemma_op_groupref_within(e, d, GroupKind::Ignore),
        SreOpcode::GROUPREF_LOC_IGNORE => lemma_op_groupref_within(e, d, GroupKind::LocIgnore),
        SreOpcode::GROUPREF_UNI_IGNORE => lemma_op_groupref_within(e, d, GroupKind::UniIgnore),
        _ => {},
    }
}

proof fn lemma_op_repeat_one_within(e: Env, d: Drive)
    requires
        env_ok(e),
        drive_within(e, d),
        spec_op_repeat_one(e, d) is Some,
    ensures
        drive_within(e, spec_op_repeat_one(e, d).unwrap()),
    decreases e.pattern.len() - d.ctx.code_position, 4int, 0int,
{
    let max_count = spec_peek_code(e, d.ctx, 3).unwrap() as usize;
    let min_count = spec_peek_code(e, d.ctx, 2).unwrap() as usize;
    if spec_remaining_chars(e, d.ctx).unwrap() >= min_count {
        lemma_count_within(e, spec_sync(d), max_count);
        let (d1, count) = spec_count(e, spec_sync(d), max_count).unwrap();
        let c2 = spec_skip_char(e, d1.ctx, count).unwrap();
        if count >= min_count {
            let d2 = Drive { ctx: c2, ..d1 };
            let skip = spec_peek_code(e, d2.ctx, 1).unwrap();
            let next_code = spec_peek_code(e, d2.ctx, (skip + 1) as usize).unwrap();
            if !(next_code == 1 && spec_can_success(e, d2.ctx)) {
                let following_literal: Option<u32> = if next_code == 16 {
                    Some(spec_peek_code(e, d2.ctx, (skip + 2) as usize).unwrap())
                } else {
                    None
                };
                let m = spec_marks_push(d2.m);
                lemma_repeat_one_create_within(
                    e,
                    Drive {
                        m: Machine {
                            repeat_one_stack: m.repeat_one_stack.push(
                                RepeatOneContext {
                                    count,
                                    min_count,
                                    max_count,
                                    following_literal,
                                },
                            ),
                            ..m
                        },
                        ctx: MatchContext { handler: Some(Handler::RepeatOneCreate), ..d2.ctx },
                        ..d2
                    },
                );
            }
        }
    }
}

proof fn lemma_op_min_repeat_one_within(e: Env, d: Drive)
    requires
        env_ok(e),
        drive_within(e, d),
        spec_op_min_repeat_one(e, d) is Some,
    ensures
        drive_within(e, spec_op_min_repeat_one(e, d).unwrap()),
    decreases e.pattern.len() - d.ctx.code_position, 4int, 0int,
{
    let min_count = spec_peek_code(e, d.ctx, 2).unwrap() as usize;
    if spec_remaining_chars(e, d.ctx).unwrap() >= min_count && min_count != 0 {
        lemma_count_within(e, spec_sync(d), min_count);
    }
}

/// Counting keeps within the range, leaves the context where it was, and counts no further
/// than the end.
pub(crate) proof fn lemma_count_within(e: Env, d: Drive, maxcount: usize)
    requires
        env_ok(e),
        drive_within(e, d),
        d.m.string_position == d.ctx.string_position,
        spec_count(e, d, maxcount) is Some,
    ensures
        drive_within(e, spec_count(e, d, maxcount).unwrap().0),
        spec_count(e, d, maxcount).unwrap().0.ctx == d.ctx,
        d.ctx.string_position + spec_count(e, d, maxcount).unwrap().1 <= e.end,
    decreases e.pattern.len() - d.ctx.code_position, 3int, 0int,
{
    let rc = spec_remaining_chars(e, d.ctx).unwrap();
    let max: usize = if maxcount <= rc { maxcount } else { rc };
    let end = (d.ctx.string_position + max) as usize;
    e.string.lemma_offset_of_at_least(0);
    lemma_complement_past_end(d.ctx.string_position, end);
    let op = opcode_of(spec_peek_code(e, d.ctx, 0).unwrap()).unwrap();
    if op != SreOpcode::ANY_ALL && op != SreOpcode::ANY && op != SreOpcode::IN && literal_kind_of(
        op,
    ) is None {
        let c1 = spec_skip_code(d.ctx, 4).unwrap();
        lemma_general_count_loop_within(e, Drive { ctx: c1, ..d }, c1.code_position, 0, max);
    }
}

proof fn lemma_general_count_loop_within(
    e: Env,
    d: Drive,
    reset: usize,
    count: usize,
    maxcount: usize,
)
    requires
        env_ok(e),
        drive_within(e, d),
        count <= maxcount,
        spec_general_count_loop(e, d, reset, count, maxcount) is Some,
    ensures
        drive_within(e, spec_general_count_loop(e, d, reset, count, maxcount).unwrap().0),
        spec_general_count_loop(e, d, reset, count, maxcount).unwrap().1 <= maxcount,
    decreases e.pattern.len() - reset + 4, 1int, maxcount - count,
{
    if count < maxcount {
        let d1 = Drive { ctx: MatchContext { code_position: reset, ..d.ctx }, ..d };
        let op = opcode_of(spec_peek_code(e, d1.ctx, 0).unwrap()).unwrap();
        lemma_dispatch_within(e, op, d1);
        let d2 = spec_dispatch(e, op, d1).unwrap();
        if d2.ctx.has_matched != Some(false) {
            lemma_general_count_loop_within(e, d2, reset, (count + 1) as usize, maxcount);
        }
    }
}

proof fn lemma_handle_within(e: Env, h: Handler, d: Drive)
    requires
        env_ok(e),
        drive_within(e, d),
        spec_handle(e, h, d) is Some,
    ensures
        drive_within(e, spec_handle(e, h, d).unwrap()),
{
    match h {
        Handler::RepeatOneCreate => lemma_repeat_one_create_within(e, d),
        Handler::RepeatOneCallback => {
            let child = d.m.popped_context.unwrap();
            if child.has_matched != Some(true) && d.m.repeat_one_stack.len() > 0 {
                let r = d.m.repeat_one_stack.last();
                if r.count > r.min_count {
                    let c2 = spec_back_skip_char(e, d.ctx, 1).unwrap();
                    let m2 = spec_repeat_one_uncount(d.m).unwrap();
                    let m3 = spec_marks_pop_keep(m2).unwrap();
                    lemma_repeat_one_create_within(
                        e,
                        Drive {
                            m: m3,
                            ctx: MatchContext { handler: Some(Handler::RepeatOneCreate), ..c2 },
                            ..d
                        },
                    );
                }
            }
        },
        Handler::MinRepeatOneCallback => {
            let child = d.m.popped_context.unwrap();
            if child.has_matched != Some(true) {
                lemma_count_within(e, spec_sync(d), 1);
            }
        },
        _ => {},
    }
}

/* ---------------- laws ---------------- */

/// Every position of the matching loop lies at or before the end of the range: those of the
/// contexts on the stack, of the last context finished, and the state's string position.
pub open spec fn machine_within(e: Env, m: Machine) -> bool {
    &&& forall|i: int|
        0 <= i < m.context_stack.len() ==> (#[trigger] m.context_stack[i]).string_position
            <= e.end
    &&& (m.popped_context is Some ==> m.popped_context.unwrap().string_position <= e.end)
    &&& m.string_position <= e.end
}

/// Each round of the matching loop keeps every position at or before the end of the range.
pub proof fn lemma_step_stays_within(e: Env, m: Machine)
    requires
        env_ok(e),
        machine_within(e, m),
        spec_step(e, m) is Some,
    ensures
        machine_within(e, spec_step(e, m).unwrap()),
{
    reveal(spec_run_context);
    let d = Drive {
        m: Machine { context_stack: m.context_stack.drop_last(), ..m },
        ctx: m.context_stack.last(),
        next_ctx: None,
    };
    crate::in_step::lemma_run_context_keeps_frame(e, d);
    match d.ctx.handler {
        Some(h) => lemma_handle_within(e, h, d),
        None => {
            if spec_remaining_codes(e, d.ctx) matches Some(rc) && rc > 0 {
                let op = opcode_of(spec_peek_code(e, d.ctx, 0).unwrap()).unwrap();
                lemma_dispatch_within(e, op, d);
            }
        },
    }
    let m2 = spec_step(e, m).unwrap();
    assert forall|i: int| 0 <= i < m2.context_stack.len() implies (
    #[trigger] m2.context_stack[i]).string_position <= e.end by {
        if i < d.m.context_stack.len() {
            assert(m2.context_stack[i] == m.context_stack[i]);
        }
    }
}

/// A run of the matching loop keeps every position at or before the end of the range.
pub proof fn lemma_run_stays_within(e: Env, m: Machine, fuel: nat)
    requires
        env_ok(e),
        machine_within(e, m),
    ensures
        machine_within(e, run(e, m, fuel)),
    decreases fuel,
{
    if m.context_stack.len() > 0 && fuel > 0 {
        if let Some(m2) = spec_step(e, m) {
            lemma_step_stays_within(e, m);
            lemma_run_stays_within(e, m2, (fuel - 1) as nat);
        }
    }
}

/// A match never moves past the end of the range: the string position it leaves, which is
/// where a successful match ends, lies at or before the end.
pub proof fn lemma_match_stays_within(e: Env, m: Machine)
    requires
        env_ok(e),
        machine_within(e, m),
        match_terminates(e, m),
    ensures
        machine_within(e, match_result(e, m)),
        match_result(e, m).string_position <= e.end,
{
    lemma_run_stays_within(e, m, choose|n: nat| halts(e, m, n));
}

/// Pushing the first context of an attempt, at a start position within the range, keeps
/// every position within the range.
pub proof fn lemma_first_context_within(e: Env, m: Machine, offset: usize, toplevel: bool)
    requires
        e.start <= e.end,
        machine_within(e, m),
    ensures
        machine_within(e, with_first_context(e, m, offset, toplevel)),
{
    let m2 = with_first_context(e, m, offset, toplevel);
    assert forall|i: int| 0 <= i < m2.context_stack.len() implies (
    #[trigger] m2.context_stack[i]).string_position <= e.end by {
        if i < m.context_stack.len() {
            assert(m2.context_stack[i] == m.context_stack[i]);
        }
    }
}

/// The further attempts of a search keep every position within the range.
pub proof fn lemma_search_loop_within(e: Env, m: Machine, offset: usize)
    requires
        env_ok(e),
        machine_within(e, m),
        search_loop_ok(e, m, offset),
    ensures
        machine_within(e, search_loop_result(e, m, offset).1),
        search_loop_result(e, m, offset).0.end == e.end,
    decreases e.end - e.start,
{
    if !m.has_matched && e.start < e.end {
        let e2 = Env { start: (e.start + 1) as usize, ..e };
        let o2 = e.string.offset(offset, 1).unwrap();
        let m1 = spec_reset(e2, m);
        assert(machine_within(e2, m1));
        lemma_first_context_within(e2, m1, o2, false);
        let m2 = with_first_context(e2, m1, o2, false);
        lemma_match_stays_within(e2, m2);
        lemma_search_loop_within(e2, match_result(e2, m2), o2);
    }
}

/// A search keeps every position within the range: where it finds a match, the string
/// position where the match ends lies at or before the end.
pub proof fn lemma_search_stays_within(e: Env, m: Machine)
    requires
        env_ok(e),
        e.start <= e.end,
        machine_within(e, m),
        search_terminates(e, m),
    ensures
        machine_within(e, search_result(e, m).1),
        search_result(e, m).1.string_position <= search_result(e, m).0.end,
{
    let m1 = with_first_context(e, m, start_offset(e), true);
    lemma_first_context_within(e, m, start_offset(e), true);
    lemma_match_stays_within(e, m1);
    lemma_search_loop_within(Env { must_advance: false, ..e }, match_result(e, m1), start_offset(e));
}

} // verus!
