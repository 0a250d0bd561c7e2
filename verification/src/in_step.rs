//! Contexts in step with the subject: a context's byte offset is that of its character
//! position. Every round of the matching loop but one that starts an assertion keeps the
//! loop's contexts in step.
use vstd::prelude::*;
use crate::constants::{SreOpcode, opcode_of};
use crate::state::{
    Env, Machine, Drive, MatchContext, Handler, RepeatOneContext, spec_marks_push,
    spec_marks_pop_keep, spec_get_marks,
};
use crate::drive::{
    spec_skip_char, spec_back_skip_char, spec_sync, spec_at_end, spec_peek_char, spec_peek_code,
    spec_remaining_chars, spec_skip_code, spec_can_success, spec_skip_code_from,
    spec_remaining_codes,
};
use crate::ops_spec::{
    spec_dispatch, spec_handle, spec_count, spec_general_count, spec_general_count_loop,
    spec_op_repeat_one, spec_op_min_repeat_one, spec_repeat_one_seek, spec_repeat_one_create,
    spec_repeat_one_tail, spec_repeat_one_uncount, spec_op_literal,
    spec_op_in, spec_op_groupref, spec_op_groupref_exists, spec_op_mark, spec_op_assert,
    spec_op_assert_not, spec_op_branch, spec_op_repeat, spec_op_min_until, LiteralKind, InKind,
    GroupKind, spec_groupref_loop, spec_advance_one, spec_run_context, spec_step,
};
use crate::bounds::lemma_count_within;
use crate::engine::{
    env_ok, with_first_context, start_offset, lemma_attempt_offsets, run, halts, match_result,
    lemma_run_fuel,
};

verus! {

/// A context stands in step with the subject: its position lies within the range, and its
/// byte offset is that of its position.
pub open spec fn in_step(e: Env, c: MatchContext) -> bool {
    &&& c.string_position <= e.end
    &&& c.string_offset == e.string.offset_of(c.string_position as int)
}

/// The bitwise complement of a position within a well-formed subject is past the end.
pub(crate) proof fn lemma_complement_past_end(p: usize, end: usize)
    requires
        p <= isize::MAX,
        end <= isize::MAX,
    ensures
        !((!p) < end),
{
    assert((!p) as int + p as int == (!0usize) as int) by (bit_vector);
    let top: usize = usize::MAX;
    assert(top <= !0usize) by (bit_vector);
}

/// Moving forward over chars that lie within the range keeps a context in step.
pub(crate) proof fn lemma_skip_in_step(e: Env, c: MatchContext, k: usize)
    requires
        env_ok(e),
        in_step(e, c),
        c.string_position + k <= e.end,
    ensures
        spec_skip_char(e, c, k) == Some(
            MatchContext {
                string_position: (c.string_position + k) as usize,
                string_offset: e.string.offset_of(c.string_position + k) as usize,
                ..c
            },
        ),
        in_step(e, spec_skip_char(e, c, k).unwrap()),
{
    e.string.lemma_offset_of_mono(c.string_position + k, e.end as int);
    e.string.lemma_offset_of_mono(e.end as int, e.string.count() as int);
    e.string.lemma_offset_moves_forward(c.string_position as int, k);
}

/// Moving back keeps a context in step.
pub(crate) proof fn lemma_back_skip_in_step(e: Env, c: MatchContext, k: usize)
    requires
        env_ok(e),
        in_step(e, c),
        k <= c.string_position,
    ensures
        spec_back_skip_char(e, c, k) == Some(
            MatchContext {
                string_position: (c.string_position - k) as usize,
                string_offset: e.string.offset_of(c.string_position - k) as usize,
                ..c
            },
        ),
        in_step(e, spec_back_skip_char(e, c, k).unwrap()),
{
    e.string.lemma_offset_of_mono(c.string_position - k, e.end as int);
    e.string.lemma_offset_of_mono(e.end as int, e.string.count() as int);
    e.string.lemma_offset_moves_back(c.string_position as int, k);
}

/* ---------------- what the operations leave to the matching loop ---------------- */

/// The matching loop's own records: its context stack and the last finished context.
pub open spec fn same_frame(m1: Machine, m2: Machine) -> bool {
    m1.context_stack == m2.context_stack && m1.popped_context == m2.popped_context
}

/// Whether the seek of a greedy repeat goes back over the char at `d`: at the end, or where
/// the char is not the literal sought.
pub open spec fn seek_goes_back(e: Env, d: Drive, ch: u32) -> Option<bool> {
    if spec_at_end(e, d.ctx) {
        Some(true)
    } else {
        match spec_peek_char(e, d.ctx) {
            None => None,
            Some(pc) => Some(pc != ch),
        }
    }
}

proof fn lemma_seek_frame(e: Env, d: Drive, count: usize, min_count: usize, ch: u32)
    requires
        spec_repeat_one_seek(e, d, count, min_count, ch) is Some,
    ensures
        same_frame(d.m, spec_repeat_one_seek(e, d, count, min_count, ch).unwrap().0.m),
        spec_repeat_one_seek(e, d, count, min_count, ch).unwrap().0.next_ctx == d.next_ctx,
    decreases d.ctx.string_position,
{
    if seek_goes_back(e, d, ch) == Some(true) && count > min_count {
        let c2 = spec_back_skip_char(e, d.ctx, 1).unwrap();
        let m2 = spec_repeat_one_uncount(d.m).unwrap();
        lemma_seek_frame(e, Drive { m: m2, ctx: c2, ..d }, count, min_count, ch);
    }
}

proof fn lemma_repeat_one_create_frame(e: Env, d: Drive)
    requires
        spec_repeat_one_create(e, d) is Some,
    ensures
        same_frame(d.m, spec_repeat_one_create(e, d).unwrap().m),
{
    if d.m.repeat_one_stack.len() > 0 {
        let r = d.m.repeat_one_stack.last();
        if let Some(ch) = r.following_literal {
            lemma_seek_frame(e, d, r.count, r.min_count, ch);
        }
    }
}

proof fn lemma_op_literal_frame(e: Env, d: Drive, kind: LiteralKind)
    requires
        spec_op_literal(e, d, kind) is Some,
    ensures
        same_frame(d.m, spec_op_literal(e, d, kind).unwrap().m),
{
}

proof fn lemma_op_in_frame(e: Env, d: Drive, kind: InKind)
    requires
        spec_op_in(e, d, kind) is Some,
    ensures
        same_frame(d.m, spec_op_in(e, d, kind).unwrap().m),
{
}

proof fn lemma_op_groupref_frame(e: Env, d: Drive, kind: GroupKind)
    requires
        spec_op_groupref(e, d, kind) is Some,
    ensures
        same_frame(d.m, spec_op_groupref(e, d, kind).unwrap().m),
{
}

proof fn lemma_op_misc_frame(e: Env, d: Drive)
    ensures
        spec_op_groupref_exists(e, d) is Some ==> same_frame(
            d.m,
            spec_op_groupref_exists(e, d).unwrap().m,
        ),
        spec_op_mark(e, d) is Some ==> same_frame(d.m, spec_op_mark(e, d).unwrap().m),
        spec_op_assert(e, d) is Some ==> same_frame(d.m, spec_op_assert(e, d).unwrap().m),
        spec_op_assert_not(e, d) is Some ==> same_frame(d.m, spec_op_assert_not(e, d).unwrap().m),
        spec_op_branch(e, d) is Some ==> same_frame(d.m, spec_op_branch(e, d).unwrap().m),
        spec_op_repeat(e, d) is Some ==> same_frame(d.m, spec_op_repeat(e, d).unwrap().m),
{
}

proof fn lemma_op_min_until_frame(e: Env, d: Drive)
    requires
        spec_op_min_until(e, d) is Some,
    ensures
        same_frame(d.m, spec_op_min_until(e, d).unwrap().m),
{
}

proof fn lemma_dispatch_frame(e: Env, op: SreOpcode, d: Drive)
    requires
        spec_dispatch(e, op, d) is Some,
    ensures
        same_frame(d.m, spec_dispatch(e, op, d).unwrap().m),
    decreases e.pattern.len() - d.ctx.code_position, 5int, 0int,
{
    lemma_op_misc_frame(e, d);
    match op {
        SreOpcode::REPEAT_ONE => lemma_op_repeat_one_frame(e, d),
        SreOpcode::MIN_REPEAT_ONE => lemma_op_min_repeat_one_frame(e, d),
        SreOpcode::MIN_UNTIL => lemma_op_min_until_frame(e, d),
        SreOpcode::IN => lemma_op_in_frame(e, d, InKind::Plain),
        SreOpcode::IN_IGNORE => lemma_op_in_frame(e, d, InKind::Ignore),
        SreOpcode::IN_UNI_IGNORE => lemma_op_in_frame(e, d, InKind::UniIgnore),
        SreOpcode::IN_LOC_IGNORE => lemma_op_in_frame(e, d, InKind::LocIgnore),
        SreOpcode::LITERAL => lemma_op_literal_frame(e, d, LiteralKind::Eq),
        SreOpcode::NOT_LITERAL => lemma_op_literal_frame(e, d, LiteralKind::NotEq),
        SreOpcode::LITERAL_IGNORE => lemma_op_literal_frame(e, d, LiteralKind::EqIgnore),
        SreOpcode::NOT_LITERAL_IGNORE => lemma_op_literal_frame(e, d, LiteralKind::NotEqIgnore),
        SreOpcode::LITERAL_UNI_IGNORE => lemma_op_literal_frame(e, d, LiteralKind::EqUniIgnore),
        SreOpcode::NOT_LITERAL_UNI_IGNORE => lemma_op_literal_frame(
            e,
            d,
            LiteralKind::NotEqUniIgnore,
        ),
        SreOpcode::LITERAL_LOC_IGNORE => lemma_op_literal_frame(e, d, LiteralKind::LocIgnore),
        SreOpcode::NOT_LITERAL_LOC_IGNORE => lemma_op_literal_frame(
            e,
            d,
            LiteralKind::NotLocIgnore,
        ),
        SreOpcode::GROUPREF => lemma_op_groupref_frame(e, d, GroupKind::Plain),
        SreOpcode::GROUPREF_IGNORE => lemma_op_groupref_frame(e, d, GroupKind::Ignore),
        SreOpcode::GROUPREF_LOC_IGNORE => lemma_op_groupref_frame(e, d, GroupKind::LocIgnore),
        SreOpcode::GROUPREF_UNI_IGNORE => lemma_op_groupref_frame(e, d, GroupKind::UniIgnore),
        _ => {},
    }
}

proof fn lemma_op_repeat_one_frame(e: Env, d: Drive)
    requires
        spec_op_repeat_one(e, d) is Some,
    ensures
        same_frame(d.m, spec_op_repeat_one(e, d).unwrap().m),
    decreases e.pattern.len() - d.ctx.code_position, 4int, 0int,
{
    let max_count = spec_peek_code(e, d.ctx, 3).unwrap() as usize;
    let min_count = spec_peek_code(e, d.ctx, 2).unwrap() as usize;
    if spec_remaining_chars(e, d.ctx).unwrap() >= min_count {
        lemma_count_frame(e, spec_sync(d), max_count);
        let (d1, count) = spec_count(e, spec_sync(d), max_count).unwrap();
        let c2 = spec_skip_char(e, d1.ctx, count).unwrap();
        if count >= min_count {
            let d2 = Drive { ctx: c2, ..d1 };
            lemma_repeat_one_tail_frame(e, d2, count, min_count, max_count);
        }
    }
}

proof fn lemma_repeat_one_tail_frame(
    e: Env,
    d: Drive,
    count: usize,
    min_count: usize,
    max_count: usize,
)
    requires
        spec_repeat_one_tail(e, d, count, min_count, max_count) is Some,
    ensures
        same_frame(d.m, spec_repeat_one_tail(e, d, count, min_count, max_count).unwrap().m),
{
    let skip = spec_peek_code(e, d.ctx, 1).unwrap();
    let next_code = spec_peek_code(e, d.ctx, (skip + 1) as usize).unwrap();
    if !(next_code == 1 && spec_can_success(e, d.ctx)) {
        let following_literal: Option<u32> = if next_code == 16 {
            Some(spec_peek_code(e, d.ctx, (skip + 2) as usize).unwrap())
        } else {
            None
        };
        let m = spec_marks_push(d.m);
        lemma_repeat_one_create_frame(
            e,
            Drive {
                m: Machine {
                    repeat_one_stack: m.repeat_one_stack.push(
                        RepeatOneContext { count, min_count, max_count, following_literal },
                    ),
                    ..m
                },
                ctx: MatchContext { handler: Some(Handler::RepeatOneCreate), ..d.ctx },
                ..d
            },
        );
    }
}

proof fn lemma_op_min_repeat_one_frame(e: Env, d: Drive)
    requires
        spec_op_min_repeat_one(e, d) is Some,
    ensures
        same_frame(d.m, spec_op_min_repeat_one(e, d).unwrap().m),
    decreases e.pattern.len() - d.ctx.code_position, 4int, 0int,
{
    let min_count = spec_peek_code(e, d.ctx, 2).unwrap() as usize;
    if spec_remaining_chars(e, d.ctx).unwrap() >= min_count && min_count != 0 {
        lemma_count_frame(e, spec_sync(d), min_count);
    }
}

proof fn lemma_count_frame(e: Env, d: Drive, maxcount: usize)
    requires
        spec_count(e, d, maxcount) is Some,
    ensures
        same_frame(d.m, spec_count(e, d, maxcount).unwrap().0.m),
    decreases e.pattern.len() - d.ctx.code_position, 3int, 0int,
{
    let rc = spec_remaining_chars(e, d.ctx).unwrap();
    let max = if maxcount <= rc { maxcount } else { rc };
    if spec_count(e, d, maxcount) == spec_general_count(e, d, max) {
        lemma_general_count_frame(e, d, max);
    }
}

proof fn lemma_general_count_frame(e: Env, d: Drive, maxcount: usize)
    requires
        spec_general_count(e, d, maxcount) is Some,
    ensures
        same_frame(d.m, spec_general_count(e, d, maxcount).unwrap().0.m),
    decreases e.pattern.len() - d.ctx.code_position, 2int, 0int,
{
    let rc = spec_remaining_chars(e, d.ctx).unwrap();
    let max = if maxcount <= rc { maxcount } else { rc };
    let c1 = spec_skip_code(d.ctx, 4).unwrap();
    lemma_general_count_loop_frame(e, Drive { ctx: c1, ..d }, c1.code_position, 0, max);
}

proof fn lemma_general_count_loop_frame(
    e: Env,
    d: Drive,
    reset: usize,
    count: usize,
    maxcount: usize,
)
    requires
        spec_general_count_loop(e, d, reset, count, maxcount) is Some,
    ensures
        same_frame(d.m, spec_general_count_loop(e, d, reset, count, maxcount).unwrap().0.m),
    decreases e.pattern.len() - reset + 4, 1int, maxcount - count,
{
    if count < maxcount {
        let d1 = Drive { ctx: MatchContext { code_position: reset, ..d.ctx }, ..d };
        let op = opcode_of(spec_peek_code(e, d1.ctx, 0).unwrap()).unwrap();
        lemma_dispatch_frame(e, op, d1);
        let d2 = spec_dispatch(e, op, d1).unwrap();
        if d2.ctx.has_matched != Some(false) {
            lemma_general_count_loop_frame(e, d2, reset, (count + 1) as usize, maxcount);
        }
    }
}

proof fn lemma_handle_frame(e: Env, h: Handler, d: Drive)
    requires
        spec_handle(e, h, d) is Some,
    ensures
        same_frame(d.m, spec_handle(e, h, d).unwrap().m),
{
    match h {
        Handler::RepeatOneCreate => lemma_repeat_one_create_frame(e, d),
        Handler::RepeatOneCallback => {
            let child = d.m.popped_context.unwrap();
            if child.has_matched != Some(true) && d.m.repeat_one_stack.len() > 0 {
                let r = d.m.repeat_one_stack.last();
                if r.count > r.min_count {
                    let c2 = spec_back_skip_char(e, d.ctx, 1).unwrap();
                    let m2 = spec_repeat_one_uncount(d.m).unwrap();
                    let m3 = spec_marks_pop_keep(m2).unwrap();
                    lemma_repeat_one_create_frame(
                        e,
                        Drive {
                            m: m3,
                            ctx: MatchContext { handler: Some(Handler::RepeatOneCreate), ..c2 },
                            ..d
                        },
                    );
                }
            }
        },
        Handler::MinRepeatOneCallback => {
            let child = d.m.popped_context.unwrap();
            if child.has_matched != Some(true) {
                lemma_count_frame(e, spec_sync(d), 1);
            }
        },
        _ => {},
    }
}

/// No operation, and no resumed context, touches the matching loop's own records: its
/// context stack and its last finished context are the loop's alone.
pub proof fn lemma_run_context_keeps_frame(e: Env, d: Drive)
    requires
        spec_run_context(e, d) is Some,
    ensures
        same_frame(d.m, spec_run_context(e, d).unwrap().m),
{
    reveal(spec_run_context);
    match d.ctx.handler {
        Some(h) => lemma_handle_frame(e, h, d),
        None => {
            if spec_remaining_codes(e, d.ctx) matches Some(rc) && rc > 0 {
                lemma_dispatch_frame(e, opcode_of(spec_peek_code(e, d.ctx, 0).unwrap()).unwrap(), d);
            }
        },
    }
}

/* ---------------- the contexts that the operations make ---------------- */

/// A drive stands in step: its context does, and so does the child it asks for, where the
/// context has not finished.
pub open spec fn drive_in_step(e: Env, d: Drive) -> bool {
    &&& in_step(e, d.ctx)
    &&& (d.ctx.has_matched is None && d.next_ctx is Some ==> in_step(e, d.next_ctx.unwrap()))
}

/// The seek of a greedy repeat moves back in step.
proof fn lemma_seek_in_step(e: Env, d: Drive, count: usize, min_count: usize, ch: u32)
    requires
        env_ok(e),
        in_step(e, d.ctx),
        spec_repeat_one_seek(e, d, count, min_count, ch) is Some,
    ensures
        in_step(e, spec_repeat_one_seek(e, d, count, min_count, ch).unwrap().0.ctx),
    decreases d.ctx.string_position,
{
    if seek_goes_back(e, d, ch) == Some(true) && count > min_count {
        let c2 = spec_back_skip_char(e, d.ctx, 1).unwrap();
        lemma_back_skip_in_step(e, d.ctx, 1);
        let m2 = spec_repeat_one_uncount(d.m).unwrap();
        lemma_seek_in_step(e, Drive { m: m2, ctx: c2, ..d }, count, min_count, ch);
    }
}

/// A group reference moves forward in step.
proof fn lemma_groupref_loop_in_step(
    e: Env,
    w: MatchContext,
    g: MatchContext,
    n: nat,
    kind: GroupKind,
)
    requires
        env_ok(e),
        in_step(e, w),
        spec_groupref_loop(e, w, g, n, kind) matches Some(Some(_)),
    ensures
        in_step(e, spec_groupref_loop(e, w, g, n, kind).unwrap().unwrap()),
        spec_groupref_loop(e, w, g, n, kind).unwrap().unwrap().code_position == w.code_position,
        spec_groupref_loop(e, w, g, n, kind).unwrap().unwrap().handler == w.handler,
    decreases n,
{
    if n > 0 {
        lemma_skip_in_step(e, w, 1);
        let w2 = spec_skip_char(e, w, 1).unwrap();
        let g2 = spec_skip_char(e, g, 1).unwrap();
        lemma_groupref_loop_in_step(e, w2, g2, (n - 1) as nat, kind);
    }
}

proof fn lemma_op_literal_in_step(e: Env, d: Drive, kind: LiteralKind)
    requires
        env_ok(e),
        in_step(e, d.ctx),
        d.next_ctx is None,
        spec_op_literal(e, d, kind) is Some,
    ensures
        drive_in_step(e, spec_op_literal(e, d, kind).unwrap()),
{
    if !spec_at_end(e, d.ctx) && spec_skip_code(d.ctx, 2) is Some {
        lemma_skip_in_step(e, spec_skip_code(d.ctx, 2).unwrap(), 1);
    }
}

proof fn lemma_op_in_in_step(e: Env, d: Drive, kind: InKind)
    requires
        env_ok(e),
        in_step(e, d.ctx),
        d.next_ctx is None,
        spec_op_in(e, d, kind) is Some,
    ensures
        drive_in_step(e, spec_op_in(e, d, kind).unwrap()),
{
    if !spec_at_end(e, d.ctx) && spec_skip_code_from(e, d.ctx, 1) is Some {
        lemma_skip_in_step(e, spec_skip_code_from(e, d.ctx, 1).unwrap(), 1);
    }
}

proof fn lemma_op_groupref_in_step(e: Env, d: Drive, kind: GroupKind)
    requires
        env_ok(e),
        in_step(e, d.ctx),
        d.next_ctx is None,
        spec_op_groupref(e, d, kind) is Some,
    ensures
        drive_in_step(e, spec_op_groupref(e, d, kind).unwrap()),
{
    let gi = spec_peek_code(e, d.ctx, 1).unwrap();
    if let Some((Some(gs), Some(ge))) = spec_get_marks(d.m, gi as usize) {
        if gs <= ge {
            let goff = e.string.offset(0, gs).unwrap();
            let g = MatchContext { string_position: gs, string_offset: goff, ..d.ctx };
            if let Some(Some(w)) = spec_groupref_loop(e, d.ctx, g, (ge - gs) as nat, kind) {
                lemma_groupref_loop_in_step(e, d.ctx, g, (ge - gs) as nat, kind);
            }
        }
    }
}

proof fn lemma_advance_in_step(e: Env, d: Drive, k: usize)
    requires
        env_ok(e),
        in_step(e, d.ctx),
        d.next_ctx is None,
        !spec_at_end(e, d.ctx),
        spec_advance_one(e, d, k) is Some,
    ensures
        drive_in_step(e, spec_advance_one(e, d, k).unwrap()),
{
    lemma_skip_in_step(e, spec_skip_code(d.ctx, k).unwrap(), 1);
}

proof fn lemma_repeat_one_create_in_step(e: Env, d: Drive)
    requires
        env_ok(e),
        in_step(e, d.ctx),
        spec_repeat_one_create(e, d) is Some,
    ensures
        drive_in_step(e, spec_repeat_one_create(e, d).unwrap()),
{
    let r = d.m.repeat_one_stack.last();
    if let Some(ch) = r.following_literal {
        lemma_seek_in_step(e, d, r.count, r.min_count, ch);
    }
}

proof fn lemma_op_repeat_one_in_step(e: Env, d: Drive)
    requires
        env_ok(e),
        in_step(e, d.ctx),
        d.next_ctx is None,
        spec_op_repeat_one(e, d) is Some,
    ensures
        drive_in_step(e, spec_op_repeat_one(e, d).unwrap()),
{
    let max_count = spec_peek_code(e, d.ctx, 3).unwrap() as usize;
    let min_count = spec_peek_code(e, d.ctx, 2).unwrap() as usize;
    if spec_remaining_chars(e, d.ctx).unwrap() >= min_count {
        lemma_count_within(e, spec_sync(d), max_count);
        let (d1, count) = spec_count(e, spec_sync(d), max_count).unwrap();
        lemma_skip_in_step(e, d1.ctx, count);
        let c2 = spec_skip_char(e, d1.ctx, count).unwrap();
        if count >= min_count {
            let d2 = Drive { ctx: c2, ..d1 };
            let skip = spec_peek_code(e, d2.ctx, 1).unwrap();
            let next_code = spec_peek_code(e, d2.ctx, (skip + 1) as usize).unwrap();
            if !(next_code == 1 && spec_can_success(e, d2.ctx)) {
                let following_literal: Option<u32> = if next_code == 16 {
                    Some(spec_peek_code(e, d2.ctx, (skip + 2) as usize).unwrap())
                } else {
                    None
                };
                let m = spec_marks_push(d2.m);
                lemma_repeat_one_create_in_step(
                    e,
                    Drive {
                        m: Machine {
                            repeat_one_stack: m.repeat_one_stack.push(
                                RepeatOneContext {
                                    count,
                                    min_count,
                                    max_count,
                                    following_literal,
                                },
                            ),
                            ..m
                        },
                        ctx: MatchContext { handler: Some(Handler::RepeatOneCreate), ..d2.ctx },
                        ..d2
                    },
                );
            }
        }
    }
}

proof fn lemma_op_min_repeat_one_in_step(e: Env, d: Drive)
    requires
        env_ok(e),
        in_step(e, d.ctx),
        d.next_ctx is None,
        spec_op_min_repeat_one(e, d) is Some,
    ensures
        drive_in_step(e, spec_op_min_repeat_one(e, d).unwrap()),
{
    let min_count = spec_peek_code(e, d.ctx, 2).unwrap() as usize;
    if spec_remaining_chars(e, d.ctx).unwrap() >= min_count && min_count != 0 {
        lemma_count_within(e, spec_sync(d), min_count);
        let (d1, count) = spec_count(e, spec_sync(d), min_count).unwrap();
        if count >= min_count {
            lemma_skip_in_step(e, d1.ctx, count);
        }
    }
}

proof fn lemma_dispatch_in_step(e: Env, op: SreOpcode, d: Drive)
    requires
        env_ok(e),
        in_step(e, d.ctx),
        d.next_ctx is None,
        op != SreOpcode::ASSERT,
        op != SreOpcode::ASSERT_NOT,
        spec_dispatch(e, op, d) is Some,
    ensures
        drive_in_step(e, spec_dispatch(e, op, d).unwrap()),
{
    match op {
        SreOpcode::ANY | SreOpcode::ANY_ALL => {
            if !spec_at_end(e, d.ctx) && spec_advance_one(e, d, 1) is Some {
                lemma_advance_in_step(e, d, 1);
            }
        },
        SreOpcode::CATEGORY => {
            if !spec_at_end(e, d.ctx) && spec_advance_one(e, d, 2) is Some {
                lemma_advance_in_step(e, d, 2);
            }
        },
        SreOpcode::REPEAT_ONE => lemma_op_repeat_one_in_step(e, d),
        SreOpcode::MIN_REPEAT_ONE => lemma_op_min_repeat_one_in_step(e, d),
        SreOpcode::IN => lemma_op_in_in_step(e, d, InKind::Plain),
        SreOpcode::IN_IGNORE => lemma_op_in_in_step(e, d, InKind::Ignore),
        SreOpcode::IN_UNI_IGNORE => lemma_op_in_in_step(e, d, InKind::UniIgnore),
        SreOpcode::IN_LOC_IGNORE => lemma_op_in_in_step(e, d, InKind::LocIgnore),
        SreOpcode::LITERAL => lemma_op_literal_in_step(e, d, LiteralKind::Eq),
        SreOpcode::NOT_LITERAL => lemma_op_literal_in_step(e, d, LiteralKind::NotEq),
        SreOpcode::LITERAL_IGNORE => lemma_op_literal_in_step(e, d, LiteralKind::EqIgnore),
        SreOpcode::NOT_LITERAL_IGNORE => lemma_op_literal_in_step(
            e,
            d,
            LiteralKind::NotEqIgnore,
        ),
        SreOpcode::LITERAL_UNI_IGNORE => lemma_op_literal_in_step(
            e,
            d,
            LiteralKind::EqUniIgnore,
        ),
        SreOpcode::NOT_LITERAL_UNI_IGNORE => lemma_op_literal_in_step(
            e,
            d,
            LiteralKind::NotEqUniIgnore,
        ),
        SreOpcode::LITERAL_LOC_IGNORE => lemma_op_literal_in_step(e, d, LiteralKind::LocIgnore),
        SreOpcode::NOT_LITERAL_LOC_IGNORE => lemma_op_literal_in_step(
            e,
            d,
            LiteralKind::NotLocIgnore,
        ),
        SreOpcode::GROUPREF => lemma_op_groupref_in_step(e, d, GroupKind::Plain),
        SreOpcode::GROUPREF_IGNORE => lemma_op_groupref_in_step(e, d, GroupKind::Ignore),
        SreOpcode::GROUPREF_LOC_IGNORE => lemma_op_groupref_in_step(e, d, GroupKind::LocIgnore),
        SreOpcode::GROUPREF_UNI_IGNORE => lemma_op_groupref_in_step(e, d, GroupKind::UniIgnore),
        _ => {},
    }
}

proof fn lemma_handle_in_step(e: Env, h: Handler, d: Drive)
    requires
        env_ok(e),
        in_step(e, d.ctx),
        d.next_ctx is None,
        spec_handle(e, h, d) is Some,
    ensures
        drive_in_step(e, spec_handle(e, h, d).unwrap()),
{
    match h {
        Handler::RepeatOneCreate => lemma_repeat_one_create_in_step(e, d),
        Handler::RepeatOneCallback => {
            let child = d.m.popped_context.unwrap();
            if child.has_matched != Some(true) && d.m.repeat_one_stack.len() > 0 {
                let r = d.m.repeat_one_stack.last();
                if r.count > r.min_count {
                    let c2 = spec_back_skip_char(e, d.ctx, 1).unwrap();
                    lemma_back_skip_in_step(e, d.ctx, 1);
                    let m2 = spec_repeat_one_uncount(d.m).unwrap();
                    let m3 = spec_marks_pop_keep(m2).unwrap();
                    lemma_repeat_one_create_in_step(
                        e,
                        Drive {
                            m: m3,
                            ctx: MatchContext { handler: Some(Handler::RepeatOneCreate), ..c2 },
                            ..d
                        },
                    );
                }
            }
        },
        Handler::MinRepeatOneCallback => {
            let child = d.m.popped_context.unwrap();
            if child.has_matched != Some(true) {
                lemma_count_within(e, spec_sync(d), 1);
                let (d1, n) = spec_count(e, spec_sync(d), 1).unwrap();
                if n != 0 {
                    lemma_skip_in_step(e, d1.ctx, 1);
                }
            }
        },
        _ => {},
    }
}

/* ---------------- laws ---------------- */

/// Every context of the matching loop stands in step: those on the stack and the last one
/// finished.
pub open spec fn machine_in_step(e: Env, m: Machine) -> bool {
    &&& forall|i: int|
        0 <= i < m.context_stack.len() ==> in_step(e, #[trigger] m.context_stack[i])
    &&& (m.popped_context is Some ==> in_step(e, m.popped_context.unwrap()))
}

/// Context `c` is about to start an assertion: no handler resumes it, and its code is
/// `ASSERT` or `ASSERT_NOT`.
pub open spec fn starts_assertion(e: Env, c: MatchContext) -> bool {
    &&& c.handler is None
    &&& c.code_position < e.pattern.len()
    &&& (opcode_of(e.pattern[c.code_position as int]) == Some(SreOpcode::ASSERT) || opcode_of(
        e.pattern[c.code_position as int],
    ) == Some(SreOpcode::ASSERT_NOT))
}

/// Each round of the matching loop keeps its contexts in step with the subject, unless the
/// round starts an assertion: the child context of an assertion takes as its byte offset
/// the difference of two offsets rather than the offset of its position.
pub proof fn lemma_step_keeps_contexts_in_step(e: Env, m: Machine)
    requires
        env_ok(e),
        machine_in_step(e, m),
        m.context_stack.len() > 0,
        !starts_assertion(e, m.context_stack.last()),
        spec_step(e, m) is Some,
    ensures
        machine_in_step(e, spec_step(e, m).unwrap()),
{
    reveal(spec_run_context);
    let d = Drive {
        m: Machine { context_stack: m.context_stack.drop_last(), ..m },
        ctx: m.context_stack.last(),
        next_ctx: None,
    };
    assert(in_step(e, d.ctx));
    lemma_run_context_keeps_frame(e, d);
    match d.ctx.handler {
        Some(h) => lemma_handle_in_step(e, h, d),
        None => {
            if spec_remaining_codes(e, d.ctx) matches Some(rc) && rc > 0 {
                let op = opcode_of(spec_peek_code(e, d.ctx, 0).unwrap()).unwrap();
                lemma_dispatch_in_step(e, op, d);
            }
        },
    }
    let d2 = spec_run_context(e, d).unwrap();
    let m2 = spec_step(e, m).unwrap();
    assert forall|i: int| 0 <= i < m2.context_stack.len() implies in_step(
        e,
        #[trigger] m2.context_stack[i],
    ) by {
        if i < d.m.context_stack.len() {
            assert(m2.context_stack[i] == m.context_stack[i]);
        }
    }
}

/// The first context of an attempt, at the start position, stands in step.
pub proof fn lemma_first_context_in_step(e: Env, m: Machine, toplevel: bool)
    requires
        env_ok(e),
        e.start <= e.end,
        machine_in_step(e, m),
    ensures
        machine_in_step(e, with_first_context(e, m, start_offset(e), toplevel)),
{
    lemma_attempt_offsets(e, start_offset(e));
    let m2 = with_first_context(e, m, start_offset(e), toplevel);
    assert forall|i: int| 0 <= i < m2.context_stack.len() implies in_step(
        e,
        #[trigger] m2.context_stack[i],
    ) by {
        if i < m.context_stack.len() {
            assert(m2.context_stack[i] == m.context_stack[i]);
        }
    }
}

/// No round of the matching loop, run from `m` for at most `fuel` rounds, starts an
/// assertion.
pub open spec fn avoids_assertions(e: Env, m: Machine, fuel: nat) -> bool
    decreases fuel,
{
    if m.context_stack.len() == 0 || fuel == 0 {
        true
    } else {
        &&& !starts_assertion(e, m.context_stack.last())
        &&& match spec_step(e, m) {
            Some(m2) => avoids_assertions(e, m2, (fuel - 1) as nat),
            None => true,
        }
    }
}

/// A run of the matching loop that starts no assertion ends with its contexts in step,
/// the last context finished among them.
pub proof fn lemma_run_in_step(e: Env, m: Machine, fuel: nat)
    requires
        env_ok(e),
        machine_in_step(e, m),
        avoids_assertions(e, m, fuel),
    ensures
        machine_in_step(e, run(e, m, fuel)),
    decreases fuel,
{
    if m.context_stack.len() > 0 && fuel > 0 {
        if let Some(m2) = spec_step(e, m) {
            lemma_step_keeps_contexts_in_step(e, m);
            lemma_run_in_step(e, m2, (fuel - 1) as nat);
        }
    }
}

/// A match whose run starts no assertion ends in step: its last finished context has the
/// byte offset of its position, and that position lies within the range.
pub proof fn lemma_match_in_step(e: Env, m: Machine, fuel: nat)
    requires
        env_ok(e),
        machine_in_step(e, m),
        halts(e, m, fuel),
        avoids_assertions(e, m, fuel),
    ensures
        machine_in_step(e, match_result(e, m)),
{
    lemma_run_in_step(e, m, fuel);
    lemma_run_fuel(e, m, fuel, choose|n: nat| halts(e, m, n));
}

} // verus!
