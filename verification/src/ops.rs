//! The operations of compiled patterns, each proved to do what `ops_spec` says.
use vstd::prelude::*;
use crate::constants::{SreOpcode, SreAtCode, SreCatCode};
use crate::state::{
    MatchContext, Handler, BranchContext, MinRepeatOneContext, RepeatOneContext, RepeatContext,
    MinUntilContext,
};
use crate::drive::{StateContext, WordKind, steps_to, spec_peek_code};
use crate::chars::{category, is_linebreak, lower_ascii, lower_locate, lower_unicode, char_loc_ignore};
use crate::charset::{charset, charset_loc_ignore};
use crate::ops_spec::{
    pop_seq, LiteralKind, spec_literal_test, InKind, spec_in_test, GroupKind, spec_fold,
    with_ctx, spec_advance_one, spec_op_literal, spec_op_in, spec_at, spec_groupref_loop,
    spec_op_groupref, spec_op_groupref_exists, spec_op_mark, spec_assert_child, spec_op_assert,
    spec_op_assert_not, spec_assert_done, spec_assert_not_done, spec_branch_failure,
    spec_branch_create, spec_op_branch, spec_branch_callback, spec_op_repeat, spec_repeat_done,
    spec_op_min_until, spec_min_until_body, spec_min_until_failure, spec_min_until_tail,
    spec_op_max_until, spec_count_any, spec_count_in, spec_count_literal,
    spec_count, spec_general_count, spec_general_count_loop, spec_repeat_one_failure,
    spec_repeat_one_success, spec_repeat_one_seek,
    spec_repeat_one_create, spec_repeat_one_callback, spec_op_repeat_one, spec_repeat_one_tail,
    spec_min_repeat_one_failure, spec_min_repeat_one_success, spec_min_repeat_one_create,
    spec_min_repeat_one_callback, spec_op_min_repeat_one, spec_min_repeat_one_tail,
    spec_dispatch, spec_handle, spec_run_context,
};
use crate::MAXREPEAT;

verus! {

fn literal_test(kind: LiteralKind, code: u32, c: u32) -> (r: bool)
    ensures
        r == spec_literal_test(kind, code, c),
{
    match kind {
        LiteralKind::Eq => code == c,
        LiteralKind::NotEq => code != c,
        LiteralKind::EqIgnore => code == lower_ascii(c),
        LiteralKind::NotEqIgnore => code != lower_ascii(c),
        LiteralKind::EqUniIgnore => code == lower_unicode(c),
        LiteralKind::NotEqUniIgnore => code != lower_unicode(c),
        LiteralKind::LocIgnore => char_loc_ignore(code, c),
        LiteralKind::NotLocIgnore => !char_loc_ignore(code, c),
    }
}

fn in_test(kind: InKind, set: &[u32], c: u32) -> (r: bool)
    requires
        spec_in_test(kind, set@, c) is Some,
    ensures
        Some(r) == spec_in_test(kind, set@, c),
{
    match kind {
        InKind::Plain => charset(set, c),
        InKind::Ignore => charset(set, lower_ascii(c)),
        InKind::UniIgnore => charset(set, lower_unicode(c)),
        InKind::LocIgnore => charset_loc_ignore(set, c),
    }
}

fn fold(kind: GroupKind, c: u32) -> (r: u32)
    ensures
        r == spec_fold(kind, c),
{
    match kind {
        GroupKind::Plain => c,
        GroupKind::Ignore => lower_ascii(c),
        GroupKind::LocIgnore => lower_locate(c),
        GroupKind::UniIgnore => lower_unicode(c),
    }
}

/// Moves past a matched one-char item.
fn advance_one(drive: &mut StateContext, code_skip: usize)
    requires
        spec_advance_one(old(drive).state.env(), old(drive).dv(), code_skip) is Some,
    ensures
        steps_to(*old(drive), *final(drive), spec_advance_one(old(drive).state.env(), old(drive).dv(), code_skip)),
{
    drive.skip_code(code_skip);
    drive.skip_char(1);
}

/// `<LITERAL> <code>` and its variants.
fn general_op_literal(drive: &mut StateContext, kind: LiteralKind)
    requires
        spec_op_literal(old(drive).state.env(), old(drive).dv(), kind) is Some,
    ensures
        steps_to(*old(drive), *final(drive), spec_op_literal(old(drive).state.env(), old(drive).dv(), kind)),
{
    if drive.at_end() || !literal_test(kind, drive.peek_code(1), drive.peek_char()) {
        drive.failure();
    } else {
        advance_one(drive, 2);
    }
}

/// `<IN> <skip> <set>` and its variants.
fn general_op_in(drive: &mut StateContext, kind: InKind)
    requires
        spec_op_in(old(drive).state.env(), old(drive).dv(), kind) is Some,
    ensures
        steps_to(*old(drive), *final(drive), spec_op_in(old(drive).state.env(), old(drive).dv(), kind)),
{
    if drive.at_end() || !in_test(
        kind,
        drive.state.pattern_from(&drive.ctx, 2),
        drive.peek_char(),
    ) {
        drive.failure();
    } else {
        drive.skip_code_from(1);
        drive.skip_char(1);
    }
}

/// Whether the position assertion `atcode` holds at the context.
fn at(drive: &StateContext, atcode: SreAtCode) -> (r: bool)
    requires
        spec_at(drive.state.env(), drive.ctx, atcode) is Some,
    ensures
        Some(r) == spec_at(drive.state.env(), drive.ctx, atcode),
{
    let st = &drive.state;
    let c = &drive.ctx;
    match atcode {
        SreAtCode::BEGINNING => c.string_position == 0,
        SreAtCode::BEGINNING_STRING => c.string_position == 0,
        SreAtCode::BEGINNING_LINE => c.string_position == 0 || is_linebreak(
            st.back_peek_char_at(c),
        ),
        SreAtCode::BOUNDARY => st.at_boundary_at(c, WordKind::Ascii),
        SreAtCode::NON_BOUNDARY => st.at_non_boundary_at(c, WordKind::Ascii),
        SreAtCode::END => (drive.remaining_chars() == 1 && drive.at_linebreak()) || drive.at_end(),
        SreAtCode::END_LINE => drive.at_linebreak() || drive.at_end(),
        SreAtCode::END_STRING => drive.at_end(),
        SreAtCode::LOC_BOUNDARY => st.at_boundary_at(c, WordKind::Locale),
        SreAtCode::LOC_NON_BOUNDARY => st.at_non_boundary_at(c, WordKind::Locale),
        SreAtCode::UNI_BOUNDARY => st.at_boundary_at(c, WordKind::Unicode),
        SreAtCode::UNI_NON_BOUNDARY => st.at_non_boundary_at(c, WordKind::Unicode),
    }
}

/// `<GROUPREF> <group>` and its variants.
fn general_op_groupref(drive: &mut StateContext, kind: GroupKind)
    requires
        spec_op_groupref(old(drive).state.env(), old(drive).dv(), kind) is Some,
    ensures
        steps_to(*old(drive), *final(drive), spec_op_groupref(old(drive).state.env(), old(drive).dv(), kind)),
{
    let ghost e = drive.state.env();
    let (group_start, group_end) = drive.state.get_marks(drive.peek_code(1) as usize);
    let (gs, ge) = match (group_start, group_end) {
        (Some(s), Some(t)) => if s <= t {
            (s, t)
        } else {
            drive.failure();
            return ;
        },
        _ => {
            drive.failure();
            return ;
        },
    };
    let mut w = drive.ctx;
    let mut g = MatchContext {
        string_position: gs,
        string_offset: drive.state.string.offset(0, gs),
        ..drive.ctx
    };
    let ghost target = spec_groupref_loop(e, w, g, (ge - gs) as nat, kind);
    let ghost d0 = drive.dv();
    assert(target == Some(None::<MatchContext>) ==> spec_op_groupref(e, d0, kind) == Some(
        crate::drive::spec_fail(d0),
    ));
    assert(forall|wf: MatchContext|
        target == Some(Some(wf)) ==> spec_op_groupref(e, d0, kind) == (match crate::drive::spec_skip_code(
            d0.ctx,
            2,
        ) {
            None => None,
            Some(c2) => Some(
                with_ctx(
                    d0,
                    MatchContext {
                        string_position: wf.string_position,
                        string_offset: wf.string_offset,
                        ..c2
                    },
                ),
            ),
        }));
    let mut i = gs;
    while i < ge
        invariant
            gs <= i <= ge,
            drive.state.env() == e,
            drive.state.string == old(drive).state.string,
            drive.state.pattern_codes == old(drive).state.pattern_codes,
            drive.ctx == old(drive).ctx,
            drive.dv() == old(drive).dv(),
            spec_groupref_loop(e, w, g, (ge - i) as nat, kind) == target,
            target is Some,
            d0 == old(drive).dv(),
            e == old(drive).state.env(),
            target == Some(None::<MatchContext>) ==> spec_op_groupref(e, d0, kind) == Some(
                crate::drive::spec_fail(d0),
            ),
            forall|wf: MatchContext|
                target == Some(Some(wf)) ==> spec_op_groupref(e, d0, kind) == (match crate::drive::spec_skip_code(
                    d0.ctx,
                    2,
                ) {
                    None => None,
                    Some(c2) => Some(
                        with_ctx(
                            d0,
                            MatchContext {
                                string_position: wf.string_position,
                                string_offset: wf.string_offset,
                                ..c2
                            },
                        ),
                    ),
                }),
        decreases ge - i,
    {
        if drive.state.at_end_at(&w) || fold(kind, drive.state.peek_char_at(&w)) != fold(
            kind,
            drive.state.peek_char_at(&g),
        ) {
            assert(target == Some(None::<MatchContext>));
            drive.failure();
            return ;
        }
        drive.state.skip_char_at(&mut w, 1);
        drive.state.skip_char_at(&mut g, 1);
        i += 1;
    }
    drive.skip_code(2);
    drive.ctx.string_position = w.string_position;
    drive.ctx.string_offset = w.string_offset;
}

/// `<GROUPREF_EXISTS> <group> <skip>`.
fn op_groupref_exists(drive: &mut StateContext)
    requires
        spec_op_groupref_exists(old(drive).state.env(), old(drive).dv()) is Some,
    ensures
        steps_to(*old(drive), *final(drive), spec_op_groupref_exists(old(drive).state.env(), old(drive).dv())),
{
    let (group_start, group_end) = drive.state.get_marks(drive.peek_code(1) as usize);
    match (group_start, group_end) {
        (Some(start), Some(end)) => if start <= end {
            drive.skip_code(3);
        } else {
            drive.skip_code_from(2);
        },
        _ => drive.skip_code_from(2),
    }
}

/// `<MARK> <nr>`.
fn op_mark(drive: &mut StateContext)
    requires
        spec_op_mark(old(drive).state.env(), old(drive).dv()) is Some,
    ensures
        steps_to(*old(drive), *final(drive), spec_op_mark(old(drive).state.env(), old(drive).dv())),
{
    let nr = drive.peek_code(1) as usize;
    drive.state.set_mark(nr, drive.ctx.string_position);
    drive.skip_code(2);
}

/// Sets up the child context of a look-behind assertion.
fn assert_child(drive: &mut StateContext, back: usize, handler: Handler)
    requires
        spec_assert_child(old(drive).state.env(), old(drive).dv(), back, handler) is Some,
        old(drive).ctx.string_position >= back,
    ensures
        steps_to(*old(drive), *final(drive), spec_assert_child(old(drive).state.env(), old(drive).dv(), back, handler)),
{
    let back_offset = drive.state.string.back_offset(drive.ctx.string_offset, back);
    drive.state.string_position = drive.ctx.string_position - back;
    drive.next_ctx = Some(
        MatchContext {
            string_position: drive.ctx.string_position - back,
            string_offset: drive.ctx.string_offset - back_offset,
            code_position: drive.ctx.code_position + 3,
            has_matched: None,
            toplevel: false,
            handler: None,
        },
    );
    drive.ctx.handler = Some(handler);
}

/* assert subpattern */
/* <ASSERT> <skip> <back> <pattern> */
fn op_assert(drive: &mut StateContext)
    requires
        spec_op_assert(old(drive).state.env(), old(drive).dv()) is Some,
    ensures
        steps_to(*old(drive), *final(drive), spec_op_assert(old(drive).state.env(), old(drive).dv())),
{
    let back = drive.peek_code(2) as usize;
    if drive.ctx.string_position < back {
        return drive.failure();
    }
    assert_child(drive, back, Handler::AssertDone);
}

/* assert not subpattern */
/* <ASSERT_NOT> <skip> <back> <pattern> */
fn op_assert_not(drive: &mut StateContext)
    requires
        spec_op_assert_not(old(drive).state.env(), old(drive).dv()) is Some,
    ensures
        steps_to(*old(drive), *final(drive), spec_op_assert_not(old(drive).state.env(), old(drive).dv())),
{
    let back = drive.peek_code(2) as usize;
    if drive.ctx.string_position < back {
        return drive.skip_code_from(1);
    }
    assert_child(drive, back, Handler::AssertNotDone);
}

fn assert_done(drive: &mut StateContext)
    requires
        spec_assert_done(old(drive).state.env(), old(drive).dv()) is Some,
    ensures
        steps_to(*old(drive), *final(drive), spec_assert_done(old(drive).state.env(), old(drive).dv())),
{
    let child_ctx = drive.state.popped_context.unwrap();
    if child_ctx.has_matched == Some(true) {
        drive.ctx.handler = None;
        drive.skip_code_from(1);
    } else {
        drive.failure();
    }
}

fn assert_not_done(drive: &mut StateContext)
    requires
        spec_assert_not_done(old(drive).state.env(), old(drive).dv()) is Some,
    ensures
        steps_to(*old(drive), *final(drive), spec_assert_not_done(old(drive).state.env(), old(drive).dv())),
{
    let child_ctx = drive.state.popped_context.unwrap();
    if child_ctx.has_matched == Some(true) {
        drive.failure();
    } else {
        drive.ctx.handler = None;
        drive.skip_code_from(1);
    }
}

/* ---------------- alternation ---------------- */
// <BRANCH> <0=skip> code <JUMP> ... <NULL>

fn op_branch(drive: &mut StateContext)
    requires
        spec_op_branch(old(drive).state.env(), old(drive).dv()) is Some,
    ensures
        steps_to(*old(drive), *final(drive), spec_op_branch(old(drive).state.env(), old(drive).dv())),
{
    drive.state.marks_push();
    drive.state.branch_stack.push(BranchContext { branch_offset: 1 });
    drive.ctx.handler = Some(Handler::BranchCreate);
    branch_create(drive);
}

fn branch_create(drive: &mut StateContext)
    requires
        spec_branch_create(old(drive).state.env(), old(drive).dv()) is Some,
    ensures
        steps_to(*old(drive), *final(drive), spec_branch_create(old(drive).state.env(), old(drive).dv())),
{
    let n = drive.state.branch_stack.len();
    let branch_offset = drive.state.branch_stack[n - 1].branch_offset;
    let next_length = drive.peek_code(branch_offset) as usize;
    if next_length == 0 {
        return branch_failure(drive);
    }
    drive.sync_string_position();
    drive.next_ctx(branch_offset + 1, Handler::BranchCallback);
    drive.state.branch_stack.set(n - 1, BranchContext { branch_offset: branch_offset + next_length });
}

fn branch_callback(drive: &mut StateContext)
    requires
        spec_branch_callback(old(drive).state.env(), old(drive).dv()) is Some,
    ensures
        steps_to(*old(drive), *final(drive), spec_branch_callback(old(drive).state.env(), old(drive).dv())),
{
    let child_ctx = drive.state.popped_context.unwrap();
    if child_ctx.has_matched == Some(true) {
        return branch_success(drive);
    }
    drive.state.marks_pop_keep();
    drive.ctx.handler = Some(Handler::BranchCreate);
}

fn branch_failure(drive: &mut StateContext)
    ensures
        steps_to(*old(drive), *final(drive), Some(spec_branch_failure(old(drive).dv()))),
{
    drive.state.marks_pop_discard();
    drive.state.branch_stack.pop();
    drive.failure();
}

fn branch_success(drive: &mut StateContext)
    ensures
        final(drive).state.env() == old(drive).state.env(),
        final(drive).state.string == old(drive).state.string,
        final(drive).state.pattern_codes == old(drive).state.pattern_codes,
        final(drive).dv() == (crate::state::Drive {
            m: crate::state::Machine {
                branch_stack: pop_seq(old(drive).dv().m.branch_stack),
                ..old(drive).dv().m
            },
            ctx: MatchContext { has_matched: Some(true), ..old(drive).ctx },
            ..old(drive).dv()
        }),
{
    // the marks saved for the alternatives stay on the marks stack
    drive.state.branch_stack.pop();
    drive.ctx.has_matched = Some(true);
}

/* ---------------- REPEAT / MIN_UNTIL / MAX_UNTIL ---------------- */

/* create repeat context.  all the hard work is done
by the UNTIL operator (MAX_UNTIL, MIN_UNTIL) */
/* <REPEAT> <skip> <1=min> <2=max> item <UNTIL> tail */
fn op_repeat(drive: &mut StateContext)
    requires
        spec_op_repeat(old(drive).state.env(), old(drive).dv()) is Some,
    ensures
        steps_to(*old(drive), *final(drive), spec_op_repeat(old(drive).state.env(), old(drive).dv())),
{
    let repeat_ctx = RepeatContext {
        count: -1,
        min_count: drive.peek_code(2) as usize,
        max_count: drive.peek_code(3) as usize,
        code_position: drive.ctx.code_position,
        last_position: usize::MAX,
    };
    drive.state.repeat_stack.push(repeat_ctx);
    drive.sync_string_position();
    drive.next_ctx_from(1, Handler::RepeatDone);
}

fn repeat_done(drive: &mut StateContext)
    requires
        spec_repeat_done(old(drive).dv()) is Some,
    ensures
        steps_to(*old(drive), *final(drive), spec_repeat_done(old(drive).dv())),
{
    drive.ctx.has_matched = drive.state.popped_context.unwrap().has_matched;
    drive.state.repeat_stack.pop();
}

/* minimizing repeat */
fn op_min_until(drive: &mut StateContext)
    requires
        spec_op_min_until(old(drive).state.env(), old(drive).dv()) is Some,
    ensures
        steps_to(*old(drive), *final(drive), spec_op_min_until(old(drive).state.env(), old(drive).dv())),
{
    let n = drive.state.repeat_stack.len();
    let repeat_ctx = drive.state.repeat_stack[n - 1];
    drive.sync_string_position();
    let count = repeat_ctx.count + 1;
    if (count as usize) < repeat_ctx.min_count {
        // not enough matches
        drive.state.repeat_stack.set(n - 1, RepeatContext { count, ..repeat_ctx });
        drive.state.min_until_stack.push(
            MinUntilContext {
                count,
                save_repeat_ctx: None,
                save_last_position: repeat_ctx.last_position,
            },
        );
        drive.next_ctx_at(repeat_ctx.code_position + 4, Handler::MinUntilBody);
    }
    // see if the tail matches

    drive.state.marks_push();
    let save_repeat_ctx = drive.state.repeat_stack.pop();
    drive.state.min_until_stack.push(
        MinUntilContext { count, save_repeat_ctx, save_last_position: repeat_ctx.last_position },
    );
    drive.next_ctx(1, Handler::MinUntilTail);
}

fn min_until_body(drive: &mut StateContext)
    requires
        spec_min_until_body(old(drive).dv()) is Some,
    ensures
        steps_to(*old(drive), *final(drive), spec_min_until_body(old(drive).dv())),
{
    drive.ctx.has_matched = drive.state.popped_context.unwrap().has_matched;
    if drive.ctx.has_matched != Some(true) {
        let k = drive.state.min_until_stack.len();
        let mu = drive.state.min_until_stack[k - 1];
        let n = drive.state.repeat_stack.len();
        let repeat_ctx = drive.state.repeat_stack[n - 1];
        drive.state.repeat_stack.set(
            n - 1,
            RepeatContext {
                count: mu.count - 1,
                last_position: mu.save_last_position,
                ..repeat_ctx
            },
        );
        drive.sync_string_position();
    }
}

fn min_until_tail(drive: &mut StateContext)
    requires
        spec_min_until_tail(old(drive).dv()) is Some,
    ensures
        steps_to(*old(drive), *final(drive), spec_min_until_tail(old(drive).dv())),
{
    let k = drive.state.min_until_stack.len();
    let mu = drive.state.min_until_stack[k - 1];
    let mut repeat_ctx = mu.save_repeat_ctx.unwrap();
    if drive.state.popped_context.unwrap().has_matched == Some(true) {
        // restore repeat before return
        drive.state.repeat_stack.push(repeat_ctx);
        return min_until_success(drive);
    }
    drive.sync_string_position();
    drive.state.marks_pop();
    // match more until tail matches

    if mu.count as usize >= repeat_ctx.max_count && repeat_ctx.max_count != MAXREPEAT
        || drive.state.string_position == repeat_ctx.last_position {
        // restore repeat before return
        drive.state.repeat_stack.push(repeat_ctx);
        return min_until_failure(drive);
    }
    repeat_ctx.count = mu.count;
    /* zero-width match protection */
    drive.state.min_until_stack.set(
        k - 1,
        MinUntilContext { save_last_position: repeat_ctx.last_position, ..mu },
    );
    repeat_ctx.last_position = drive.state.string_position;
    drive.next_ctx_at(repeat_ctx.code_position + 4, Handler::MinUntilBody);
    // restore repeat before return
    drive.state.repeat_stack.push(repeat_ctx);
}

fn min_until_failure(drive: &mut StateContext)
    ensures
        steps_to(*old(drive), *final(drive), Some(spec_min_until_failure(old(drive).dv()))),
{
    drive.state.marks_pop_discard();
    drive.state.min_until_stack.pop();
    drive.failure();
}

fn min_until_success(drive: &mut StateContext)
    ensures
        final(drive).state.env() == old(drive).state.env(),
        final(drive).state.string == old(drive).state.string,
        final(drive).state.pattern_codes == old(drive).state.pattern_codes,
        final(drive).dv() == (crate::state::Drive {
            m: crate::state::Machine {
                min_until_stack: pop_seq(old(drive).dv().m.min_until_stack),
                ..old(drive).dv().m
            },
            ctx: MatchContext { has_matched: Some(true), ..old(drive).ctx },
            ..old(drive).dv()
        }),
{
    drive.state.min_until_stack.pop();
    drive.ctx.has_matched = Some(true);
}

/// The first part of `MAX_UNTIL`, the greedy end of a repeat: it reads the repeat context
/// and records the position. Dispatch does not run it; the engine does not support
/// `MAX_UNTIL`.
fn op_max_until(drive: &mut StateContext)
    requires
        spec_op_max_until(old(drive).dv()) is Some,
    ensures
        steps_to(*old(drive), *final(drive), spec_op_max_until(old(drive).dv())),
{
    let n = drive.state.repeat_stack.len();
    let repeat_ctx = drive.state.repeat_stack[n - 1];
    drive.sync_string_position();
    let _count = repeat_ctx.count + 1;
}

/* ---------------- counting repeated one-char items ---------------- */

fn general_count_literal(drive: &mut StateContext, end: usize, kind: LiteralKind)
    requires
        spec_peek_code(old(drive).state.env(), old(drive).ctx, 1) is Some,
        spec_count_literal(
            old(drive).state.env(),
            old(drive).ctx,
            end,
            spec_peek_code(old(drive).state.env(), old(drive).ctx, 1).unwrap(),
            kind,
        ) is Some,
    ensures
        final(drive).state == old(drive).state,
        final(drive).next_ctx == old(drive).next_ctx,
        spec_count_literal(
            old(drive).state.env(),
            old(drive).ctx,
            end,
            spec_peek_code(old(drive).state.env(), old(drive).ctx, 1).unwrap(),
            kind,
        ) == Some(final(drive).ctx),
{
    let ghost e = drive.state.env();
    let ch = drive.peek_code(1);
    let ghost target = spec_count_literal(e, drive.ctx, end, ch, kind);
    while !drive.ctx.string_position < end && literal_test(kind, ch, drive.peek_char())
        invariant
            drive.state == old(drive).state,
            drive.next_ctx == old(drive).next_ctx,
            e == drive.state.env(),
            ch == spec_peek_code(old(drive).state.env(), old(drive).ctx, 1).unwrap(),
            target == spec_count_literal(e, old(drive).ctx, end, ch, kind),
            spec_count_literal(e, drive.ctx, end, ch, kind) == target,
            target is Some,
        decreases usize::MAX - drive.ctx.string_position,
    {
        drive.skip_char(1);
    }
}

fn count(drive: &mut StateContext, maxcount: usize) -> (r: usize)
    requires
        spec_count(old(drive).state.env(), old(drive).dv(), maxcount) is Some,
    ensures
        final(drive).state.env() == old(drive).state.env(),
        final(drive).state.string == old(drive).state.string,
        final(drive).state.pattern_codes == old(drive).state.pattern_codes,
        spec_count(old(drive).state.env(), old(drive).dv(), maxcount) == Some((final(drive).dv(), r)),
    decreases old(drive).state.pattern_codes@.len() - old(drive).ctx.code_position, 3int, 0int,
{
    let ghost e = drive.state.env();
    let save_ctx = drive.ctx;
    let rc = drive.remaining_chars();
    let maxcount = if maxcount <= rc {
        maxcount
    } else {
        rc
    };
    let end = drive.ctx.string_position + maxcount;
    let opcode = SreOpcode::try_from_code(drive.peek_code(0)).unwrap();
    match opcode {
        SreOpcode::ANY => {
            let ghost target = spec_count_any(e, drive.ctx, end);
            while !drive.ctx.string_position < end && !drive.at_linebreak()
                invariant
                    drive.state == old(drive).state,
                    drive.next_ctx == old(drive).next_ctx,
                    e == drive.state.env(),
                    spec_count_any(e, drive.ctx, end) == target,
                    target == spec_count_any(e, save_ctx, end),
                    target is Some,
                decreases usize::MAX - drive.ctx.string_position,
            {
                drive.skip_char(1);
            }
        },
        SreOpcode::ANY_ALL => {
            drive.skip_char(maxcount);
        },
        SreOpcode::IN => {
            let ghost target = spec_count_in(e, drive.ctx, end);
            while !drive.ctx.string_position < end && charset(
                drive.state.pattern_from(&drive.ctx, 2),
                drive.peek_char(),
            )
                invariant
                    drive.state == old(drive).state,
                    drive.next_ctx == old(drive).next_ctx,
                    e == drive.state.env(),
                    spec_count_in(e, drive.ctx, end) == target,
                    target == spec_count_in(e, save_ctx, end),
                    target is Some,
                decreases usize::MAX - drive.ctx.string_position,
            {
                drive.skip_char(1);
            }
        },
        SreOpcode::LITERAL => general_count_literal(drive, end, LiteralKind::Eq),
        SreOpcode::NOT_LITERAL => general_count_literal(drive, end, LiteralKind::NotEq),
        SreOpcode::LITERAL_IGNORE => general_count_literal(drive, end, LiteralKind::EqIgnore),
        SreOpcode::NOT_LITERAL_IGNORE => general_count_literal(
            drive,
            end,
            LiteralKind::NotEqIgnore,
        ),
        SreOpcode::LITERAL_LOC_IGNORE => general_count_literal(drive, end, LiteralKind::LocIgnore),
        SreOpcode::NOT_LITERAL_LOC_IGNORE => general_count_literal(
            drive,
            end,
            LiteralKind::NotLocIgnore,
        ),
        SreOpcode::LITERAL_UNI_IGNORE => general_count_literal(
            drive,
            end,
            LiteralKind::EqUniIgnore,
        ),
        SreOpcode::NOT_LITERAL_UNI_IGNORE => general_count_literal(
            drive,
            end,
            LiteralKind::NotEqUniIgnore,
        ),
        _ => {
            return general_count(drive, maxcount);
        },
    }
    let count = drive.ctx.string_position - drive.state.string_position;
    drive.ctx = save_ctx;
    count
}

/* General case */
fn general_count(drive: &mut StateContext, maxcount: usize) -> (r: usize)
    requires
        spec_general_count(old(drive).state.env(), old(drive).dv(), maxcount) is Some,
    ensures
        final(drive).state.env() == old(drive).state.env(),
        final(drive).state.string == old(drive).state.string,
        final(drive).state.pattern_codes == old(drive).state.pattern_codes,
        spec_general_count(old(drive).state.env(), old(drive).dv(), maxcount) == Some(
            (final(drive).dv(), r),
        ),
    decreases old(drive).state.pattern_codes@.len() - old(drive).ctx.code_position, 2int, 0int,
{
    let ghost e = drive.state.env();
    let mut count: usize = 0;
    let rc = drive.remaining_chars();
    let maxcount = if maxcount <= rc {
        maxcount
    } else {
        rc
    };
    let save_ctx = drive.ctx;
    drive.skip_code(4);
    let reset_position = drive.ctx.code_position;
    let ghost target = spec_general_count_loop(e, drive.dv(), reset_position, 0, maxcount);
    while count < maxcount
        invariant_except_break
            spec_general_count_loop(e, drive.dv(), reset_position, count, maxcount) == target,
        invariant
            count <= maxcount,
            e == drive.state.env(),
            e == old(drive).state.env(),
            drive.state.string == old(drive).state.string,
            drive.state.pattern_codes == old(drive).state.pattern_codes,
            save_ctx == old(drive).ctx,
            reset_position == save_ctx.code_position + 4,
            target is Some,
        ensures
            target == Some((drive.dv(), count)),
        decreases maxcount - count,
    {
        drive.ctx.code_position = reset_position;
        let code = drive.peek_code(0);
        let code = SreOpcode::try_from_code(code).unwrap();
        dispatch(code, drive);
        if drive.ctx.has_matched == Some(false) {
            break ;
        }
        count += 1;
    }
    drive.ctx = save_ctx;
    count
}

/* ---------------- REPEAT_ONE ---------------- */

/* match repeated sequence (maximizing regexp) */
/* this operator only works if the repeated item is
exactly one character wide, and we're not already
collecting backtracking points.  for other cases,
use the MAX_REPEAT operator */
/* <REPEAT_ONE> <skip> <1=min> <2=max> item <SUCCESS> tail */
fn op_repeat_one(drive: &mut StateContext)
    requires
        spec_op_repeat_one(old(drive).state.env(), old(drive).dv()) is Some,
    ensures
        steps_to(*old(drive), *final(drive), spec_op_repeat_one(old(drive).state.env(), old(drive).dv())),
    decreases old(drive).state.pattern_codes@.len() - old(drive).ctx.code_position, 4int, 0int,
{
    let min_count = drive.peek_code(2) as usize;
    let max_count = drive.peek_code(3) as usize;
    if drive.remaining_chars() < min_count {
        return drive.failure();
    }
    drive.sync_string_position();
    let count = count(drive, max_count);
    drive.skip_char(count);
    if count < min_count {
        return drive.failure();
    }
    repeat_one_tail(drive, count, min_count, max_count);
}

fn repeat_one_tail(drive: &mut StateContext, count: usize, min_count: usize, max_count: usize)
    requires
        spec_repeat_one_tail(old(drive).state.env(), old(drive).dv(), count, min_count, max_count) is Some,
    ensures
        steps_to(
            *old(drive),
            *final(drive),
            spec_repeat_one_tail(old(drive).state.env(), old(drive).dv(), count, min_count, max_count),
        ),
{
    let next_code = drive.peek_code(drive.peek_code(1) as usize + 1);
    if next_code == SreOpcode::SUCCESS.code() && drive.can_success() {
        // tail is empty. we're finished
        drive.sync_string_position();
        drive.ctx.has_matched = Some(true);
        return ;
    }
    // Special case: Tail starts with a literal. Skip positions where
    // the rest of the pattern cannot possibly match.

    let following_literal = if next_code == SreOpcode::LITERAL.code() {
        Some(drive.peek_code(drive.peek_code(1) as usize + 2))
    } else {
        None
    };
    drive.state.marks_push();
    drive.state.repeat_one_stack.push(
        RepeatOneContext { count, min_count, max_count, following_literal },
    );
    drive.ctx.handler = Some(Handler::RepeatOneCreate);
    repeat_one_create(drive);
}

/// Moves back until the char at the context is `c`; `true` where the repeat gives up.
fn repeat_one_seek(drive: &mut StateContext, count: usize, min_count: usize, c: u32) -> (r: bool)
    requires
        spec_repeat_one_seek(old(drive).state.env(), old(drive).dv(), count, min_count, c) is Some,
    ensures
        final(drive).state.env() == old(drive).state.env(),
        final(drive).state.string == old(drive).state.string,
        final(drive).state.pattern_codes == old(drive).state.pattern_codes,
        spec_repeat_one_seek(old(drive).state.env(), old(drive).dv(), count, min_count, c) == Some(
            (final(drive).dv(), r),
        ),
{
    let ghost e = drive.state.env();
    let ghost target = spec_repeat_one_seek(e, drive.dv(), count, min_count, c);
    while drive.at_end() || drive.peek_char() != c
        invariant
            e == drive.state.env(),
            e == old(drive).state.env(),
            drive.state.string == old(drive).state.string,
            drive.state.pattern_codes == old(drive).state.pattern_codes,
            target == spec_repeat_one_seek(e, old(drive).dv(), count, min_count, c),
            spec_repeat_one_seek(e, drive.dv(), count, min_count, c) == target,
            target is Some,
        decreases drive.ctx.string_position,
    {
        if count <= min_count {
            return true;
        }
        drive.back_skip_char(1);
        let k = drive.state.repeat_one_stack.len();
        let top = drive.state.repeat_one_stack[k - 1];
        drive.state.repeat_one_stack.set(k - 1, RepeatOneContext { count: top.count - 1, ..top });
    }
    false
}

fn repeat_one_create(drive: &mut StateContext)
    requires
        spec_repeat_one_create(old(drive).state.env(), old(drive).dv()) is Some,
    ensures
        steps_to(*old(drive), *final(drive), spec_repeat_one_create(old(drive).state.env(), old(drive).dv())),
{
    let n = drive.state.repeat_one_stack.len();
    let top = drive.state.repeat_one_stack[n - 1];
    if let Some(c) = top.following_literal {
        if repeat_one_seek(drive, top.count, top.min_count, c) {
            return repeat_one_failure(drive);
        }
    }
    drive.sync_string_position();
    // General case: backtracking
    drive.next_ctx_from(1, Handler::RepeatOneCallback);
}

fn repeat_one_callback(drive: &mut StateContext)
    requires
        spec_repeat_one_callback(old(drive).state.env(), old(drive).dv()) is Some,
    ensures
        steps_to(*old(drive), *final(drive), spec_repeat_one_callback(old(drive).state.env(), old(drive).dv())),
{
    if drive.state.popped_context.unwrap().has_matched == Some(true) {
        return repeat_one_success(drive);
    }
    let n = drive.state.repeat_one_stack.len();
    let top = drive.state.repeat_one_stack[n - 1];
    if top.count <= top.min_count {
        return repeat_one_failure(drive);
    }
    drive.back_skip_char(1);
    drive.state.repeat_one_stack.set(n - 1, RepeatOneContext { count: top.count - 1, ..top });
    drive.state.marks_pop_keep();
    drive.ctx.handler = Some(Handler::RepeatOneCreate);
    repeat_one_create(drive);
}

fn repeat_one_failure(drive: &mut StateContext)
    ensures
        steps_to(*old(drive), *final(drive), Some(spec_repeat_one_failure(old(drive).dv()))),
{
    drive.state.marks_pop_discard();
    drive.state.repeat_one_stack.pop();
    drive.failure();
}

fn repeat_one_success(drive: &mut StateContext)
    ensures
        steps_to(*old(drive), *final(drive), Some(spec_repeat_one_success(old(drive).dv()))),
{
    drive.state.repeat_one_stack.pop();
    drive.ctx.has_matched = Some(true);
}

/* ---------------- MIN_REPEAT_ONE ---------------- */

/* <MIN_REPEAT_ONE> <skip> <1=min> <2=max> item <SUCCESS> tail */
fn op_min_repeat_one(drive: &mut StateContext)
    requires
        spec_op_min_repeat_one(old(drive).state.env(), old(drive).dv()) is Some,
    ensures
        steps_to(*old(drive), *final(drive), spec_op_min_repeat_one(old(drive).state.env(), old(drive).dv())),
    decreases old(drive).state.pattern_codes@.len() - old(drive).ctx.code_position, 4int, 0int,
{
    let min_count = drive.peek_code(2) as usize;
    let max_count = drive.peek_code(3) as usize;
    if drive.remaining_chars() < min_count {
        return drive.failure();
    }
    drive.sync_string_position();
    let count = if min_count == 0 {
        0
    } else {
        let count = count(drive, min_count);
        if count < min_count {
            return drive.failure();
        }
        drive.skip_char(count);
        count
    };
    min_repeat_one_tail(drive, count, min_count, max_count);
}

fn min_repeat_one_tail(drive: &mut StateContext, count: usize, min_count: usize, max_count: usize)
    requires
        spec_min_repeat_one_tail(old(drive).state.env(), old(drive).dv(), count, min_count, max_count) is Some,
    ensures
        steps_to(
            *old(drive),
            *final(drive),
            spec_min_repeat_one_tail(old(drive).state.env(), old(drive).dv(), count, min_count, max_count),
        ),
{
    let next_code = drive.peek_code(drive.peek_code(1) as usize + 1);
    if next_code == SreOpcode::SUCCESS.code() && drive.can_success() {
        // tail is empty. we're finished
        drive.sync_string_position();
        drive.ctx.has_matched = Some(true);
        return ;
    }
    drive.state.marks_push();
    drive.state.min_repeat_one_stack.push(MinRepeatOneContext { count, min_count, max_count });
    drive.ctx.handler = Some(Handler::MinRepeatOneCreate);
    min_repeat_one_create(drive);
}

fn min_repeat_one_create(drive: &mut StateContext)
    requires
        spec_min_repeat_one_create(old(drive).state.env(), old(drive).dv()) is Some,
    ensures
        steps_to(*old(drive), *final(drive), spec_min_repeat_one_create(old(drive).state.env(), old(drive).dv())),
{
    let n = drive.state.min_repeat_one_stack.len();
    let top = drive.state.min_repeat_one_stack[n - 1];
    if top.max_count == MAXREPEAT || top.count <= top.max_count {
        drive.sync_string_position();
        drive.next_ctx_from(1, Handler::MinRepeatOneCallback);
    } else {
        min_repeat_one_failure(drive);
    }
}

fn min_repeat_one_callback(drive: &mut StateContext)
    requires
        spec_min_repeat_one_callback(old(drive).state.env(), old(drive).dv()) is Some,
    ensures
        steps_to(*old(drive), *final(drive), spec_min_repeat_one_callback(old(drive).state.env(), old(drive).dv())),
{
    if drive.state.popped_context.unwrap().has_matched == Some(true) {
        return min_repeat_one_success(drive);
    }
    drive.sync_string_position();
    if count(drive, 1) == 0 {
        return min_repeat_one_failure(drive);
    }
    drive.skip_char(1);
    let n = drive.state.min_repeat_one_stack.len();
    let top = drive.state.min_repeat_one_stack[n - 1];
    drive.state.min_repeat_one_stack.set(n - 1, MinRepeatOneContext { count: top.count + 1, ..top });
    drive.state.marks_pop_keep();
    drive.ctx.handler = Some(Handler::MinRepeatOneCreate);
    min_repeat_one_create(drive);
}

fn min_repeat_one_failure(drive: &mut StateContext)
    ensures
        steps_to(*old(drive), *final(drive), Some(spec_min_repeat_one_failure(old(drive).dv()))),
{
    drive.state.marks_pop_discard();
    drive.state.min_repeat_one_stack.pop();
    drive.failure();
}

fn min_repeat_one_success(drive: &mut StateContext)
    ensures
        steps_to(*old(drive), *final(drive), Some(spec_min_repeat_one_success(old(drive).dv()))),
{
    drive.state.min_repeat_one_stack.pop();
    drive.ctx.has_matched = Some(true);
}

/* ---------------- dispatch ---------------- */

/// Runs the operation `opcode` at the context.
pub fn dispatch(opcode: SreOpcode, drive: &mut StateContext)
    requires
        spec_dispatch(old(drive).state.env(), opcode, old(drive).dv()) is Some,
    ensures
        steps_to(*old(drive), *final(drive), spec_dispatch(old(drive).state.env(), opcode, old(drive).dv())),
    decreases old(drive).state.pattern_codes@.len() - old(drive).ctx.code_position, 5int, 0int,
{
    match opcode {
        SreOpcode::FAILURE => {
            drive.failure();
        },
        SreOpcode::SUCCESS => {
            drive.ctx.has_matched = Some(drive.can_success());
            if drive.ctx.has_matched == Some(true) {
                drive.state.string_position = drive.ctx.string_position;
            }
        },
        SreOpcode::ANY => {
            if drive.at_end() || drive.at_linebreak() {
                drive.failure();
            } else {
                advance_one(drive, 1);
            }
        },
        SreOpcode::ANY_ALL => {
            if drive.at_end() {
                drive.failure();
            } else {
                advance_one(drive, 1);
            }
        },
        SreOpcode::ASSERT => op_assert(drive),
        SreOpcode::ASSERT_NOT => op_assert_not(drive),
        SreOpcode::AT => {
            let atcode = SreAtCode::try_from_code(drive.peek_code(1)).unwrap();
            if at(drive, atcode) {
                drive.skip_code(2);
            } else {
                drive.failure();
            }
        },
        SreOpcode::BRANCH => op_branch(drive),
        SreOpcode::CATEGORY => {
            let catcode = SreCatCode::try_from_code(drive.peek_code(1)).unwrap();
            if drive.at_end() || !category(catcode, drive.peek_char()) {
                drive.failure();
            } else {
                advance_one(drive, 2);
            }
        },
        SreOpcode::IN => general_op_in(drive, InKind::Plain),
        SreOpcode::IN_IGNORE => general_op_in(drive, InKind::Ignore),
        SreOpcode::IN_UNI_IGNORE => general_op_in(drive, InKind::UniIgnore),
        SreOpcode::IN_LOC_IGNORE => general_op_in(drive, InKind::LocIgnore),
        SreOpcode::INFO => drive.skip_code_from(1),
        SreOpcode::JUMP => drive.skip_code_from(1),
        SreOpcode::LITERAL => general_op_literal(drive, LiteralKind::Eq),
        SreOpcode::NOT_LITERAL => general_op_literal(drive, LiteralKind::NotEq),
        SreOpcode::LITERAL_IGNORE => general_op_literal(drive, LiteralKind::EqIgnore),
        SreOpcode::NOT_LITERAL_IGNORE => general_op_literal(drive, LiteralKind::NotEqIgnore),
        SreOpcode::LITERAL_UNI_IGNORE => general_op_literal(drive, LiteralKind::EqUniIgnore),
        SreOpcode::NOT_LITERAL_UNI_IGNORE => general_op_literal(drive, LiteralKind::NotEqUniIgnore),
        SreOpcode::LITERAL_LOC_IGNORE => general_op_literal(drive, LiteralKind::LocIgnore),
        SreOpcode::NOT_LITERAL_LOC_IGNORE => general_op_literal(drive, LiteralKind::NotLocIgnore),
        SreOpcode::MARK => op_mark(drive),
        SreOpcode::MIN_UNTIL => op_min_until(drive),
        SreOpcode::REPEAT => op_repeat(drive),
        SreOpcode::REPEAT_ONE => op_repeat_one(drive),
        SreOpcode::MIN_REPEAT_ONE => op_min_repeat_one(drive),
        SreOpcode::GROUPREF => general_op_groupref(drive, GroupKind::Plain),
        SreOpcode::GROUPREF_IGNORE => general_op_groupref(drive, GroupKind::Ignore),
        SreOpcode::GROUPREF_LOC_IGNORE => general_op_groupref(drive, GroupKind::LocIgnore),
        SreOpcode::GROUPREF_UNI_IGNORE => general_op_groupref(drive, GroupKind::UniIgnore),
        SreOpcode::GROUPREF_EXISTS => op_groupref_exists(drive),
        // MAX_UNTIL is not implemented, and the set-only operations are not operations here
        _ => unreached(),
    }
}

/// Resumes a context with its handler.
pub fn handle(handler: Handler, drive: &mut StateContext)
    requires
        spec_handle(old(drive).state.env(), handler, old(drive).dv()) is Some,
    ensures
        steps_to(*old(drive), *final(drive), spec_handle(old(drive).state.env(), handler, old(drive).dv())),
{
    match handler {
        Handler::AssertDone => assert_done(drive),
        Handler::AssertNotDone => assert_not_done(drive),
        Handler::BranchCreate => branch_create(drive),
        Handler::BranchCallback => branch_callback(drive),
        Handler::MinRepeatOneCreate => min_repeat_one_create(drive),
        Handler::MinRepeatOneCallback => min_repeat_one_callback(drive),
        Handler::RepeatOneCreate => repeat_one_create(drive),
        Handler::RepeatOneCallback => repeat_one_callback(drive),
        Handler::RepeatDone => repeat_done(drive),
        Handler::MinUntilBody => min_until_body(drive),
        Handler::MinUntilTail => min_until_tail(drive),
    }
}

/// Runs a context: resumes it with its handler, or runs the operation at its code position.
pub fn run_context(drive: &mut StateContext)
    requires
        spec_run_context(old(drive).state.env(), old(drive).dv()) is Some,
    ensures
        steps_to(*old(drive), *final(drive), spec_run_context(old(drive).state.env(), old(drive).dv())),
{
    reveal(spec_run_context);
    if let Some(handler) = drive.ctx.handler {
        handle(handler, drive);
    } else if drive.remaining_codes() > 0 {
        let code = drive.peek_code(0);
        let code = SreOpcode::try_from_code(code).unwrap();
        dispatch(code, drive);
    } else {
        drive.failure();
    }
}

} // verus!
