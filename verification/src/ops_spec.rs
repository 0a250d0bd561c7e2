//! The model of the operations of compiled patterns: what each opcode, and each resumed
//! context, does to a drive. `None` stands for a run of the operation that panics.
use vstd::prelude::*;
use crate::constants::{SreOpcode, SreAtCode, opcode_of, atcode_of, catcode_of};
use crate::state::{
    Env, Machine, Drive, MatchContext, Handler, BranchContext, MinRepeatOneContext,
    RepeatOneContext, RepeatContext, MinUntilContext, spec_set_mark, spec_get_marks,
    spec_marks_push, spec_marks_pop, spec_marks_pop_keep, spec_marks_pop_discard,
};
use crate::drive::{
    WordKind, spec_peek_code, spec_peek_char, spec_back_peek_char, spec_skip_char,
    spec_back_skip_char, spec_skip_code, spec_skip_code_from, spec_remaining_chars,
    spec_remaining_codes, spec_at_beginning, spec_at_end, spec_at_linebreak, spec_at_boundary,
    spec_at_non_boundary, spec_can_success, spec_fail, spec_sync, spec_next_ctx_at,
    spec_next_ctx, spec_next_ctx_from,
};
use crate::chars::{
    spec_category, spec_is_linebreak, spec_lower_ascii, spec_lower_unicode,
    spec_char_loc_ignore,
};
use crate::charset::{spec_charset, spec_charset_loc_ignore};
use crate::MAXREPEAT;

verus! {

/// Removes the top of a stack; an empty stack stays empty.
pub open spec fn pop_seq<T>(s: Seq<T>) -> Seq<T> {
    if s.len() == 0 {
        s
    } else {
        s.drop_last()
    }
}

/* ---------------- tests of the literal, set and group-reference operations ---------------- */

/// How a literal operation compares the pattern's code with the subject's char.
#[derive(Clone, Copy, Debug, PartialEq, Eq, Structural)]
pub enum LiteralKind {
    Eq,
    NotEq,
    EqIgnore,
    NotEqIgnore,
    EqUniIgnore,
    NotEqUniIgnore,
    LocIgnore,
    NotLocIgnore,
}

pub open spec fn spec_literal_test(kind: LiteralKind, code: u32, c: u32) -> bool {
    match kind {
        LiteralKind::Eq => code == c,
        LiteralKind::NotEq => code != c,
        LiteralKind::EqIgnore => code == spec_lower_ascii(c),
        LiteralKind::NotEqIgnore => code != spec_lower_ascii(c),
        LiteralKind::EqUniIgnore => code == spec_lower_unicode(c),
        LiteralKind::NotEqUniIgnore => code != spec_lower_unicode(c),
        LiteralKind::LocIgnore => spec_char_loc_ignore(code, c),
        LiteralKind::NotLocIgnore => !spec_char_loc_ignore(code, c),
    }
}

/// How a set operation tests the subject's char.
#[derive(Clone, Copy, Debug, PartialEq, Eq, Structural)]
pub enum InKind {
    Plain,
    Ignore,
    UniIgnore,
    LocIgnore,
}

pub open spec fn spec_in_test(kind: InKind, set: Seq<u32>, c: u32) -> Option<bool> {
    match kind {
        InKind::Plain => spec_charset(set, c),
        InKind::Ignore => spec_charset(set, spec_lower_ascii(c)),
        InKind::UniIgnore => spec_charset(set, spec_lower_unicode(c)),
        InKind::LocIgnore => spec_charset_loc_ignore(set, c),
    }
}

/// How a group reference folds chars before comparing them.
#[derive(Clone, Copy, Debug, PartialEq, Eq, Structural)]
pub enum GroupKind {
    Plain,
    Ignore,
    LocIgnore,
    UniIgnore,
}

pub open spec fn spec_fold(kind: GroupKind, c: u32) -> u32 {
    match kind {
        GroupKind::Plain => c,
        GroupKind::Ignore => spec_lower_ascii(c),
        GroupKind::LocIgnore => spec_lower_ascii(c),
        GroupKind::UniIgnore => spec_lower_unicode(c),
    }
}

/* ---------------- single-step operations ---------------- */

pub open spec fn with_ctx(d: Drive, c: MatchContext) -> Drive {
    Drive { ctx: c, ..d }
}

/// Moves one code cell and one char forward, as a matched one-char item does.
pub open spec fn spec_advance_one(e: Env, d: Drive, code_skip: usize) -> Option<Drive> {
    match spec_skip_code(d.ctx, code_skip) {
        None => None,
        Some(c1) => match spec_skip_char(e, c1, 1) {
            None => None,
            Some(c2) => Some(with_ctx(d, c2)),
        },
    }
}

/// `<LITERAL> <code>` and its variants.
pub open spec fn spec_op_literal(e: Env, d: Drive, kind: LiteralKind) -> Option<Drive> {
    if spec_at_end(e, d.ctx) {
        Some(spec_fail(d))
    } else {
        match (spec_peek_code(e, d.ctx, 1), spec_peek_char(e, d.ctx)) {
            (Some(code), Some(c)) => if !spec_literal_test(kind, code, c) {
                Some(spec_fail(d))
            } else {
                spec_advance_one(e, d, 2)
            },
            _ => None,
        }
    }
}

/// `<IN> <skip> <set>` and its variants.
pub open spec fn spec_op_in(e: Env, d: Drive, kind: InKind) -> Option<Drive> {
    if spec_at_end(e, d.ctx) {
        Some(spec_fail(d))
    } else if d.ctx.code_position + 2 > e.pattern.len() {
        None
    } else {
        match spec_peek_char(e, d.ctx) {
            None => None,
            Some(c) => match spec_in_test(
                kind,
                e.pattern.subrange(d.ctx.code_position + 2, e.pattern.len() as int),
                c,
            ) {
                None => None,
                Some(false) => Some(spec_fail(d)),
                Some(true) => match spec_skip_code_from(e, d.ctx, 1) {
                    None => None,
                    Some(c1) => match spec_skip_char(e, c1, 1) {
                        None => None,
                        Some(c2) => Some(with_ctx(d, c2)),
                    },
                },
            },
        }
    }
}

/// Whether the position assertion `atcode` holds at context `c`.
pub open spec fn spec_at(e: Env, c: MatchContext, atcode: SreAtCode) -> Option<bool> {
    match atcode {
        SreAtCode::BEGINNING => Some(spec_at_beginning(c)),
        SreAtCode::BEGINNING_STRING => Some(spec_at_beginning(c)),
        SreAtCode::BEGINNING_LINE => if spec_at_beginning(c) {
            Some(true)
        } else {
            match spec_back_peek_char(e, c) {
                None => None,
                Some(ch) => Some(spec_is_linebreak(ch)),
            }
        },
        SreAtCode::BOUNDARY => spec_at_boundary(e, c, WordKind::Ascii),
        SreAtCode::NON_BOUNDARY => spec_at_non_boundary(e, c, WordKind::Ascii),
        SreAtCode::END => match spec_remaining_chars(e, c) {
            None => None,
            Some(rc) => if rc == 1 {
                match spec_at_linebreak(e, c) {
                    None => None,
                    Some(b) => Some(b || spec_at_end(e, c)),
                }
            } else {
                Some(spec_at_end(e, c))
            },
        },
        SreAtCode::END_LINE => match spec_at_linebreak(e, c) {
            None => None,
            Some(b) => Some(b || spec_at_end(e, c)),
        },
        SreAtCode::END_STRING => Some(spec_at_end(e, c)),
        SreAtCode::LOC_BOUNDARY => spec_at_boundary(e, c, WordKind::Locale),
        SreAtCode::LOC_NON_BOUNDARY => spec_at_non_boundary(e, c, WordKind::Locale),
        SreAtCode::UNI_BOUNDARY => spec_at_boundary(e, c, WordKind::Unicode),
        SreAtCode::UNI_NON_BOUNDARY => spec_at_non_boundary(e, c, WordKind::Unicode),
    }
}

/// Compares `n` chars of the subject at `w` with the chars at `g`; `Some(None)` on a
/// difference (or the end of the subject at `w`), `Some(Some(w'))` with `w` moved past them.
pub open spec fn spec_groupref_loop(
    e: Env,
    w: MatchContext,
    g: MatchContext,
    n: nat,
    kind: GroupKind,
) -> Option<Option<MatchContext>>
    decreases n,
{
    if n == 0 {
        Some(Some(w))
    } else if spec_at_end(e, w) {
        Some(None)
    } else {
        match (spec_peek_char(e, w), spec_peek_char(e, g)) {
            (Some(wc), Some(gc)) => if spec_fold(kind, wc) != spec_fold(kind, gc) {
                Some(None)
            } else {
                match (spec_skip_char(e, w, 1), spec_skip_char(e, g, 1)) {
                    (Some(w2), Some(g2)) => spec_groupref_loop(e, w2, g2, (n - 1) as nat, kind),
                    _ => None,
                }
            },
            _ => None,
        }
    }
}

/// `<GROUPREF> <group>` and its variants: the subject must repeat what the group matched.
pub open spec fn spec_op_groupref(e: Env, d: Drive, kind: GroupKind) -> Option<Drive> {
    match spec_peek_code(e, d.ctx, 1) {
        None => None,
        Some(gi) => match spec_get_marks(d.m, gi as usize) {
            None => None,
            Some((Some(gs), Some(ge))) => if gs <= ge {
                match e.string.offset(0, gs) {
                    None => None,
                    Some(goff) => {
                        let g = MatchContext {
                            string_position: gs,
                            string_offset: goff,
                            ..d.ctx
                        };
                        match spec_groupref_loop(e, d.ctx, g, (ge - gs) as nat, kind) {
                            None => None,
                            Some(None) => Some(spec_fail(d)),
                            Some(Some(w)) => match spec_skip_code(d.ctx, 2) {
                                None => None,
                                Some(c2) => Some(
                                    with_ctx(
                                        d,
                                        MatchContext {
                                            string_position: w.string_position,
                                            string_offset: w.string_offset,
                                            ..c2
                                        },
                                    ),
                                ),
                            },
                        }
                    },
                }
            } else {
                Some(spec_fail(d))
            },
            Some(_) => Some(spec_fail(d)),
        },
    }
}

/// `<GROUPREF_EXISTS> <group> <skip>`: goes on if the group matched, else jumps.
pub open spec fn spec_op_groupref_exists(e: Env, d: Drive) -> Option<Drive> {
    match spec_peek_code(e, d.ctx, 1) {
        None => None,
        Some(gi) => match spec_get_marks(d.m, gi as usize) {
            None => None,
            Some((Some(gs), Some(ge))) if gs <= ge => match spec_skip_code(d.ctx, 3) {
                None => None,
                Some(c2) => Some(with_ctx(d, c2)),
            },
            Some(_) => match spec_skip_code_from(e, d.ctx, 2) {
                None => None,
                Some(c2) => Some(with_ctx(d, c2)),
            },
        },
    }
}

/// `<MARK> <nr>`: records the position as mark `nr`.
pub open spec fn spec_op_mark(e: Env, d: Drive) -> Option<Drive> {
    match spec_peek_code(e, d.ctx, 1) {
        None => None,
        Some(nr) => match spec_set_mark(d.m, nr as usize, d.ctx.string_position) {
            None => None,
            Some(m2) => match spec_skip_code(d.ctx, 2) {
                None => None,
                Some(c2) => Some(Drive { m: m2, ctx: c2, ..d }),
            },
        },
    }
}

/// The child context of a look-behind assertion, `back` chars before the context.
pub open spec fn spec_assert_child(e: Env, d: Drive, back: usize, handler: Handler) -> Option<
    Drive,
> {
    match e.string.back_offset(d.ctx.string_offset, back) {
        None => None,
        Some(bo) => if d.ctx.string_offset < bo || d.ctx.code_position + 3 > usize::MAX {
            None
        } else {
            Some(
                Drive {
                    m: Machine {
                        string_position: (d.ctx.string_position - back) as usize,
                        ..d.m
                    },
                    next_ctx: Some(
                        MatchContext {
                            string_position: (d.ctx.string_position - back) as usize,
                            string_offset: (d.ctx.string_offset - bo) as usize,
                            code_position: (d.ctx.code_position + 3) as usize,
                            has_matched: None,
                            toplevel: false,
                            handler: None,
                        },
                    ),
                    ctx: MatchContext { handler: Some(handler), ..d.ctx },
                },
            )
        },
    }
}

/// `<ASSERT> <skip> <back> <pattern>`.
pub open spec fn spec_op_assert(e: Env, d: Drive) -> Option<Drive> {
    match spec_peek_code(e, d.ctx, 2) {
        None => None,
        Some(back) => if d.ctx.string_position < back as usize {
            Some(spec_fail(d))
        } else {
            spec_assert_child(e, d, back as usize, Handler::AssertDone)
        },
    }
}

/// `<ASSERT_NOT> <skip> <back> <pattern>`.
pub open spec fn spec_op_assert_not(e: Env, d: Drive) -> Option<Drive> {
    match spec_peek_code(e, d.ctx, 2) {
        None => None,
        Some(back) => if d.ctx.string_position < back as usize {
            match spec_skip_code_from(e, d.ctx, 1) {
                None => None,
                Some(c2) => Some(with_ctx(d, c2)),
            }
        } else {
            spec_assert_child(e, d, back as usize, Handler::AssertNotDone)
        },
    }
}

/// Resumes an assertion after its child: it goes on past the assertion when the child
/// matched, else fails.
pub open spec fn spec_assert_done(e: Env, d: Drive) -> Option<Drive> {
    match d.m.popped_context {
        None => None,
        Some(child) => if child.has_matched == Some(true) {
            match spec_skip_code_from(e, MatchContext { handler: None, ..d.ctx }, 1) {
                None => None,
                Some(c2) => Some(with_ctx(d, c2)),
            }
        } else {
            Some(spec_fail(d))
        },
    }
}

/// Resumes a negative assertion after its child: it fails when the child matched.
pub open spec fn spec_assert_not_done(e: Env, d: Drive) -> Option<Drive> {
    match d.m.popped_context {
        None => None,
        Some(child) => if child.has_matched == Some(true) {
            Some(spec_fail(d))
        } else {
            match spec_skip_code_from(e, MatchContext { handler: None, ..d.ctx }, 1) {
                None => None,
                Some(c2) => Some(with_ctx(d, c2)),
            }
        },
    }
}

/* ---------------- alternation ---------------- */

pub open spec fn spec_branch_failure(d: Drive) -> Drive {
    let m = spec_marks_pop_discard(d.m);
    spec_fail(Drive { m: Machine { branch_stack: pop_seq(m.branch_stack), ..m }, ..d })
}

/// Tries the next alternative of the branch on top of the branch stack.
pub open spec fn spec_branch_create(e: Env, d: Drive) -> Option<Drive> {
    if d.m.branch_stack.len() == 0 {
        None
    } else {
        let bo = d.m.branch_stack.last().branch_offset;
        match spec_peek_code(e, d.ctx, bo) {
            None => None,
            Some(next_length) => if next_length == 0 {
                Some(spec_branch_failure(d))
            } else if bo + 1 > usize::MAX || bo + next_length > usize::MAX {
                None
            } else {
                match spec_next_ctx(spec_sync(d), (bo + 1) as usize, Handler::BranchCallback) {
                    None => None,
                    Some(d2) => Some(
                        Drive {
                            m: Machine {
                                branch_stack: d2.m.branch_stack.update(
                                    d2.m.branch_stack.len() - 1,
                                    BranchContext { branch_offset: (bo + next_length) as usize },
                                ),
                                ..d2.m
                            },
                            ..d2
                        },
                    ),
                }
            },
        }
    }
}

/// `<BRANCH> <0=skip> code <JUMP> ... <NULL>`.
pub open spec fn spec_op_branch(e: Env, d: Drive) -> Option<Drive> {
    let m = spec_marks_push(d.m);
    spec_branch_create(
        e,
        Drive {
            m: Machine {
                branch_stack: m.branch_stack.push(BranchContext { branch_offset: 1 }),
                ..m
            },
            ctx: MatchContext { handler: Some(Handler::BranchCreate), ..d.ctx },
            ..d
        },
    )
}

/// Resumes a branch after an alternative: done if it matched, else restores the marks and
/// tries the next one.
pub open spec fn spec_branch_callback(e: Env, d: Drive) -> Option<Drive> {
    match d.m.popped_context {
        None => None,
        Some(child) => if child.has_matched == Some(true) {
            Some(
                Drive {
                    m: Machine { branch_stack: pop_seq(d.m.branch_stack), ..d.m },
                    ctx: MatchContext { has_matched: Some(true), ..d.ctx },
                    ..d
                },
            )
        } else {
            match spec_marks_pop_keep(d.m) {
                None => None,
                Some(m2) => Some(
                    Drive {
                        m: m2,
                        ctx: MatchContext { handler: Some(Handler::BranchCreate), ..d.ctx },
                        ..d
                    },
                ),
            }
        },
    }
}

/* ---------------- REPEAT / MIN_UNTIL ---------------- */

/// `<REPEAT> <skip> <1=min> <2=max> item <UNTIL> tail`: opens a repeat context and runs the
/// code after it (the item, then the `UNTIL` operation).
pub open spec fn spec_op_repeat(e: Env, d: Drive) -> Option<Drive> {
    match (spec_peek_code(e, d.ctx, 2), spec_peek_code(e, d.ctx, 3)) {
        (Some(min), Some(max)) => {
            let r = RepeatContext {
                count: -1isize,
                min_count: min as usize,
                max_count: max as usize,
                code_position: d.ctx.code_position,
                last_position: usize::MAX as usize,
            };
            spec_next_ctx_from(
                e,
                spec_sync(
                    Drive { m: Machine { repeat_stack: d.m.repeat_stack.push(r), ..d.m }, ..d },
                ),
                1,
                Handler::RepeatDone,
            )
        },
        _ => None,
    }
}

/// Resumes a repeat after its body: takes the body's result and closes the repeat context.
pub open spec fn spec_repeat_done(d: Drive) -> Option<Drive> {
    match d.m.popped_context {
        None => None,
        Some(child) => Some(
            Drive {
                m: Machine { repeat_stack: pop_seq(d.m.repeat_stack), ..d.m },
                ctx: MatchContext { has_matched: child.has_matched, ..d.ctx },
                ..d
            },
        ),
    }
}

/// `MIN_UNTIL`: the lazy end of a repeat; it first tries the tail.
pub open spec fn spec_op_min_until(e: Env, d: Drive) -> Option<Drive> {
    if d.m.repeat_stack.len() == 0 {
        None
    } else {
        let r = d.m.repeat_stack.last();
        let d0 = spec_sync(d);
        if r.count + 1 > isize::MAX {
            None
        } else {
            let count = (r.count + 1) as isize;
            let d1 = if (count as usize) < r.min_count {
                if r.code_position + 4 > usize::MAX {
                    None
                } else {
                    let m = Machine {
                        repeat_stack: d0.m.repeat_stack.update(
                            d0.m.repeat_stack.len() - 1,
                            RepeatContext { count, ..r },
                        ),
                        min_until_stack: d0.m.min_until_stack.push(
                            MinUntilContext {
                                count,
                                save_repeat_ctx: None,
                                save_last_position: r.last_position,
                            },
                        ),
                        ..d0.m
                    };
                    Some(
                        spec_next_ctx_at(
                            Drive { m, ..d0 },
                            (r.code_position + 4) as usize,
                            Handler::MinUntilBody,
                        ),
                    )
                }
            } else {
                Some(d0)
            };
            match d1 {
                None => None,
                Some(d1) => {
                    let m1 = spec_marks_push(d1.m);
                    let saved = m1.repeat_stack.last();
                    let m2 = Machine {
                        repeat_stack: m1.repeat_stack.drop_last(),
                        min_until_stack: m1.min_until_stack.push(
                            MinUntilContext {
                                count,
                                save_repeat_ctx: Some(saved),
                                save_last_position: r.last_position,
                            },
                        ),
                        ..m1
                    };
                    spec_next_ctx(Drive { m: m2, ..d1 }, 1, Handler::MinUntilTail)
                },
            }
        }
    }
}

/// Resumes a lazy repeat after one more match of its body.
pub open spec fn spec_min_until_body(d: Drive) -> Option<Drive> {
    match d.m.popped_context {
        None => None,
        Some(child) => {
            let d1 = Drive { ctx: MatchContext { has_matched: child.has_matched, ..d.ctx }, ..d };
            if child.has_matched == Some(true) {
                Some(d1)
            } else if d1.m.min_until_stack.len() == 0 || d1.m.repeat_stack.len() == 0 {
                None
            } else {
                let mu = d1.m.min_until_stack.last();
                let r = d1.m.repeat_stack.last();
                if mu.count - 1 < isize::MIN {
                    None
                } else {
                    Some(
                        spec_sync(
                            Drive {
                                m: Machine {
                                    repeat_stack: d1.m.repeat_stack.update(
                                        d1.m.repeat_stack.len() - 1,
                                        RepeatContext {
                                            count: (mu.count - 1) as isize,
                                            last_position: mu.save_last_position,
                                            ..r
                                        },
                                    ),
                                    ..d1.m
                                },
                                ..d1
                            },
                        ),
                    )
                }
            }
        },
    }
}

pub open spec fn spec_min_until_failure(d: Drive) -> Drive {
    let m = spec_marks_pop_discard(d.m);
    spec_fail(Drive { m: Machine { min_until_stack: pop_seq(m.min_until_stack), ..m }, ..d })
}

/// Resumes a lazy repeat after its tail: done if the tail matched, else matches the body
/// once more (unless the maximum is reached or the body matched the empty string).
pub open spec fn spec_min_until_tail(d: Drive) -> Option<Drive> {
    if d.m.min_until_stack.len() == 0 {
        None
    } else {
        let mu = d.m.min_until_stack.last();
        match (mu.save_repeat_ctx, d.m.popped_context) {
            (Some(r), Some(child)) => if child.has_matched == Some(true) {
                Some(
                    Drive {
                        m: Machine {
                            repeat_stack: d.m.repeat_stack.push(r),
                            min_until_stack: pop_seq(d.m.min_until_stack),
                            ..d.m
                        },
                        ctx: MatchContext { has_matched: Some(true), ..d.ctx },
                        ..d
                    },
                )
            } else {
                let d0 = spec_sync(d);
                match spec_marks_pop(d0.m) {
                    None => None,
                    Some(m1) => if ((mu.count as usize) >= r.max_count && r.max_count != MAXREPEAT)
                        || m1.string_position == r.last_position {
                        Some(
                            spec_min_until_failure(
                                Drive {
                                    m: Machine { repeat_stack: m1.repeat_stack.push(r), ..m1 },
                                    ..d0
                                },
                            ),
                        )
                    } else if r.code_position + 4 > usize::MAX {
                        None
                    } else {
                        let r2 = RepeatContext {
                            count: mu.count,
                            last_position: m1.string_position,
                            ..r
                        };
                        let m2 = Machine {
                            min_until_stack: m1.min_until_stack.update(
                                m1.min_until_stack.len() - 1,
                                MinUntilContext { save_last_position: r.last_position, ..mu },
                            ),
                            ..m1
                        };
                        let d2 = spec_next_ctx_at(
                            Drive { m: m2, ..d0 },
                            (r.code_position + 4) as usize,
                            Handler::MinUntilBody,
                        );
                        Some(
                            Drive {
                                m: Machine { repeat_stack: d2.m.repeat_stack.push(r2), ..d2.m },
                                ..d2
                            },
                        )
                    },
                }
            },
            _ => None,
        }
    }
}

/// `MAX_UNTIL`'s preparation: it reads the repeat context and records the position.
pub open spec fn spec_op_max_until(d: Drive) -> Option<Drive> {
    if d.m.repeat_stack.len() == 0 || d.m.repeat_stack.last().count + 1 > isize::MAX {
        None
    } else {
        Some(spec_sync(d))
    }
}

/* ---------------- counting repeated one-char items ---------------- */

/// The counting loop for `ANY`. Its loop test reads `!position < end`, which compares the
/// bitwise complement of the position with `end`.
pub open spec fn spec_count_any(e: Env, c: MatchContext, end: usize) -> Option<MatchContext>
    decreases usize::MAX - c.string_position,
{
    if !((!c.string_position) < end) {
        Some(c)
    } else {
        match spec_at_linebreak(e, c) {
            None => None,
            Some(true) => Some(c),
            Some(false) => match spec_skip_char(e, c, 1) {
                None => None,
                Some(c2) => spec_count_any(e, c2, end),
            },
        }
    }
}

/// The counting loop for `IN`, with the same loop test as `spec_count_any`.
pub open spec fn spec_count_in(e: Env, c: MatchContext, end: usize) -> Option<MatchContext>
    decreases usize::MAX - c.string_position,
{
    if !((!c.string_position) < end) {
        Some(c)
    } else if c.code_position + 2 > e.pattern.len() {
        None
    } else {
        match spec_peek_char(e, c) {
            None => None,
            Some(ch) => match spec_charset(
                e.pattern.subrange(c.code_position + 2, e.pattern.len() as int),
                ch,
            ) {
                None => None,
                Some(false) => Some(c),
                Some(true) => match spec_skip_char(e, c, 1) {
                    None => None,
                    Some(c2) => spec_count_in(e, c2, end),
                },
            },
        }
    }
}

/// The counting loop for the literal operations, with the same loop test as `spec_count_any`.
pub open spec fn spec_count_literal(
    e: Env,
    c: MatchContext,
    end: usize,
    code: u32,
    kind: LiteralKind,
) -> Option<MatchContext>
    decreases usize::MAX - c.string_position,
{
    if !((!c.string_position) < end) {
        Some(c)
    } else {
        match spec_peek_char(e, c) {
            None => None,
            Some(ch) => if !spec_literal_test(kind, code, ch) {
                Some(c)
            } else {
                match spec_skip_char(e, c, 1) {
                    None => None,
                    Some(c2) => spec_count_literal(e, c2, end, code, kind),
                }
            },
        }
    }
}

/// The literal test of a counted literal operation, if `op` is one.
pub open spec fn literal_kind_of(op: SreOpcode) -> Option<LiteralKind> {
    match op {
        SreOpcode::LITERAL => Some(LiteralKind::Eq),
        SreOpcode::NOT_LITERAL => Some(LiteralKind::NotEq),
        SreOpcode::LITERAL_IGNORE => Some(LiteralKind::EqIgnore),
        SreOpcode::NOT_LITERAL_IGNORE => Some(LiteralKind::NotEqIgnore),
        SreOpcode::LITERAL_LOC_IGNORE => Some(LiteralKind::LocIgnore),
        SreOpcode::NOT_LITERAL_LOC_IGNORE => Some(LiteralKind::NotLocIgnore),
        SreOpcode::LITERAL_UNI_IGNORE => Some(LiteralKind::EqUniIgnore),
        SreOpcode::NOT_LITERAL_UNI_IGNORE => Some(LiteralKind::NotEqUniIgnore),
        _ => None,
    }
}

/// Counts how many times the one-char item at the context matches, up to `maxcount`; the
/// drive comes back with its context as it was. The count is measured from the machine's
/// string position.
pub open spec fn spec_count(e: Env, d: Drive, maxcount: usize) -> Option<(Drive, usize)>
    decreases e.pattern.len() - d.ctx.code_position, 3int, 0int,
{
    match spec_remaining_chars(e, d.ctx) {
        None => None,
        Some(rc) => {
            let max = if maxcount <= rc {
                maxcount
            } else {
                rc
            };
            if d.ctx.string_position + max > usize::MAX {
                None
            } else {
                let end = (d.ctx.string_position + max) as usize;
                match spec_peek_code(e, d.ctx, 0) {
                    None => None,
                    Some(code) => match opcode_of(code) {
                        None => None,
                        Some(op) => {
                            let moved: Option<MatchContext> = match op {
                                SreOpcode::ANY => spec_count_any(e, d.ctx, end),
                                SreOpcode::ANY_ALL => spec_skip_char(e, d.ctx, max),
                                SreOpcode::IN => spec_count_in(e, d.ctx, end),
                                _ => match literal_kind_of(op) {
                                    Some(kind) => match spec_peek_code(e, d.ctx, 1) {
                                        None => None,
                                        Some(lit) => spec_count_literal(
                                            e,
                                            d.ctx,
                                            end,
                                            lit,
                                            kind,
                                        ),
                                    },
                                    None => None,
                                },
                            };
                            if op != SreOpcode::ANY && op != SreOpcode::ANY_ALL && op
                                != SreOpcode::IN && literal_kind_of(op) is None {
                                spec_general_count(e, d, max)
                            } else {
                                match moved {
                                    None => None,
                                    Some(c2) => if c2.string_position < d.m.string_position {
                                        None
                                    } else {
                                        Some(
                                            (
                                                d,
                                                (c2.string_position
                                                    - d.m.string_position) as usize,
                                            ),
                                        )
                                    },
                                }
                            }
                        },
                    },
                }
            }
        },
    }
}

/// Counts by running the item's operation again and again at the item's code position.
pub open spec fn spec_general_count(e: Env, d: Drive, maxcount: usize) -> Option<(Drive, usize)>
    decreases e.pattern.len() - d.ctx.code_position, 2int, 0int,
{
    match spec_remaining_chars(e, d.ctx) {
        None => None,
        Some(rc) => {
            let max = if maxcount <= rc {
                maxcount
            } else {
                rc
            };
            match spec_skip_code(d.ctx, 4) {
                None => None,
                Some(c1) => match spec_general_count_loop(
                    e,
                    with_ctx(d, c1),
                    c1.code_position,
                    0,
                    max,
                ) {
                    None => None,
                    Some((d2, n)) => Some((with_ctx(d2, d.ctx), n)),
                },
            }
        },
    }
}

pub open spec fn spec_general_count_loop(
    e: Env,
    d: Drive,
    reset: usize,
    count: usize,
    maxcount: usize,
) -> Option<(Drive, usize)>
    decreases e.pattern.len() - reset + 4, 1int, maxcount - count,
{
    if count >= maxcount {
        Some((d, count))
    } else {
        let d1 = with_ctx(d, MatchContext { code_position: reset, ..d.ctx });
        match spec_peek_code(e, d1.ctx, 0) {
            None => None,
            Some(code) => match opcode_of(code) {
                None => None,
                Some(op) => match spec_dispatch(e, op, d1) {
                    None => None,
                    Some(d2) => if d2.ctx.has_matched == Some(false) {
                        Some((d2, count))
                    } else {
                        spec_general_count_loop(e, d2, reset, (count + 1) as usize, maxcount)
                    },
                },
            },
        }
    }
}

/* ---------------- REPEAT_ONE ---------------- */

pub open spec fn spec_repeat_one_failure(d: Drive) -> Drive {
    let m = spec_marks_pop_discard(d.m);
    spec_fail(Drive { m: Machine { repeat_one_stack: pop_seq(m.repeat_one_stack), ..m }, ..d })
}

pub open spec fn spec_repeat_one_success(d: Drive) -> Drive {
    Drive {
        m: Machine { repeat_one_stack: pop_seq(d.m.repeat_one_stack), ..d.m },
        ctx: MatchContext { has_matched: Some(true), ..d.ctx },
        ..d
    }
}

/// Lowers the count of the repeat on top of the stack by one.
pub open spec fn spec_repeat_one_uncount(m: Machine) -> Option<Machine> {
    if m.repeat_one_stack.len() == 0 || m.repeat_one_stack.last().count < 1 {
        None
    } else {
        let r = m.repeat_one_stack.last();
        Some(
            Machine {
                repeat_one_stack: m.repeat_one_stack.update(
                    m.repeat_one_stack.len() - 1,
                    RepeatOneContext { count: (r.count - 1) as usize, ..r },
                ),
                ..m
            },
        )
    }
}

/// Moves back until the char at the context is the literal that the tail starts with,
/// lowering the count on top of the repeat stack with each char given back. The test
/// against the minimum reads `count`, the count as it was before the loop, which the loop
/// does not lower. `Some((d, true))` where that count is at most `min_count` and the
/// repeat gives up.
pub open spec fn spec_repeat_one_seek(
    e: Env,
    d: Drive,
    count: usize,
    min_count: usize,
    ch: u32,
) -> Option<(Drive, bool)>
    decreases d.ctx.string_position,
{
    let go_back: Option<bool> = if spec_at_end(e, d.ctx) {
        Some(true)
    } else {
        match spec_peek_char(e, d.ctx) {
            None => None,
            Some(pc) => Some(pc != ch),
        }
    };
    match go_back {
        None => None,
        Some(false) => Some((d, false)),
        Some(true) => if count <= min_count {
            Some((d, true))
        } else {
            match spec_back_skip_char(e, d.ctx, 1) {
                None => None,
                Some(c2) => match spec_repeat_one_uncount(d.m) {
                    None => None,
                    Some(m2) => spec_repeat_one_seek(
                        e,
                        Drive { m: m2, ctx: c2, ..d },
                        count,
                        min_count,
                        ch,
                    ),
                },
            }
        },
    }
}

/// Tries the tail of a greedy one-char repeat at the current count.
pub open spec fn spec_repeat_one_create(e: Env, d: Drive) -> Option<Drive> {
    if d.m.repeat_one_stack.len() == 0 {
        None
    } else {
        let r = d.m.repeat_one_stack.last();
        let sought: Option<(Drive, bool)> = match r.following_literal {
            None => Some((d, false)),
            Some(ch) => spec_repeat_one_seek(e, d, r.count, r.min_count, ch),
        };
        match sought {
            None => None,
            Some((d1, true)) => Some(spec_repeat_one_failure(d1)),
            Some((d1, false)) => spec_next_ctx_from(
                e,
                spec_sync(d1),
                1,
                Handler::RepeatOneCallback,
            ),
        }
    }
}

/// Resumes a greedy one-char repeat after its tail: done if the tail matched, else gives
/// back one char and tries again (while the count stays above the minimum).
pub open spec fn spec_repeat_one_callback(e: Env, d: Drive) -> Option<Drive> {
    match d.m.popped_context {
        None => None,
        Some(child) => if child.has_matched == Some(true) {
            Some(spec_repeat_one_success(d))
        } else if d.m.repeat_one_stack.len() == 0 {
            None
        } else {
            let r = d.m.repeat_one_stack.last();
            if r.count <= r.min_count {
                Some(spec_repeat_one_failure(d))
            } else {
                match spec_back_skip_char(e, d.ctx, 1) {
                    None => None,
                    Some(c2) => match spec_repeat_one_uncount(d.m) {
                        None => None,
                        Some(m2) => match spec_marks_pop_keep(m2) {
                            None => None,
                            Some(m3) => spec_repeat_one_create(
                                e,
                                Drive {
                                    m: m3,
                                    ctx: MatchContext {
                                        handler: Some(Handler::RepeatOneCreate),
                                        ..c2
                                    },
                                    ..d
                                },
                            ),
                        },
                    },
                }
            }
        },
    }
}

/// `<REPEAT_ONE> <skip> <1=min> <2=max> item <SUCCESS> tail`: the greedy repeat of a
/// one-char item.
pub open spec fn spec_op_repeat_one(e: Env, d: Drive) -> Option<Drive>
    decreases e.pattern.len() - d.ctx.code_position, 4int, 0int,
{
    match (spec_peek_code(e, d.ctx, 2), spec_peek_code(e, d.ctx, 3)) {
        (Some(mn), Some(mx)) => {
            let min_count = mn as usize;
            let max_count = mx as usize;
            match spec_remaining_chars(e, d.ctx) {
                None => None,
                Some(rc) => if rc < min_count {
                    Some(spec_fail(d))
                } else {
                    match spec_count(e, spec_sync(d), max_count) {
                        None => None,
                        Some((d1, count)) => match spec_skip_char(e, d1.ctx, count) {
                            None => None,
                            Some(c2) => {
                                let d2 = with_ctx(d1, c2);
                                if count < min_count {
                                    Some(spec_fail(d2))
                                } else {
                                    spec_repeat_one_tail(e, d2, count, min_count, max_count)
                                }
                            },
                        },
                    }
                },
            }
        },
        _ => None,
    }
}

/// The part of `REPEAT_ONE` after the items are counted.
pub open spec fn spec_repeat_one_tail(
    e: Env,
    d: Drive,
    count: usize,
    min_count: usize,
    max_count: usize,
) -> Option<Drive> {
    match spec_peek_code(e, d.ctx, 1) {
        None => None,
        Some(skip) => if skip + 1 > usize::MAX {
            None
        } else {
            match spec_peek_code(e, d.ctx, (skip + 1) as usize) {
                None => None,
                Some(next_code) => if next_code == 1 && spec_can_success(e, d.ctx) {
                    let d1 = spec_sync(d);
                    Some(with_ctx(d1, MatchContext { has_matched: Some(true), ..d1.ctx }))
                } else {
                    let following: Option<Option<u32>> = if next_code == 16 {
                        if skip + 2 > usize::MAX {
                            None
                        } else {
                            match spec_peek_code(e, d.ctx, (skip + 2) as usize) {
                                None => None,
                                Some(v) => Some(Some(v)),
                            }
                        }
                    } else {
                        Some(None)
                    };
                    match following {
                        None => None,
                        Some(following_literal) => {
                            let m = spec_marks_push(d.m);
                            spec_repeat_one_create(
                                e,
                                Drive {
                                    m: Machine {
                                        repeat_one_stack: m.repeat_one_stack.push(
                                            RepeatOneContext {
                                                count,
                                                min_count,
                                                max_count,
                                                following_literal,
                                            },
                                        ),
                                        ..m
                                    },
                                    ctx: MatchContext {
                                        handler: Some(Handler::RepeatOneCreate),
                                        ..d.ctx
                                    },
                                    ..d
                                },
                            )
                        },
                    }
                },
            }
        },
    }
}

/* ---------------- MIN_REPEAT_ONE ---------------- */

pub open spec fn spec_min_repeat_one_failure(d: Drive) -> Drive {
    let m = spec_marks_pop_discard(d.m);
    spec_fail(
        Drive { m: Machine { min_repeat_one_stack: pop_seq(m.min_repeat_one_stack), ..m }, ..d },
    )
}

pub open spec fn spec_min_repeat_one_success(d: Drive) -> Drive {
    Drive {
        m: Machine { min_repeat_one_stack: pop_seq(d.m.min_repeat_one_stack), ..d.m },
        ctx: MatchContext { has_matched: Some(true), ..d.ctx },
        ..d
    }
}

/// Tries the tail of a lazy one-char repeat at the current count, unless the count has
/// passed the maximum.
pub open spec fn spec_min_repeat_one_create(e: Env, d: Drive) -> Option<Drive> {
    if d.m.min_repeat_one_stack.len() == 0 {
        None
    } else {
        let r = d.m.min_repeat_one_stack.last();
        if r.max_count == MAXREPEAT || r.count <= r.max_count {
            spec_next_ctx_from(e, spec_sync(d), 1, Handler::MinRepeatOneCallback)
        } else {
            Some(spec_min_repeat_one_failure(d))
        }
    }
}

/// Resumes a lazy one-char repeat after its tail: done if the tail matched, else takes one
/// more item and tries again.
pub open spec fn spec_min_repeat_one_callback(e: Env, d: Drive) -> Option<Drive> {
    match d.m.popped_context {
        None => None,
        Some(child) => if child.has_matched == Some(true) {
            Some(spec_min_repeat_one_success(d))
        } else {
            match spec_count(e, spec_sync(d), 1) {
                None => None,
                Some((d1, n)) => if n == 0 {
                    Some(spec_min_repeat_one_failure(d1))
                } else {
                    match spec_skip_char(e, d1.ctx, 1) {
                        None => None,
                        Some(c2) => if d1.m.min_repeat_one_stack.len() == 0
                            || d1.m.min_repeat_one_stack.last().count + 1 > usize::MAX {
                            None
                        } else {
                            let r = d1.m.min_repeat_one_stack.last();
                            let m2 = Machine {
                                min_repeat_one_stack: d1.m.min_repeat_one_stack.update(
                                    d1.m.min_repeat_one_stack.len() - 1,
                                    MinRepeatOneContext { count: (r.count + 1) as usize, ..r },
                                ),
                                ..d1.m
                            };
                            match spec_marks_pop_keep(m2) {
                                None => None,
                                Some(m3) => spec_min_repeat_one_create(
                                    e,
                                    Drive {
                                        m: m3,
                                        ctx: MatchContext {
                                            handler: Some(Handler::MinRepeatOneCreate),
                                            ..c2
                                        },
                                        ..d1
                                    },
                                ),
                            }
                        },
                    }
                },
            }
        },
    }
}

/// `<MIN_REPEAT_ONE> <skip> <1=min> <2=max> item <SUCCESS> tail`: the lazy repeat of a
/// one-char item.
pub open spec fn spec_op_min_repeat_one(e: Env, d: Drive) -> Option<Drive>
    decreases e.pattern.len() - d.ctx.code_position, 4int, 0int,
{
    match (spec_peek_code(e, d.ctx, 2), spec_peek_code(e, d.ctx, 3)) {
        (Some(mn), Some(mx)) => {
            let min_count = mn as usize;
            let max_count = mx as usize;
            match spec_remaining_chars(e, d.ctx) {
                None => None,
                Some(rc) => if rc < min_count {
                    Some(spec_fail(d))
                } else {
                    let d0 = spec_sync(d);
                    let counted: Option<(Drive, usize, bool)> = if min_count == 0 {
                        Some((d0, 0usize, true))
                    } else {
                        match spec_count(e, d0, min_count) {
                            None => None,
                            Some((d1, count)) => if count < min_count {
                                Some((d1, count, false))
                            } else {
                                match spec_skip_char(e, d1.ctx, count) {
                                    None => None,
                                    Some(c2) => Some((with_ctx(d1, c2), count, true)),
                                }
                            },
                        }
                    };
                    match counted {
                        None => None,
                        Some((d1, _, false)) => Some(spec_fail(d1)),
                        Some((d1, count, true)) => spec_min_repeat_one_tail(
                            e,
                            d1,
                            count,
                            min_count,
                            max_count,
                        ),
                    }
                },
            }
        },
        _ => None,
    }
}

/// The part of `MIN_REPEAT_ONE` after the minimum is counted.
pub open spec fn spec_min_repeat_one_tail(
    e: Env,
    d: Drive,
    count: usize,
    min_count: usize,
    max_count: usize,
) -> Option<Drive> {
    match spec_peek_code(e, d.ctx, 1) {
        None => None,
        Some(skip) => if skip + 1 > usize::MAX {
            None
        } else {
            match spec_peek_code(e, d.ctx, (skip + 1) as usize) {
                None => None,
                Some(next_code) => if next_code == 1 && spec_can_success(e, d.ctx) {
                    let d1 = spec_sync(d);
                    Some(with_ctx(d1, MatchContext { has_matched: Some(true), ..d1.ctx }))
                } else {
                    let m = spec_marks_push(d.m);
                    spec_min_repeat_one_create(
                        e,
                        Drive {
                            m: Machine {
                                min_repeat_one_stack: m.min_repeat_one_stack.push(
                                    MinRepeatOneContext { count, min_count, max_count },
                                ),
                                ..m
                            },
                            ctx: MatchContext {
                                handler: Some(Handler::MinRepeatOneCreate),
                                ..d.ctx
                            },
                            ..d
                        },
                    )
                },
            }
        },
    }
}

/* ---------------- dispatch ---------------- */

/// Runs the operation `op` at the context.
pub open spec fn spec_dispatch(e: Env, op: SreOpcode, d: Drive) -> Option<Drive>
    decreases e.pattern.len() - d.ctx.code_position, 5int, 0int,
{
    match op {
        SreOpcode::FAILURE => Some(spec_fail(d)),
        SreOpcode::SUCCESS => {
            let ok = spec_can_success(e, d.ctx);
            let d1 = with_ctx(d, MatchContext { has_matched: Some(ok), ..d.ctx });
            if ok {
                Some(spec_sync(d1))
            } else {
                Some(d1)
            }
        },
        SreOpcode::ANY => if spec_at_end(e, d.ctx) {
            Some(spec_fail(d))
        } else {
            match spec_at_linebreak(e, d.ctx) {
                None => None,
                Some(true) => Some(spec_fail(d)),
                Some(false) => spec_advance_one(e, d, 1),
            }
        },
        SreOpcode::ANY_ALL => if spec_at_end(e, d.ctx) {
            Some(spec_fail(d))
        } else {
            spec_advance_one(e, d, 1)
        },
        SreOpcode::ASSERT => spec_op_assert(e, d),
        SreOpcode::ASSERT_NOT => spec_op_assert_not(e, d),
        SreOpcode::AT => match spec_peek_code(e, d.ctx, 1) {
            None => None,
            Some(code) => match atcode_of(code) {
                None => None,
                Some(atcode) => match spec_at(e, d.ctx, atcode) {
                    None => None,
                    Some(true) => match spec_skip_code(d.ctx, 2) {
                        None => None,
                        Some(c2) => Some(with_ctx(d, c2)),
                    },
                    Some(false) => Some(spec_fail(d)),
                },
            },
        },
        SreOpcode::BRANCH => spec_op_branch(e, d),
        SreOpcode::CATEGORY => match spec_peek_code(e, d.ctx, 1) {
            None => None,
            Some(code) => match catcode_of(code) {
                None => None,
                Some(catcode) => if spec_at_end(e, d.ctx) {
                    Some(spec_fail(d))
                } else {
                    match spec_peek_char(e, d.ctx) {
                        None => None,
                        Some(c) => if !spec_category(catcode, c) {
                            Some(spec_fail(d))
                        } else {
                            spec_advance_one(e, d, 2)
                        },
                    }
                },
            },
        },
        SreOpcode::IN => spec_op_in(e, d, InKind::Plain),
        SreOpcode::IN_IGNORE => spec_op_in(e, d, InKind::Ignore),
        SreOpcode::IN_UNI_IGNORE => spec_op_in(e, d, InKind::UniIgnore),
        SreOpcode::IN_LOC_IGNORE => spec_op_in(e, d, InKind::LocIgnore),
        SreOpcode::INFO => match spec_skip_code_from(e, d.ctx, 1) {
            None => None,
            Some(c2) => Some(with_ctx(d, c2)),
        },
        SreOpcode::JUMP => match spec_skip_code_from(e, d.ctx, 1) {
            None => None,
            Some(c2) => Some(with_ctx(d, c2)),
        },
        SreOpcode::LITERAL => spec_op_literal(e, d, LiteralKind::Eq),
        SreOpcode::NOT_LITERAL => spec_op_literal(e, d, LiteralKind::NotEq),
        SreOpcode::LITERAL_IGNORE => spec_op_literal(e, d, LiteralKind::EqIgnore),
        SreOpcode::NOT_LITERAL_IGNORE => spec_op_literal(e, d, LiteralKind::NotEqIgnore),
        SreOpcode::LITERAL_UNI_IGNORE => spec_op_literal(e, d, LiteralKind::EqUniIgnore),
        SreOpcode::NOT_LITERAL_UNI_IGNORE => spec_op_literal(e, d, LiteralKind::NotEqUniIgnore),
        SreOpcode::LITERAL_LOC_IGNORE => spec_op_literal(e, d, LiteralKind::LocIgnore),
        SreOpcode::NOT_LITERAL_LOC_IGNORE => spec_op_literal(e, d, LiteralKind::NotLocIgnore),
        SreOpcode::MARK => spec_op_mark(e, d),
        SreOpcode::MIN_UNTIL => spec_op_min_until(e, d),
        SreOpcode::REPEAT => spec_op_repeat(e, d),
        SreOpcode::REPEAT_ONE => spec_op_repeat_one(e, d),
        SreOpcode::MIN_REPEAT_ONE => spec_op_min_repeat_one(e, d),
        SreOpcode::GROUPREF => spec_op_groupref(e, d, GroupKind::Plain),
        SreOpcode::GROUPREF_IGNORE => spec_op_groupref(e, d, GroupKind::Ignore),
        SreOpcode::GROUPREF_LOC_IGNORE => spec_op_groupref(e, d, GroupKind::LocIgnore),
        SreOpcode::GROUPREF_UNI_IGNORE => spec_op_groupref(e, d, GroupKind::UniIgnore),
        SreOpcode::GROUPREF_EXISTS => spec_op_groupref_exists(e, d),
        _ => None,
    }
}

/// Resumes a context with its handler.
pub open spec fn spec_handle(e: Env, h: Handler, d: Drive) -> Option<Drive> {
    match h {
        Handler::AssertDone => spec_assert_done(e, d),
        Handler::AssertNotDone => spec_assert_not_done(e, d),
        Handler::BranchCreate => spec_branch_create(e, d),
        Handler::BranchCallback => spec_branch_callback(e, d),
        Handler::MinRepeatOneCreate => spec_min_repeat_one_create(e, d),
        Handler::MinRepeatOneCallback => spec_min_repeat_one_callback(e, d),
        Handler::RepeatOneCreate => spec_repeat_one_create(e, d),
        Handler::RepeatOneCallback => spec_repeat_one_callback(e, d),
        Handler::RepeatDone => spec_repeat_done(d),
        Handler::MinUntilBody => spec_min_until_body(d),
        Handler::MinUntilTail => spec_min_until_tail(d),
    }
}

/// Runs a context: resumes it with its handler, or runs the operation at its code
/// position; a context at the end of the pattern fails.
#[verifier::opaque]
pub open spec fn spec_run_context(e: Env, d: Drive) -> Option<Drive> {
    match d.ctx.handler {
        Some(h) => spec_handle(e, h, d),
        None => match spec_remaining_codes(e, d.ctx) {
            None => None,
            Some(rc) => if rc > 0 {
                match spec_peek_code(e, d.ctx, 0) {
                    None => None,
                    Some(code) => match opcode_of(code) {
                        None => None,
                        Some(op) => spec_dispatch(e, op, d),
                    },
                }
            } else {
                Some(spec_fail(d))
            },
        },
    }
}

/// One round of the matching loop: runs the context on top of the stack, then either
/// records it as finished or puts it back, with the child it asked for above it.
pub open spec fn spec_step(e: Env, m: Machine) -> Option<Machine> {
    if m.context_stack.len() == 0 {
        None
    } else {
        let d = Drive {
            m: Machine { context_stack: m.context_stack.drop_last(), ..m },
            ctx: m.context_stack.last(),
            next_ctx: None,
        };
        match spec_run_context(e, d) {
            None => None,
            Some(d2) => if d2.ctx.has_matched is Some {
                Some(Machine { popped_context: Some(d2.ctx), ..d2.m })
            } else {
                let m3 = Machine { context_stack: d2.m.context_stack.push(d2.ctx), ..d2.m };
                match d2.next_ctx {
                    Some(n) => Some(Machine { context_stack: m3.context_stack.push(n), ..m3 }),
                    None => Some(m3),
                }
            },
        }
    }
}

} // verus!
