//! What the operations mean for the text: a mark records the position, a back-reference
//! compares the text with the group, a greedy repeat backtracks down to its minimum, a lazy
//! repeat tries its tail at every count up to its maximum.
use vstd::prelude::*;
use crate::constants::{SreOpcode, opcode_of};
use crate::state::{
    Env, Machine, Drive, MatchContext, Handler, RepeatOneContext, MinRepeatOneContext,
    spec_get_marks, spec_marks_pop_keep, spec_marks_push,
};
use crate::drive::{spec_peek_code, spec_skip_char, spec_back_skip_char, spec_sync, spec_next_ctx_at};
use crate::ops_spec::{
    spec_op_mark, spec_op_groupref, spec_groupref_loop, spec_fold, GroupKind, spec_count,
    spec_general_count_loop, spec_dispatch, spec_run_context, spec_step, spec_op_literal,
    LiteralKind, spec_repeat_one_callback, spec_repeat_one_create, spec_repeat_one_uncount,
    spec_op_repeat_one, spec_repeat_one_tail, spec_min_repeat_one_callback,
    spec_min_repeat_one_create, spec_op_min_repeat_one, spec_min_repeat_one_tail,
};
use crate::engine::{
    env_ok, halts, run, match_terminates, match_result, with_first_context, start_offset,
    lemma_attempt_offsets, lemma_run_fuel,
};
use crate::in_step::{in_step, lemma_skip_in_step, lemma_back_skip_in_step};

verus! {

/// The `n` chars of the subject from position `p` equal, folded by `kind`, those from
/// position `q`.
pub open spec fn same_folded(e: Env, p: int, q: int, n: int, kind: GroupKind) -> bool {
    forall|k: int|
        0 <= k < n ==> #[trigger] spec_fold(kind, e.string.char_at(p + k)) == spec_fold(
            kind,
            e.string.char_at(q + k),
        )
}

proof fn lemma_groupref_loop_compares(
    e: Env,
    w: MatchContext,
    g: MatchContext,
    n: nat,
    kind: GroupKind,
)
    requires
        env_ok(e),
        in_step(e, w),
        in_step(e, g),
        g.string_position + n <= e.end,
    ensures
        spec_groupref_loop(e, w, g, n, kind) == (if w.string_position + n <= e.end && same_folded(
            e,
            w.string_position as int,
            g.string_position as int,
            n as int,
            kind,
        ) {
            Some(
                Some(
                    MatchContext {
                        string_position: (w.string_position + n) as usize,
                        string_offset: e.string.offset_of(w.string_position + n) as usize,
                        ..w
                    },
                ),
            )
        } else {
            Some(None::<MatchContext>)
        }),
    decreases n,
{
    let p = w.string_position as int;
    let q = g.string_position as int;
    e.string.lemma_offset_of_at_least(0);
    if n == 0 {
        assert(w == MatchContext {
            string_position: (w.string_position + n) as usize,
            string_offset: e.string.offset_of(w.string_position + n) as usize,
            ..w
        });
    } else if p == e.end {
    } else {
        e.string.lemma_offset_of_mono(p, e.end as int);
        e.string.lemma_offset_of_mono(q, e.end as int);
        e.string.lemma_offset_of_mono(e.end as int, e.string.count() as int);
        e.string.lemma_peek_at_offset(p);
        e.string.lemma_peek_at_offset(q);
        if spec_fold(kind, e.string.char_at(p)) != spec_fold(kind, e.string.char_at(q)) {
            assert(spec_fold(kind, e.string.char_at(p + 0)) != spec_fold(
                kind,
                e.string.char_at(q + 0),
            ));
        } else {
            lemma_skip_in_step(e, w, 1);
            lemma_skip_in_step(e, g, 1);
            let w2 = spec_skip_char(e, w, 1).unwrap();
            let g2 = spec_skip_char(e, g, 1).unwrap();
            lemma_groupref_loop_compares(e, w2, g2, (n - 1) as nat, kind);
            if same_folded(e, p + 1, q + 1, n - 1, kind) {
                assert forall|k: int| 0 <= k < n implies #[trigger] spec_fold(
                    kind,
                    e.string.char_at(p + k),
                ) == spec_fold(kind, e.string.char_at(q + k)) by {
                    if k > 0 {
                        assert(spec_fold(kind, e.string.char_at(p + 1 + (k - 1))) == spec_fold(
                            kind,
                            e.string.char_at(q + 1 + (k - 1)),
                        ));
                    }
                }
            }
            if same_folded(e, p, q, n as int, kind) {
                assert forall|k: int| 0 <= k < n - 1 implies #[trigger] spec_fold(
                    kind,
                    e.string.char_at(p + 1 + k),
                ) == spec_fold(kind, e.string.char_at(q + 1 + k)) by {
                    assert(spec_fold(kind, e.string.char_at(p + (k + 1))) == spec_fold(
                        kind,
                        e.string.char_at(q + (k + 1)),
                    ));
                }
            }
        }
    }
}

/// A back-reference to group `gi`, whose marks are `gs <= ge` within the range, succeeds at
/// position `p` exactly where the `ge - gs` chars from `p`, within the range, equal (folded
/// by `kind`) the chars of the group; it then moves the position past them, to
/// `p + (ge - gs)`, and the code past the operation. Elsewhere it fails.
pub proof fn lemma_groupref_compares_the_group(
    e: Env,
    d: Drive,
    kind: GroupKind,
    gi: u32,
    gs: usize,
    ge: usize,
)
    requires
        env_ok(e),
        in_step(e, d.ctx),
        d.ctx.has_matched is None,
        spec_peek_code(e, d.ctx, 1) == Some(gi),
        spec_get_marks(d.m, gi as usize) == Some((Some(gs), Some(ge))),
        gs <= ge <= e.end,
        d.ctx.code_position + 2 <= usize::MAX,
    ensures
        spec_op_groupref(e, d, kind) is Some,
        ({
            let r = spec_op_groupref(e, d, kind).unwrap();
            let p = d.ctx.string_position as int;
            let n = ge - gs;
            let matched = p + n <= e.end && same_folded(e, p, gs as int, n, kind);
            &&& r.m == d.m
            &&& r.next_ctx == d.next_ctx
            &&& (r.ctx.has_matched == Some(false)) == !matched
            &&& matched ==> {
                &&& r.ctx.has_matched is None
                &&& r.ctx.string_position == p + n
                &&& r.ctx.string_offset == e.string.offset_of(p + n)
                &&& r.ctx.code_position == d.ctx.code_position + 2
            }
            &&& !matched ==> r.ctx.string_position == p
        }),
{
    e.string.lemma_offset_of_at_least(0);
    e.string.lemma_offset_of_ends();
    e.string.lemma_offset_of_mono(gs as int, e.end as int);
    e.string.lemma_offset_of_mono(e.end as int, e.string.count() as int);
    e.string.lemma_offset_moves_forward(0, gs);
    let goff = e.string.offset(0, gs).unwrap();
    let g = MatchContext { string_position: gs, string_offset: goff, ..d.ctx };
    lemma_groupref_loop_compares(e, d.ctx, g, (ge - gs) as nat, kind);
    let r = spec_op_groupref(e, d, kind).unwrap();
    let p = d.ctx.string_position as int;
    let n = ge - gs;
    let matched = p + n <= e.end && same_folded(e, p, gs as int, n, kind);
    if matched {
        e.string.lemma_offset_of_mono(p + n, e.end as int);
    }
}

/// `<MARK> nr` records the current position as mark `nr` (the start of group `nr / 2` where
/// `nr` is even, its end where odd, which also makes that group the last one closed), keeps
/// every other mark, and moves the code past the operation, not the position.
pub proof fn lemma_mark_records_position(e: Env, d: Drive, nr: u32)
    requires
        spec_peek_code(e, d.ctx, 1) == Some(nr),
        nr < isize::MAX,
        d.ctx.code_position + 2 <= usize::MAX,
    ensures
        spec_op_mark(e, d) is Some,
        ({
            let r = spec_op_mark(e, d).unwrap();
            &&& nr < r.m.marks.len()
            &&& r.m.marks[nr as int] == Some(d.ctx.string_position)
            &&& forall|k: int|
                0 <= k < d.m.marks.len() && k != nr ==> #[trigger] r.m.marks[k] == d.m.marks[k]
            &&& r.m.lastindex == (if nr % 2 == 1 {
                (nr / 2 + 1) as isize
            } else {
                d.m.lastindex
            })
            &&& r.m == Machine { marks: r.m.marks, lastindex: r.m.lastindex, ..d.m }
            &&& r.ctx == MatchContext { code_position: (d.ctx.code_position + 2) as usize, ..d.ctx }
            &&& r.next_ctx == d.next_ctx
        }),
{
    let n = nr as usize;
    assert((n & 1 != 0) == (n % 2 == 1)) by (bit_vector);
}

/* ---------------- one-char repeats ---------------- */

/// The pattern `<op> <5> mn mx <ANY_ALL> <SUCCESS> <NOT_LITERAL> c <SUCCESS>`: a greedy
/// (`op` 24) or lazy (`op` 26) repeat of any char, between `mn` and `mx` times, followed by
/// one char that is not `c`.
pub open spec fn repeat_pattern(op: u32, mn: u32, mx: u32, c: u32) -> Seq<u32> {
    seq![op, 5u32, mn, mx, 3u32, 1u32, 20u32, c, 1u32]
}

/// The tail `<NOT_LITERAL> c` matches at position `q`: a char within the range, not `c`.
pub open spec fn tail_ok(e: Env, c: u32, q: int) -> bool {
    q < e.end && e.string.char_at(q) != c
}

/// A context at position `q` and code position `code`, in step with the subject.
pub open spec fn rep_ctx(e: Env, q: int, code: usize, toplevel: bool, h: Option<Handler>) -> MatchContext {
    MatchContext {
        string_position: q as usize,
        string_offset: e.string.offset_of(q) as usize,
        code_position: code,
        has_matched: None,
        toplevel,
        handler: h,
    }
}

/// The pattern of a one-char repeat, in a well-formed subject, with its range.
pub open spec fn repeat_env(e: Env, op: u32, mn: u32, mx: u32, c: u32) -> bool {
    &&& env_ok(e)
    &&& e.start <= e.end
    &&& e.pattern == repeat_pattern(op, mn, mx, c)
}

proof fn lemma_position_facts(e: Env, q: int)
    requires
        env_ok(e),
        0 <= q <= e.end,
    ensures
        0 <= e.string.offset_of(q) <= e.string.bytes().len() <= isize::MAX,
        e.end <= e.string.count(),
        e.string.count() <= e.string.bytes().len(),
        in_step(e, rep_ctx(e, q, 0, true, None)),
{
    e.string.lemma_offset_of_at_least(0);
    e.string.lemma_offset_of_mono(q, e.end as int);
    e.string.lemma_offset_of_mono(e.end as int, e.string.count() as int);
}

proof fn lemma_any_all_loop(e: Env, d: Drive, count: usize, maxcount: usize, op: u32, mn: u32, mx: u32, c: u32)
    requires
        repeat_env(e, op, mn, mx, c),
        in_step(e, d.ctx),
        d.ctx.has_matched is None,
        count <= maxcount,
        d.ctx.string_position + (maxcount - count) <= e.end,
    ensures
        spec_general_count_loop(e, d, 4, count, maxcount) is Some,
        spec_general_count_loop(e, d, 4, count, maxcount).unwrap().0.m == d.m,
        spec_general_count_loop(e, d, 4, count, maxcount).unwrap().0.next_ctx == d.next_ctx,
        spec_general_count_loop(e, d, 4, count, maxcount).unwrap().1 == maxcount,
    decreases maxcount - count,
{
    if count < maxcount {
        let d1 = Drive { ctx: MatchContext { code_position: 4, ..d.ctx }, ..d };
        assert(opcode_of(3u32) == Some(SreOpcode::ANY_ALL));
        lemma_skip_in_step(e, MatchContext { code_position: 5, ..d.ctx }, 1);
        let d2 = spec_dispatch(e, SreOpcode::ANY_ALL, d1).unwrap();
        lemma_any_all_loop(e, d2, (count + 1) as usize, maxcount, op, mn, mx, c);
    }
}

/// Counting the any-char item of a one-char repeat counts every char up to the maximum or
/// the end of the range.
proof fn lemma_count_any_all(e: Env, d: Drive, maxcount: usize, op: u32, mn: u32, mx: u32, c: u32)
    requires
        repeat_env(e, op, mn, mx, c),
        op == 24 || op == 26,
        in_step(e, d.ctx),
        d.ctx.code_position == 0,
        d.ctx.has_matched is None,
    ensures
        spec_count(e, d, maxcount) == Some(
            (
                d,
                (if maxcount <= e.end - d.ctx.string_position {
                    maxcount
                } else {
                    (e.end - d.ctx.string_position) as usize
                }),
            ),
        ),
{
    let rc = (e.end - d.ctx.string_position) as usize;
    let max: usize = if maxcount <= rc { maxcount } else { rc };
    assert(opcode_of(op) == Some(SreOpcode::REPEAT_ONE) || opcode_of(op) == Some(
        SreOpcode::MIN_REPEAT_ONE,
    ));
    let c1 = MatchContext { code_position: 4, ..d.ctx };
    lemma_any_all_loop(e, Drive { ctx: c1, ..d }, 0, max, op, mn, mx, c);
}

/// The tail's first round: `<NOT_LITERAL> c` at position `q` fails, or moves on a char.
proof fn lemma_tail_step(e: Env, m: Machine, s: Seq<MatchContext>, q: int, op: u32, mn: u32, mx: u32, c: u32)
    requires
        repeat_env(e, op, mn, mx, c),
        e.start <= q <= e.end,
        m.context_stack == s.push(rep_ctx(e, q, 6, false, None)),
    ensures
        spec_step(e, m) == Some(
            if tail_ok(e, c, q) {
                Machine { context_stack: s.push(rep_ctx(e, q + 1, 8, false, None)), ..m }
            } else {
                Machine {
                    context_stack: s,
                    popped_context: Some(
                        MatchContext { has_matched: Some(false), ..rep_ctx(e, q, 6, false, None) },
                    ),
                    ..m
                }
            },
        ),
{
    reveal(spec_run_context);
    lemma_position_facts(e, q);
    assert(m.context_stack.drop_last() =~= s);
    assert(opcode_of(20u32) == Some(SreOpcode::NOT_LITERAL));
    let d = Drive {
        m: Machine { context_stack: s, ..m },
        ctx: rep_ctx(e, q, 6, false, None),
        next_ctx: None,
    };
    assert(spec_run_context(e, d) == spec_op_literal(e, d, LiteralKind::NotEq));
    if tail_ok(e, c, q) {
        e.string.lemma_peek_at_offset(q);
        lemma_skip_in_step(e, rep_ctx(e, q, 8, false, None), 1);
        lemma_position_facts(e, q + 1);
        assert(s.push(rep_ctx(e, q, 6, false, None)).drop_last() =~= s);
    } else if q < e.end {
        e.string.lemma_peek_at_offset(q);
    }
}

/// The tail's second round: `<SUCCESS>` below the top level ends the tail with a match.
proof fn lemma_tail_success_step(e: Env, m: Machine, s: Seq<MatchContext>, q: int, op: u32, mn: u32, mx: u32, c: u32)
    requires
        repeat_env(e, op, mn, mx, c),
        e.start <= q <= e.end,
        m.context_stack == s.push(rep_ctx(e, q, 8, false, None)),
    ensures
        spec_step(e, m) == Some(
            Machine {
                context_stack: s,
                popped_context: Some(
                    MatchContext { has_matched: Some(true), ..rep_ctx(e, q, 8, false, None) },
                ),
                string_position: q as usize,
                ..m
            },
        ),
{
    reveal(spec_run_context);
    lemma_position_facts(e, q);
    assert(m.context_stack.drop_last() =~= s);
    assert(opcode_of(1u32) == Some(SreOpcode::SUCCESS));
}

/// The tail matches after `j` items: at position `start + j`.
pub open spec fn tail_at(e: Env, c: u32, j: int) -> bool {
    tail_ok(e, c, e.start + j)
}

/// The tail matches after some count of items from `lo` to `hi`.
pub open spec fn some_tail_between(e: Env, c: u32, lo: int, hi: int) -> bool {
    exists|j: int| lo <= j <= hi && #[trigger] tail_at(e, c, j)
}

/// A greedy repeat that holds `k` items waits for its tail, tried after them.
pub open spec fn greedy_waiting(e: Env, m: Machine, k: int, mn: u32, mx: u32) -> bool {
    &&& m.context_stack == seq![
        rep_ctx(e, e.start + k, 0, true, Some(Handler::RepeatOneCallback)),
        rep_ctx(e, e.start + k, 6, false, None),
    ]
    &&& m.repeat_one_stack.len() > 0
    &&& m.repeat_one_stack.last() == (RepeatOneContext {
        count: k as usize,
        min_count: mn as usize,
        max_count: mx as usize,
        following_literal: None,
    })
    &&& m.marks_stack.len() > 0
    &&& m.marks_stack.last() == (m.marks, m.lastindex)
}

/// The state of a greedy repeat that holds `k` items, resumed after its tail finished.
pub open spec fn greedy_resumed(e: Env, m: Machine, k: int, mn: u32, mx: u32) -> bool {
    &&& m.context_stack == seq![rep_ctx(e, e.start + k, 0, true, Some(Handler::RepeatOneCallback))]
    &&& m.popped_context matches Some(ch) && ch.has_matched is Some
    &&& m.repeat_one_stack.len() > 0
    &&& m.repeat_one_stack.last() == (RepeatOneContext {
        count: k as usize,
        min_count: mn as usize,
        max_count: mx as usize,
        following_literal: None,
    })
    &&& m.marks_stack.len() > 0
    &&& m.marks_stack.last() == (m.marks, m.lastindex)
}

/// The greedy repeat resumed after its tail is done when the tail matched, and gives up
/// when it failed and the repeat holds no more than the minimum.
proof fn lemma_greedy_callback_done(e: Env, m: Machine, k: int, mn: u32, mx: u32, c: u32)
    requires
        repeat_env(e, 24, mn, mx, c),
        0 <= k,
        e.start + k <= e.end,
        greedy_resumed(e, m, k, mn, mx),
        m.popped_context.unwrap().has_matched == Some(true) || k <= mn,
    ensures
        spec_step(e, m) is Some,
        spec_step(e, m).unwrap().context_stack.len() == 0,
        spec_step(e, m).unwrap().popped_context is Some,
        spec_step(e, m).unwrap().popped_context.unwrap().has_matched
            == m.popped_context.unwrap().has_matched,
        spec_step(e, m).unwrap().string_position == m.string_position,
{
    reveal(spec_run_context);
    lemma_position_facts(e, e.start + k);
    let pc = rep_ctx(e, e.start + k, 0, true, Some(Handler::RepeatOneCallback));
    let d = Drive { m: Machine { context_stack: Seq::empty(), ..m }, ctx: pc, next_ctx: None };
    assert(m.context_stack.drop_last() =~= Seq::<MatchContext>::empty());
    assert(m.context_stack.last() == pc);
    assert(spec_run_context(e, d) == spec_repeat_one_callback(e, d));
}

/// The greedy repeat resumed after its tail failed, holding more than the minimum, gives
/// back a char and waits for its tail again.
#[verifier::rlimit(40)]
proof fn lemma_greedy_gives_back(e: Env, m: Machine, k: int, mn: u32, mx: u32, c: u32)
    requires
        repeat_env(e, 24, mn, mx, c),
        mn < k,
        e.start + k <= e.end,
        greedy_resumed(e, m, k, mn, mx),
        m.popped_context.unwrap().has_matched == Some(false),
    ensures
        spec_step(e, m) is Some,
        greedy_waiting(e, spec_step(e, m).unwrap(), k - 1, mn, mx),
{
    reveal(spec_run_context);
    lemma_position_facts(e, e.start + k);
    lemma_position_facts(e, e.start + k - 1);
    let pc = rep_ctx(e, e.start + k, 0, true, Some(Handler::RepeatOneCallback));
    let d = Drive { m: Machine { context_stack: Seq::empty(), ..m }, ctx: pc, next_ctx: None };
    assert(m.context_stack.drop_last() =~= Seq::<MatchContext>::empty());
    assert(m.context_stack.last() == pc);
    assert(spec_run_context(e, d) == spec_repeat_one_callback(e, d));
    lemma_back_skip_in_step(e, pc, 1);
    let c2 = spec_back_skip_char(e, pc, 1).unwrap();
    assert(c2 == rep_ctx(e, e.start + k - 1, 0, true, Some(Handler::RepeatOneCallback)));
    let r = m.repeat_one_stack.last();
    let m2 = spec_repeat_one_uncount(d.m).unwrap();
    assert(m2 == Machine {
        repeat_one_stack: m.repeat_one_stack.update(
            m.repeat_one_stack.len() - 1,
            RepeatOneContext { count: (r.count - 1) as usize, ..r },
        ),
        context_stack: Seq::empty(),
        ..m
    });
    assert(spec_marks_pop_keep(m2) == Some(m2));
    let cc = MatchContext { handler: Some(Handler::RepeatOneCreate), ..c2 };
    let d3 = Drive { m: m2, ctx: cc, ..d };
    assert(spec_repeat_one_callback(e, d) == spec_repeat_one_create(e, d3));
    let d4 = spec_sync(d3);
    assert(spec_peek_code(e, d4.ctx, 1) == Some(5u32));
    let d5 = spec_next_ctx_at(d4, 6, Handler::RepeatOneCallback);
    assert(spec_repeat_one_create(e, d3) == Some(d5));
    let m5 = spec_step(e, m).unwrap();
    assert(m5.context_stack == seq![d5.ctx, d5.next_ctx.unwrap()]);
    assert(d5.ctx == rep_ctx(e, e.start + (k - 1), 0, true, Some(Handler::RepeatOneCallback)));
    assert(d5.next_ctx.unwrap() == rep_ctx(e, e.start + (k - 1), 6, false, None));
}

/// The greedy repeat is the last of the counts from `mn` to `k` after which the tail
/// matches: `j` is one, and none above it up to `k` is.
pub open spec fn last_tail_between(e: Env, c: u32, lo: int, hi: int, j: int) -> bool {
    &&& lo <= j <= hi
    &&& tail_at(e, c, j)
    &&& forall|i: int| j < i <= hi ==> !#[trigger] tail_at(e, c, i)
}

/// A greedy repeat that waits for its tail with `k` items stops: it matches exactly where
/// the tail matches after some count from `mn` to `k`, and then after the largest one.
proof fn lemma_greedy_from(e: Env, m: Machine, k: int, mn: u32, mx: u32, c: u32) -> (n: nat)
    requires
        repeat_env(e, 24, mn, mx, c),
        mn <= k,
        e.start + k <= e.end,
        greedy_waiting(e, m, k, mn, mx),
    ensures
        halts(e, m, n),
        run(e, m, n).has_matched == some_tail_between(e, c, mn as int, k),
        run(e, m, n).has_matched ==> last_tail_between(
            e,
            c,
            mn as int,
            k,
            run(e, m, n).string_position - e.start - 1,
        ),
    decreases k,
{
    let q = e.start + k;
    let parent = rep_ctx(e, q, 0, true, Some(Handler::RepeatOneCallback));
    let s = seq![parent];
    assert(m.context_stack =~= s.push(rep_ctx(e, q, 6, false, None)));
    lemma_tail_step(e, m, s, q, 24, mn, mx, c);
    let m1 = spec_step(e, m).unwrap();
    if tail_ok(e, c, q) {
        lemma_tail_success_step(e, m1, s, q + 1, 24, mn, mx, c);
        let m2 = spec_step(e, m1).unwrap();
        assert(greedy_resumed(e, m2, k, mn, mx));
        lemma_greedy_callback_done(e, m2, k, mn, mx, c);
        let m3 = spec_step(e, m2).unwrap();
        assert(halts(e, m3, 0));
        assert(halts(e, m2, 1));
        assert(halts(e, m1, 2));
        assert(halts(e, m, 3));
        assert(run(e, m2, 1) == run(e, m3, 0));
        assert(run(e, m1, 2) == run(e, m3, 0));
        assert(run(e, m, 3) == run(e, m3, 0));
        assert(tail_at(e, c, k));
        assert(m3.string_position == q + 1);
        assert(last_tail_between(e, c, mn as int, k, k));
        3
    } else {
        assert(greedy_resumed(e, m1, k, mn, mx));
        assert(!tail_at(e, c, k));
        if k <= mn {
            lemma_greedy_callback_done(e, m1, k, mn, mx, c);
            let m3 = spec_step(e, m1).unwrap();
            assert(halts(e, m3, 0));
            assert(halts(e, m1, 1));
            assert(halts(e, m, 2));
            assert(run(e, m1, 1) == run(e, m3, 0));
            assert(run(e, m, 2) == run(e, m3, 0));
            if some_tail_between(e, c, mn as int, k) {
                let j = choose|j: int| mn <= j <= k && #[trigger] tail_at(e, c, j);
                assert(j == k);
            }
            2
        } else {
            lemma_greedy_gives_back(e, m1, k, mn, mx, c);
            let m3 = spec_step(e, m1).unwrap();
            let n3 = lemma_greedy_from(e, m3, k - 1, mn, mx, c);
            assert(halts(e, m1, n3 + 1));
            assert(halts(e, m, n3 + 2));
            assert(run(e, m1, n3 + 1) == run(e, m3, n3));
            assert(run(e, m, n3 + 2) == run(e, m3, n3));
            if some_tail_between(e, c, mn as int, k) {
                let j = choose|j: int| mn <= j <= k && #[trigger] tail_at(e, c, j);
                assert(j < k);
                assert(some_tail_between(e, c, mn as int, k - 1));
            }
            if some_tail_between(e, c, mn as int, k - 1) {
                let j = choose|j: int| mn <= j <= k - 1 && #[trigger] tail_at(e, c, j);
                assert(some_tail_between(e, c, mn as int, k));
            }
            n3 + 2
        }
    }
}

/// The most items a greedy repeat of any char takes from the start position: the maximum,
/// or what is left of the range.
pub open spec fn greedy_count(e: Env, mx: u32) -> int {
    if mx <= e.end - e.start {
        mx as int
    } else {
        e.end - e.start
    }
}

/// The first round of a greedy repeat: it counts its items and waits for its tail, or
/// fails at once where it cannot reach its minimum.
#[verifier::rlimit(40)]
proof fn lemma_greedy_start(e: Env, m: Machine, mn: u32, mx: u32, c: u32)
    requires
        repeat_env(e, 24, mn, mx, c),
        m.context_stack == seq![rep_ctx(e, e.start as int, 0, true, None)],
    ensures
        spec_step(e, m) is Some,
        greedy_count(e, mx) < mn ==> {
            &&& spec_step(e, m).unwrap().context_stack.len() == 0
            &&& spec_step(e, m).unwrap().popped_context is Some
            &&& spec_step(e, m).unwrap().popped_context.unwrap().has_matched == Some(false)
        },
        mn <= greedy_count(e, mx) ==> greedy_waiting(
            e,
            spec_step(e, m).unwrap(),
            greedy_count(e, mx),
            mn,
            mx,
        ),
{
    reveal(spec_run_context);
    let fc = rep_ctx(e, e.start as int, 0, true, None);
    lemma_position_facts(e, e.start as int);
    let d = Drive { m: Machine { context_stack: Seq::empty(), ..m }, ctx: fc, next_ctx: None };
    assert(m.context_stack.drop_last() =~= Seq::<MatchContext>::empty());
    assert(m.context_stack.last() == fc);
    assert(opcode_of(24u32) == Some(SreOpcode::REPEAT_ONE));
    assert(spec_run_context(e, d) == spec_op_repeat_one(e, d));
    let kk = greedy_count(e, mx);
    if e.end - e.start >= mn {
        let d0 = spec_sync(d);
        lemma_count_any_all(e, d0, mx as usize, 24, mn, mx, c);
        assert(spec_count(e, d0, mx as usize) == Some((d0, kk as usize)));
        lemma_skip_in_step(e, d0.ctx, kk as usize);
        let c2 = spec_skip_char(e, d0.ctx, kk as usize).unwrap();
        lemma_position_facts(e, e.start + kk);
        assert(c2 == rep_ctx(e, e.start + kk, 0, true, None));
        if mn <= kk {
            let d2 = Drive { ctx: c2, ..d0 };
            assert(spec_peek_code(e, d2.ctx, 1) == Some(5u32));
            assert(spec_peek_code(e, d2.ctx, 6) == Some(20u32));
            let mp = spec_marks_push(d2.m);
            let d3 = Drive {
                m: Machine {
                    repeat_one_stack: mp.repeat_one_stack.push(
                        RepeatOneContext {
                            count: kk as usize,
                            min_count: mn as usize,
                            max_count: mx as usize,
                            following_literal: None,
                        },
                    ),
                    ..mp
                },
                ctx: MatchContext { handler: Some(Handler::RepeatOneCreate), ..d2.ctx },
                ..d2
            };
            assert(spec_op_repeat_one(e, d) == spec_repeat_one_tail(
                e,
                d2,
                kk as usize,
                mn as usize,
                mx as usize,
            ));
            assert(spec_repeat_one_tail(e, d2, kk as usize, mn as usize, mx as usize)
                == spec_repeat_one_create(e, d3));
            let d4 = spec_sync(d3);
            assert(spec_peek_code(e, d4.ctx, 1) == Some(5u32));
            let d5 = spec_next_ctx_at(d4, 6, Handler::RepeatOneCallback);
            assert(spec_repeat_one_create(e, d3) == Some(d5));
            let m5 = spec_step(e, m).unwrap();
            assert(m5.context_stack == seq![d5.ctx, d5.next_ctx.unwrap()]);
            assert(d5.ctx == rep_ctx(e, e.start + kk, 0, true, Some(Handler::RepeatOneCallback)));
            assert(d5.next_ctx.unwrap() == rep_ctx(e, e.start + kk, 6, false, None));
        }
    }
}

/// A greedy repeat of any char, between `mn` and `mx` times, followed by a tail of one char
/// that is not `c`, backtracks: the match stops, and succeeds exactly where the tail matches
/// after some count of items from `mn` up to the most the repeat can take (the maximum, or
/// what is left of the range); it then ends after the largest such count and the tail's
/// char. A repeat whose tail fails gives back one char at a time until its minimum.
pub proof fn lemma_greedy_repeat_backtracks(e: Env, m: Machine, mn: u32, mx: u32, c: u32)
    requires
        repeat_env(e, 24, mn, mx, c),
        m.context_stack.len() == 0,
    ensures
        match_terminates(e, with_first_context(e, m, start_offset(e), true)),
        match_result(e, with_first_context(e, m, start_offset(e), true)).has_matched
            == some_tail_between(e, c, mn as int, greedy_count(e, mx)),
        match_result(e, with_first_context(e, m, start_offset(e), true)).has_matched
            ==> last_tail_between(
            e,
            c,
            mn as int,
            greedy_count(e, mx),
            match_result(e, with_first_context(e, m, start_offset(e), true)).string_position
                - e.start - 1,
        ),
{
    lemma_attempt_offsets(e, start_offset(e));
    let m1 = with_first_context(e, m, start_offset(e), true);
    assert(m1.context_stack =~= seq![rep_ctx(e, e.start as int, 0, true, None)]);
    lemma_greedy_start(e, m1, mn, mx, c);
    let m2 = spec_step(e, m1).unwrap();
    let kk = greedy_count(e, mx);
    let n: nat = if kk < mn {
        assert(halts(e, m2, 0));
        assert(halts(e, m1, 1));
        assert(run(e, m1, 1) == run(e, m2, 0));
        if some_tail_between(e, c, mn as int, kk) {
            let j = choose|j: int| mn <= j <= kk && #[trigger] tail_at(e, c, j);
        }
        1
    } else {
        let n2 = lemma_greedy_from(e, m2, kk, mn, mx, c);
        assert(halts(e, m1, n2 + 1));
        assert(run(e, m1, n2 + 1) == run(e, m2, n2));
        n2 + 1
    };
    lemma_run_fuel(e, m1, n, choose|k: nat| halts(e, m1, k));
}

/// The most items a lazy repeat of any char tries its tail after: the maximum (none where
/// it is `MAXREPEAT`), or what is left of the range.
pub open spec fn lazy_limit(e: Env, mx: u32) -> int {
    if mx == u32::MAX || e.end - e.start < mx {
        e.end - e.start
    } else {
        mx as int
    }
}

/// The lazy repeat is the first of the counts from `lo` to `hi` after which the tail
/// matches: `j` is one, and none below it from `lo` is.
pub open spec fn first_tail_between(e: Env, c: u32, lo: int, hi: int, j: int) -> bool {
    &&& lo <= j <= hi
    &&& tail_at(e, c, j)
    &&& forall|i: int| lo <= i < j ==> !#[trigger] tail_at(e, c, i)
}

/// A lazy repeat that holds `k` items waits for its tail, tried after them.
pub open spec fn lazy_waiting(e: Env, m: Machine, k: int, mn: u32, mx: u32) -> bool {
    &&& m.context_stack == seq![
        rep_ctx(e, e.start + k, 0, true, Some(Handler::MinRepeatOneCallback)),
        rep_ctx(e, e.start + k, 6, false, None),
    ]
    &&& m.min_repeat_one_stack.len() > 0
    &&& m.min_repeat_one_stack.last() == (MinRepeatOneContext {
        count: k as usize,
        min_count: mn as usize,
        max_count: mx as usize,
    })
    &&& m.marks_stack.len() > 0
    &&& m.marks_stack.last() == (m.marks, m.lastindex)
}

/// The state of a lazy repeat that holds `k` items, resumed after its tail finished.
pub open spec fn lazy_resumed(e: Env, m: Machine, k: int, mn: u32, mx: u32) -> bool {
    &&& m.context_stack == seq![
        rep_ctx(e, e.start + k, 0, true, Some(Handler::MinRepeatOneCallback)),
    ]
    &&& m.popped_context matches Some(ch) && ch.has_matched is Some
    &&& m.min_repeat_one_stack.len() > 0
    &&& m.min_repeat_one_stack.last() == (MinRepeatOneContext {
        count: k as usize,
        min_count: mn as usize,
        max_count: mx as usize,
    })
    &&& m.marks_stack.len() > 0
    &&& m.marks_stack.last() == (m.marks, m.lastindex)
}

/// The lazy repeat resumed after its tail matched is done.
proof fn lemma_lazy_callback_done(e: Env, m: Machine, k: int, mn: u32, mx: u32, c: u32)
    requires
        repeat_env(e, 26, mn, mx, c),
        0 <= k,
        e.start + k <= e.end,
        lazy_resumed(e, m, k, mn, mx),
        m.popped_context.unwrap().has_matched == Some(true),
    ensures
        spec_step(e, m) is Some,
        spec_step(e, m).unwrap().context_stack.len() == 0,
        spec_step(e, m).unwrap().popped_context is Some,
        spec_step(e, m).unwrap().popped_context.unwrap().has_matched == Some(true),
        spec_step(e, m).unwrap().string_position == m.string_position,
{
    reveal(spec_run_context);
    lemma_position_facts(e, e.start + k);
    let pc = rep_ctx(e, e.start + k, 0, true, Some(Handler::MinRepeatOneCallback));
    let d = Drive { m: Machine { context_stack: Seq::empty(), ..m }, ctx: pc, next_ctx: None };
    assert(m.context_stack.drop_last() =~= Seq::<MatchContext>::empty());
    assert(m.context_stack.last() == pc);
    assert(spec_run_context(e, d) == spec_min_repeat_one_callback(e, d));
}

/// The lazy repeat resumed after its tail failed takes one more item and waits for its
/// tail again, unless the range is used up or the maximum reached; then it fails.
#[verifier::rlimit(40)]
proof fn lemma_lazy_takes_one(e: Env, m: Machine, k: int, mn: u32, mx: u32, c: u32)
    requires
        repeat_env(e, 26, mn, mx, c),
        0 <= k,
        e.start + k <= e.end,
        lazy_resumed(e, m, k, mn, mx),
        m.popped_context.unwrap().has_matched == Some(false),
    ensures
        spec_step(e, m) is Some,
        (e.start + k < e.end && (mx == u32::MAX || k + 1 <= mx)) ==> lazy_waiting(
            e,
            spec_step(e, m).unwrap(),
            k + 1,
            mn,
            mx,
        ),
        !(e.start + k < e.end && (mx == u32::MAX || k + 1 <= mx)) ==> {
            &&& spec_step(e, m).unwrap().context_stack.len() == 0
            &&& spec_step(e, m).unwrap().popped_context is Some
            &&& spec_step(e, m).unwrap().popped_context.unwrap().has_matched == Some(false)
        },
{
    reveal(spec_run_context);
    lemma_position_facts(e, e.start + k);
    let pc = rep_ctx(e, e.start + k, 0, true, Some(Handler::MinRepeatOneCallback));
    let d = Drive { m: Machine { context_stack: Seq::empty(), ..m }, ctx: pc, next_ctx: None };
    assert(m.context_stack.drop_last() =~= Seq::<MatchContext>::empty());
    assert(m.context_stack.last() == pc);
    assert(spec_run_context(e, d) == spec_min_repeat_one_callback(e, d));
    let d0 = spec_sync(d);
    lemma_count_any_all(e, d0, 1, 26, mn, mx, c);
    if e.start + k < e.end {
        assert(spec_count(e, d0, 1) == Some((d0, 1usize)));
        lemma_skip_in_step(e, d0.ctx, 1);
        lemma_position_facts(e, e.start + k + 1);
        let c2 = spec_skip_char(e, d0.ctx, 1).unwrap();
        assert(c2 == rep_ctx(e, e.start + k + 1, 0, true, Some(Handler::MinRepeatOneCallback)));
        let r = d0.m.min_repeat_one_stack.last();
        let m2 = Machine {
            min_repeat_one_stack: d0.m.min_repeat_one_stack.update(
                d0.m.min_repeat_one_stack.len() - 1,
                MinRepeatOneContext { count: (r.count + 1) as usize, ..r },
            ),
            ..d0.m
        };
        assert(spec_marks_pop_keep(m2) == Some(m2));
        let d3 = Drive {
            m: m2,
            ctx: MatchContext { handler: Some(Handler::MinRepeatOneCreate), ..c2 },
            ..d0
        };
        assert(spec_min_repeat_one_callback(e, d) == spec_min_repeat_one_create(e, d3));
        assert(m2.min_repeat_one_stack.last().count == k + 1);
        if mx == u32::MAX || k + 1 <= mx {
            let d4 = spec_sync(d3);
            assert(spec_peek_code(e, d4.ctx, 1) == Some(5u32));
            let d5 = spec_next_ctx_at(d4, 6, Handler::MinRepeatOneCallback);
            assert(spec_min_repeat_one_create(e, d3) == Some(d5));
            let m5 = spec_step(e, m).unwrap();
            assert(m5.context_stack == seq![d5.ctx, d5.next_ctx.unwrap()]);
            assert(d5.ctx == rep_ctx(
                e,
                e.start + (k + 1),
                0,
                true,
                Some(Handler::MinRepeatOneCallback),
            ));
            assert(d5.next_ctx.unwrap() == rep_ctx(e, e.start + (k + 1), 6, false, None));
        }
    } else {
        assert(spec_count(e, d0, 1) == Some((d0, 0usize)));
    }
}

/// A lazy repeat that waits for its tail with `k` items stops: it matches exactly where the
/// tail matches after some count from `k` to the limit, and then after the smallest one.
proof fn lemma_lazy_from(e: Env, m: Machine, k: int, mn: u32, mx: u32, c: u32) -> (n: nat)
    requires
        repeat_env(e, 26, mn, mx, c),
        mn <= k <= lazy_limit(e, mx),
        e.start + k <= e.end,
        lazy_waiting(e, m, k, mn, mx),
    ensures
        halts(e, m, n),
        run(e, m, n).has_matched == some_tail_between(e, c, k, lazy_limit(e, mx)),
        run(e, m, n).has_matched ==> first_tail_between(
            e,
            c,
            k,
            lazy_limit(e, mx),
            run(e, m, n).string_position - e.start - 1,
        ),
    decreases e.end - e.start - k,
{
    let hi = lazy_limit(e, mx);
    let q = e.start + k;
    let parent = rep_ctx(e, q, 0, true, Some(Handler::MinRepeatOneCallback));
    let s = seq![parent];
    assert(m.context_stack =~= s.push(rep_ctx(e, q, 6, false, None)));
    lemma_tail_step(e, m, s, q, 26, mn, mx, c);
    let m1 = spec_step(e, m).unwrap();
    if tail_ok(e, c, q) {
        lemma_tail_success_step(e, m1, s, q + 1, 26, mn, mx, c);
        let m2 = spec_step(e, m1).unwrap();
        assert(lazy_resumed(e, m2, k, mn, mx));
        lemma_lazy_callback_done(e, m2, k, mn, mx, c);
        let m3 = spec_step(e, m2).unwrap();
        assert(halts(e, m3, 0));
        assert(halts(e, m2, 1));
        assert(halts(e, m1, 2));
        assert(halts(e, m, 3));
        assert(run(e, m2, 1) == run(e, m3, 0));
        assert(run(e, m1, 2) == run(e, m3, 0));
        assert(run(e, m, 3) == run(e, m3, 0));
        assert(tail_at(e, c, k));
        assert(m3.string_position == q + 1);
        assert(first_tail_between(e, c, k, hi, k));
        3
    } else {
        assert(lazy_resumed(e, m1, k, mn, mx));
        assert(!tail_at(e, c, k));
        lemma_lazy_takes_one(e, m1, k, mn, mx, c);
        let m3 = spec_step(e, m1).unwrap();
        if e.start + k < e.end && (mx == u32::MAX || k + 1 <= mx) {
            let n3 = lemma_lazy_from(e, m3, k + 1, mn, mx, c);
            assert(halts(e, m1, n3 + 1));
            assert(halts(e, m, n3 + 2));
            assert(run(e, m1, n3 + 1) == run(e, m3, n3));
            assert(run(e, m, n3 + 2) == run(e, m3, n3));
            if some_tail_between(e, c, k, hi) {
                let j = choose|j: int| k <= j <= hi && #[trigger] tail_at(e, c, j);
                assert(j > k);
                assert(some_tail_between(e, c, k + 1, hi));
            }
            if some_tail_between(e, c, k + 1, hi) {
                let j = choose|j: int| k + 1 <= j <= hi && #[trigger] tail_at(e, c, j);
                assert(some_tail_between(e, c, k, hi));
            }
            n3 + 2
        } else {
            assert(halts(e, m3, 0));
            assert(halts(e, m1, 1));
            assert(halts(e, m, 2));
            assert(run(e, m1, 1) == run(e, m3, 0));
            assert(run(e, m, 2) == run(e, m3, 0));
            assert(hi == k);
            if some_tail_between(e, c, k, hi) {
                let j = choose|j: int| k <= j <= hi && #[trigger] tail_at(e, c, j);
                assert(j == k);
            }
            2
        }
    }
}

/// The first round of a lazy repeat: it takes its minimum of items and waits for its tail,
/// or fails at once where the minimum is out of reach.
#[verifier::rlimit(40)]
proof fn lemma_lazy_start(e: Env, m: Machine, mn: u32, mx: u32, c: u32)
    requires
        repeat_env(e, 26, mn, mx, c),
        m.context_stack == seq![rep_ctx(e, e.start as int, 0, true, None)],
    ensures
        spec_step(e, m) is Some,
        lazy_limit(e, mx) < mn ==> {
            &&& spec_step(e, m).unwrap().context_stack.len() == 0
            &&& spec_step(e, m).unwrap().popped_context is Some
            &&& spec_step(e, m).unwrap().popped_context.unwrap().has_matched == Some(false)
        },
        mn <= lazy_limit(e, mx) ==> lazy_waiting(e, spec_step(e, m).unwrap(), mn as int, mn, mx),
{
    reveal(spec_run_context);
    let fc = rep_ctx(e, e.start as int, 0, true, None);
    lemma_position_facts(e, e.start as int);
    let d = Drive { m: Machine { context_stack: Seq::empty(), ..m }, ctx: fc, next_ctx: None };
    assert(m.context_stack.drop_last() =~= Seq::<MatchContext>::empty());
    assert(m.context_stack.last() == fc);
    assert(opcode_of(26u32) == Some(SreOpcode::MIN_REPEAT_ONE));
    assert(spec_run_context(e, d) == spec_op_min_repeat_one(e, d));
    if e.end - e.start >= mn {
        let d0 = spec_sync(d);
        let d1 = if mn == 0 {
            d0
        } else {
            lemma_count_any_all(e, d0, mn as usize, 26, mn, mx, c);
            assert(spec_count(e, d0, mn as usize) == Some((d0, mn as usize)));
            lemma_skip_in_step(e, d0.ctx, mn as usize);
            Drive { ctx: spec_skip_char(e, d0.ctx, mn as usize).unwrap(), ..d0 }
        };
        lemma_position_facts(e, e.start + mn);
        assert(d1.ctx == rep_ctx(e, e.start + mn, 0, true, None));
        assert(spec_op_min_repeat_one(e, d) == spec_min_repeat_one_tail(
            e,
            d1,
            mn as usize,
            mn as usize,
            mx as usize,
        ));
        assert(spec_peek_code(e, d1.ctx, 1) == Some(5u32));
        assert(spec_peek_code(e, d1.ctx, 6) == Some(20u32));
        let mp = spec_marks_push(d1.m);
        let d3 = Drive {
            m: Machine {
                min_repeat_one_stack: mp.min_repeat_one_stack.push(
                    MinRepeatOneContext {
                        count: mn as usize,
                        min_count: mn as usize,
                        max_count: mx as usize,
                    },
                ),
                ..mp
            },
            ctx: MatchContext { handler: Some(Handler::MinRepeatOneCreate), ..d1.ctx },
            ..d1
        };
        assert(spec_min_repeat_one_tail(e, d1, mn as usize, mn as usize, mx as usize)
            == spec_min_repeat_one_create(e, d3));
        if mx == u32::MAX || mn <= mx {
            let d4 = spec_sync(d3);
            assert(spec_peek_code(e, d4.ctx, 1) == Some(5u32));
            let d5 = spec_next_ctx_at(d4, 6, Handler::MinRepeatOneCallback);
            assert(spec_min_repeat_one_create(e, d3) == Some(d5));
            let m5 = spec_step(e, m).unwrap();
            assert(m5.context_stack == seq![d5.ctx, d5.next_ctx.unwrap()]);
            assert(d5.ctx == rep_ctx(
                e,
                e.start + mn,
                0,
                true,
                Some(Handler::MinRepeatOneCallback),
            ));
            assert(d5.next_ctx.unwrap() == rep_ctx(e, e.start + mn, 6, false, None));
        }
    }
}

/// A lazy repeat of any char, between `mn` and `mx` times (`mx` being `MAXREPEAT` for no
/// maximum), followed by a tail of one char that is not `c`, tries its tail at every count
/// from `mn` up to the maximum that the range allows: the match stops, and succeeds exactly
/// where the tail matches after some such count; it then ends after the smallest one and
/// the tail's char.
pub proof fn lemma_lazy_repeat_tries_each_count(e: Env, m: Machine, mn: u32, mx: u32, c: u32)
    requires
        repeat_env(e, 26, mn, mx, c),
        m.context_stack.len() == 0,
    ensures
        match_terminates(e, with_first_context(e, m, start_offset(e), true)),
        match_result(e, with_first_context(e, m, start_offset(e), true)).has_matched
            == some_tail_between(e, c, mn as int, lazy_limit(e, mx)),
        match_result(e, with_first_context(e, m, start_offset(e), true)).has_matched
            ==> first_tail_between(
            e,
            c,
            mn as int,
            lazy_limit(e, mx),
            match_result(e, with_first_context(e, m, start_offset(e), true)).string_position
                - e.start - 1,
        ),
{
    lemma_attempt_offsets(e, start_offset(e));
    let m1 = with_first_context(e, m, start_offset(e), true);
    assert(m1.context_stack =~= seq![rep_ctx(e, e.start as int, 0, true, None)]);
    lemma_lazy_start(e, m1, mn, mx, c);
    let m2 = spec_step(e, m1).unwrap();
    let hi = lazy_limit(e, mx);
    let n: nat = if hi < mn {
        assert(halts(e, m2, 0));
        assert(halts(e, m1, 1));
        assert(run(e, m1, 1) == run(e, m2, 0));
        if some_tail_between(e, c, mn as int, hi) {
            let j = choose|j: int| mn <= j <= hi && #[trigger] tail_at(e, c, j);
        }
        1
    } else {
        let n2 = lemma_lazy_from(e, m2, mn as int, mn, mx, c);
        assert(halts(e, m1, n2 + 1));
        assert(run(e, m1, n2 + 1) == run(e, m2, n2));
        n2 + 1
    };
    lemma_run_fuel(e, m1, n, choose|k: nat| halts(e, m1, k));
}

} // verus!
