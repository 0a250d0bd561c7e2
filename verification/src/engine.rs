//! Running a compiled pattern: the matching loop, `pymatch` (a match at the start
//! position) and `search` (the first start position from which a match succeeds).
use vstd::prelude::*;
use crate::constants::{
    SreOpcode, SreAtCode, SreCatCode, SreFlag, lemma_codes_read_back, opcode_of,
};
pub use crate::strdrive::StrDrive;
pub use crate::state::State;
pub use crate::chars::{lower_ascii, lower_unicode, upper_unicode};
use crate::state::{Env, Machine, MatchContext, Drive};
use crate::drive::StateContext;
use crate::ops::run_context;
use crate::bounds::{
    machine_within, lemma_first_context_within, lemma_match_stays_within, lemma_search_stays_within,
};
use crate::ops_spec::{
    spec_step, spec_run_context, literal_kind_of, spec_literal_test, spec_dispatch,
    spec_op_literal, LiteralKind,
};

verus! {

/// The matching loop, run from `m` for at most `fuel` rounds, ends with an empty context
/// stack and a finished context, without panicking.
pub open spec fn halts(e: Env, m: Machine, fuel: nat) -> bool
    decreases fuel,
{
    if m.context_stack.len() == 0 {
        m.popped_context is Some
    } else if fuel == 0 {
        false
    } else {
        match spec_step(e, m) {
            Some(m2) => halts(e, m2, (fuel - 1) as nat),
            None => false,
        }
    }
}

/// The machine that the matching loop leaves, run from `m` for at most `fuel` rounds; its
/// `has_matched` says whether the last finished context matched.
pub open spec fn run(e: Env, m: Machine, fuel: nat) -> Machine
    decreases fuel,
{
    if m.context_stack.len() == 0 {
        Machine {
            has_matched: m.popped_context is Some && m.popped_context.unwrap().has_matched == Some(
                true,
            ),
            ..m
        }
    } else if fuel == 0 {
        m
    } else {
        match spec_step(e, m) {
            Some(m2) => run(e, m2, (fuel - 1) as nat),
            None => m,
        }
    }
}

/// The matching loop, run from `m`, stops without panicking.
pub open spec fn match_terminates(e: Env, m: Machine) -> bool {
    exists|n: nat| halts(e, m, n)
}

/// The machine that the matching loop leaves, run from `m` (where it stops).
pub open spec fn match_result(e: Env, m: Machine) -> Machine {
    run(e, m, choose|n: nat| halts(e, m, n))
}

/// The matching loop leaves the same machine whatever the fuel that suffices.
pub proof fn lemma_run_fuel(e: Env, m: Machine, n1: nat, n2: nat)
    requires
        halts(e, m, n1),
        halts(e, m, n2),
    ensures
        run(e, m, n1) == run(e, m, n2),
    decreases n1,
{
    if m.context_stack.len() > 0 {
        let m2 = spec_step(e, m).unwrap();
        lemma_run_fuel(e, m2, (n1 - 1) as nat, (n2 - 1) as nat);
    }
}

/// The first context of a match attempt at the start position.
pub open spec fn first_context(e: Env, offset: usize, toplevel: bool) -> MatchContext {
    MatchContext {
        string_position: e.start,
        string_offset: offset,
        code_position: 0,
        has_matched: None,
        toplevel,
        handler: None,
    }
}

/// The byte offset of the start position.
pub open spec fn start_offset(e: Env) -> usize {
    e.string.offset(0, e.start).unwrap()
}

/// The machine with the first context of an attempt pushed.
pub open spec fn with_first_context(e: Env, m: Machine, offset: usize, toplevel: bool) -> Machine {
    Machine { context_stack: m.context_stack.push(first_context(e, offset, toplevel)), ..m }
}

/// What `reset` makes of the machine: no marks, empty stacks (but those of the `UNTIL`
/// operations), the string position at the start, nothing matched.
pub open spec fn spec_reset(e: Env, m: Machine) -> Machine {
    Machine {
        lastindex: -1isize,
        marks: Seq::empty(),
        marks_stack: Seq::empty(),
        context_stack: Seq::empty(),
        branch_stack: Seq::empty(),
        min_repeat_one_stack: Seq::empty(),
        repeat_one_stack: Seq::empty(),
        repeat_stack: Seq::empty(),
        string_position: e.start,
        popped_context: None,
        has_matched: false,
        ..m
    }
}

/// Each further attempt of a search, from the start position after `e.start`, stops.
pub open spec fn search_loop_ok(e: Env, m: Machine, offset: usize) -> bool
    decreases e.end - e.start,
{
    if m.has_matched || e.start >= e.end {
        true
    } else {
        let e2 = Env { start: (e.start + 1) as usize, ..e };
        match e.string.offset(offset, 1) {
            None => false,
            Some(o2) => {
                let m2 = with_first_context(e2, spec_reset(e2, m), o2, false);
                match_terminates(e2, m2) && search_loop_ok(e2, match_result(e2, m2), o2)
            },
        }
    }
}

/// The state that the further attempts of a search leave.
pub open spec fn search_loop_result(e: Env, m: Machine, offset: usize) -> (Env, Machine)
    decreases e.end - e.start,
{
    if m.has_matched || e.start >= e.end {
        (e, m)
    } else {
        let e2 = Env { start: (e.start + 1) as usize, ..e };
        match e.string.offset(offset, 1) {
            None => (e, m),
            Some(o2) => {
                let m2 = with_first_context(e2, spec_reset(e2, m), o2, false);
                search_loop_result(e2, match_result(e2, m2), o2)
            },
        }
    }
}

/// Every attempt of a search stops.
pub open spec fn search_terminates(e: Env, m: Machine) -> bool {
    e.start > e.end || {
        let m1 = with_first_context(e, m, start_offset(e), true);
        &&& match_terminates(e, m1)
        &&& search_loop_ok(
            Env { must_advance: false, ..e },
            match_result(e, m1),
            start_offset(e),
        )
    }
}

/// The state that a search leaves.
pub open spec fn search_result(e: Env, m: Machine) -> (Env, Machine) {
    if e.start > e.end {
        (e, m)
    } else {
        let m1 = with_first_context(e, m, start_offset(e), true);
        search_loop_result(
            Env { must_advance: false, ..e },
            match_result(e, m1),
            start_offset(e),
        )
    }
}

/// The machine of a fresh state: no marks, empty stacks, the string position at `start`.
pub open spec fn fresh_machine(start: usize) -> Machine {
    Machine {
        marks: Seq::empty(),
        lastindex: -1isize,
        marks_stack: Seq::empty(),
        context_stack: Seq::empty(),
        branch_stack: Seq::empty(),
        min_repeat_one_stack: Seq::empty(),
        repeat_one_stack: Seq::empty(),
        repeat_stack: Seq::empty(),
        min_until_stack: Seq::empty(),
        max_until_stack: Seq::empty(),
        string_position: start,
        popped_context: None,
        has_matched: false,
    }
}

/* ---------------- laws ---------------- */

/// Resetting twice is resetting once.
pub proof fn lemma_reset_idempotent(e: Env, m: Machine)
    ensures
        spec_reset(e, spec_reset(e, m)) == spec_reset(e, m),
{
}

/// Resetting gives back the machine of a fresh state, where the stacks of the `UNTIL`
/// operations (which `reset` leaves alone) are empty.
pub proof fn lemma_reset_is_fresh(e: Env, m: Machine)
    requires
        m.min_until_stack.len() == 0,
        m.max_until_stack.len() == 0,
    ensures
        spec_reset(e, m) == fresh_machine(e.start),
{
    assert(spec_reset(e, m).min_until_stack =~= fresh_machine(e.start).min_until_stack);
    assert(spec_reset(e, m).max_until_stack =~= fresh_machine(e.start).max_until_stack);
}

/// The further attempts of a search move the start forward, never past the end, and
/// change nothing else of the environment; they stop with a match or at the end.
pub proof fn lemma_search_loop_bounds(e: Env, m: Machine, offset: usize)
    requires
        search_loop_ok(e, m, offset),
        e.start <= e.end,
    ensures
        ({
            let (e2, m2) = search_loop_result(e, m, offset);
            &&& e.start <= e2.start <= e.end
            &&& e2 == (Env { start: e2.start, ..e })
            &&& (!m2.has_matched ==> e2.start == e.end)
            &&& (m.has_matched ==> e2 == e && m2 == m)
        }),
    decreases e.end - e.start,
{
    if !m.has_matched && e.start < e.end {
        let e2 = Env { start: (e.start + 1) as usize, ..e };
        let o2 = e.string.offset(offset, 1).unwrap();
        let m2 = with_first_context(e2, spec_reset(e2, m), o2, false);
        lemma_search_loop_bounds(e2, match_result(e2, m2), o2);
    }
}

/// A search leaves the start between the given start and the end, and the rest of the
/// environment as it was (the match no longer has to advance); when it finds no match, it
/// leaves the start at the end.
pub proof fn lemma_search_bounds(e: Env, m: Machine)
    requires
        search_terminates(e, m),
        e.start <= e.end,
    ensures
        ({
            let (e2, m2) = search_result(e, m);
            &&& e.start <= e2.start <= e.end
            &&& e2 == (Env { start: e2.start, must_advance: false, ..e })
            &&& (!m2.has_matched ==> e2.start == e.end)
        }),
{
    let m1 = with_first_context(e, m, start_offset(e), true);
    lemma_search_loop_bounds(Env { must_advance: false, ..e }, match_result(e, m1), start_offset(e));
}

/// A state's subject and range are well formed: the end lies within the subject, and the
/// subject's bytes fit in memory (as those of any `str` or slice do).
pub open spec fn env_ok(e: Env) -> bool {
    &&& e.end <= e.string.count()
    &&& e.string.bytes().len() <= isize::MAX
}

/// Every attempt starts in step with the subject: the first at the byte offset of the start
/// position, and each further one, one character on, at the byte offset of its own start.
pub proof fn lemma_attempt_offsets(e: Env, offset: usize)
    requires
        env_ok(e),
        e.start <= e.end,
    ensures
        start_offset(e) == e.string.offset_of(e.start as int),
        offset == e.string.offset_of(e.start as int) && e.start < e.end ==> e.string.offset(
            offset,
            1,
        ) == Some(e.string.offset_of(e.start + 1) as usize),
{
    e.string.lemma_offset_of_ends();
    e.string.lemma_offset_of_mono(e.start as int, e.end as int);
    e.string.lemma_offset_moves_forward(0, e.start);
    if e.start < e.end {
        e.string.lemma_offset_of_mono(e.start + 1, e.end as int);
        e.string.lemma_offset_moves_forward(e.start as int, 1);
    }
}

/// A match of a pattern of one literal operation, `<op> c <SUCCESS>`, stops, and succeeds
/// exactly where the character at the start position passes the operation's test against
/// `c` (when the whole subject need not match and the match need not advance).
pub proof fn lemma_literal_match(e: Env, m: Machine, op: SreOpcode, c: u32)
    requires
        env_ok(e),
        e.start <= e.end,
        literal_kind_of(op) is Some,
        e.pattern == seq![op.spec_code(), c, 1u32],
        !e.match_all,
        !e.must_advance,
        m.context_stack.len() == 0,
    ensures
        match_terminates(e, with_first_context(e, m, start_offset(e), true)),
        match_result(e, with_first_context(e, m, start_offset(e), true)).has_matched == (e.start
            < e.end && spec_literal_test(
            literal_kind_of(op).unwrap(),
            c,
            e.string.char_at(e.start as int),
        )),
{
    reveal(spec_run_context);
    reveal_with_fuel(run, 3);
    reveal_with_fuel(halts, 3);
    lemma_codes_read_back(op, SreAtCode::BEGINNING, SreCatCode::DIGIT, 0);
    lemma_attempt_offsets(e, start_offset(e));
    let m1 = with_first_context(e, m, start_offset(e), true);
    assert(m1.context_stack =~= seq![first_context(e, start_offset(e), true)]);
    e.string.lemma_offset_of_at_least(0);
    if e.start < e.end {
        e.string.lemma_offset_of_mono(e.start as int, e.end as int);
        e.string.lemma_peek_at_offset(e.start as int);
        e.string.lemma_offset_of_mono(e.start + 1, e.end as int);
        e.string.lemma_offset_moves_forward(e.start as int, 1);
    }
    assert(halts(e, m1, 3));
    lemma_run_fuel(e, m1, 3, choose|n: nat| halts(e, m1, n));
}

/// The codes of a pattern that matches the chars `lits` one after the other:
/// `<LITERAL> c` for each of them.
pub open spec fn literal_codes(lits: Seq<u32>) -> Seq<u32>
    decreases lits.len(),
{
    if lits.len() == 0 {
        Seq::empty()
    } else {
        seq![16u32, lits[0]] + literal_codes(lits.drop_first())
    }
}

proof fn lemma_literal_codes(lits: Seq<u32>)
    ensures
        literal_codes(lits).len() == 2 * lits.len(),
        forall|j: int|
            0 <= j < lits.len() ==> #[trigger] literal_codes(lits)[2 * j] == 16u32 && literal_codes(
                lits,
            )[2 * j + 1] == lits[j],
    decreases lits.len(),
{
    if lits.len() > 0 {
        let rest = lits.drop_first();
        lemma_literal_codes(rest);
        assert forall|j: int| 0 <= j < lits.len() implies #[trigger] literal_codes(lits)[2 * j]
            == 16u32 && literal_codes(lits)[2 * j + 1] == lits[j] by {
            if j > 0 {
                assert(literal_codes(rest)[2 * (j - 1)] == 16u32);
                assert(rest[j - 1] == lits[j]);
            }
        }
    }
}

/// The context of a literal-string match that has matched `j` of its chars.
pub open spec fn literal_context(e: Env, j: int) -> MatchContext {
    MatchContext {
        string_position: (e.start + j) as usize,
        string_offset: e.string.offset_of(e.start + j) as usize,
        code_position: (2 * j) as usize,
        has_matched: None,
        toplevel: true,
        handler: None,
    }
}

/// The chars of the subject from the start position on are `lits`, within the range.
pub open spec fn subject_continues_with(e: Env, lits: Seq<u32>) -> bool {
    &&& e.start + lits.len() <= e.end
    &&& forall|k: int| 0 <= k < lits.len() ==> #[trigger] e.string.char_at(e.start + k) == lits[k]
}

/// One round of a literal-string match: the context at `j` fails, succeeds, or moves on to
/// `j + 1`.
proof fn lemma_literal_string_step(e: Env, m: Machine, lits: Seq<u32>, j: int)
    requires
        env_ok(e),
        e.start <= e.end,
        e.pattern == literal_codes(lits) + seq![1u32],
        e.pattern.len() <= usize::MAX,
        !e.match_all,
        !e.must_advance,
        0 <= j <= lits.len(),
        e.start + j <= e.end,
        m.context_stack == seq![literal_context(e, j)],
    ensures
        spec_step(e, m) is Some,
        ({
            let m2 = spec_step(e, m).unwrap();
            if j < lits.len() && e.start + j < e.end && e.string.char_at(e.start + j) == lits[j] {
                m2.context_stack == seq![literal_context(e, j + 1)]
            } else {
                &&& m2.context_stack.len() == 0
                &&& m2.popped_context is Some
                &&& (m2.popped_context.unwrap().has_matched == Some(true)) == (j == lits.len())
                &&& j == lits.len() ==> m2.string_position == e.start + j
            }
        }),
{
    reveal(spec_run_context);
    lemma_literal_codes(lits);
    e.string.lemma_offset_of_at_least(0);
    e.string.lemma_offset_of_mono(e.start + j, e.end as int);
    e.string.lemma_offset_of_mono(e.end as int, e.string.count() as int);
    let c = literal_context(e, j);
    let d = Drive {
        m: Machine { context_stack: m.context_stack.drop_last(), ..m },
        ctx: c,
        next_ctx: None,
    };
    assert(m.context_stack.drop_last() =~= Seq::<MatchContext>::empty());
    assert(m.context_stack.last() == c);
    if j < lits.len() {
        assert(e.pattern[2 * j] == 16u32);
        assert(e.pattern[2 * j + 1] == lits[j]);
        assert(opcode_of(16u32) == Some(SreOpcode::LITERAL));
        assert(spec_run_context(e, d) == spec_op_literal(e, d, LiteralKind::Eq));
        if e.start + j < e.end {
            e.string.lemma_peek_at_offset(e.start + j);
            e.string.lemma_offset_of_mono(e.start + j + 1, e.end as int);
            e.string.lemma_offset_moves_forward(e.start + j, 1);
        }
    } else {
        assert(e.pattern[2 * j] == 1u32);
        assert(opcode_of(1u32) == Some(SreOpcode::SUCCESS));
        assert(spec_run_context(e, d) == spec_dispatch(e, SreOpcode::SUCCESS, d));
    }
}

proof fn lemma_literal_string_from(e: Env, m: Machine, lits: Seq<u32>, j: int) -> (n: nat)
    requires
        env_ok(e),
        e.start <= e.end,
        e.pattern == literal_codes(lits) + seq![1u32],
        e.pattern.len() <= usize::MAX,
        !e.match_all,
        !e.must_advance,
        0 <= j <= lits.len(),
        e.start + j <= e.end,
        forall|k: int| 0 <= k < j ==> #[trigger] e.string.char_at(e.start + k) == lits[k],
        m.context_stack == seq![literal_context(e, j)],
    ensures
        halts(e, m, n),
        run(e, m, n).has_matched == subject_continues_with(e, lits),
        run(e, m, n).has_matched ==> run(e, m, n).string_position == e.start + lits.len(),
    decreases lits.len() - j,
{
    lemma_literal_string_step(e, m, lits, j);
    let m2 = spec_step(e, m).unwrap();
    if j < lits.len() && e.start + j < e.end && e.string.char_at(e.start + j) == lits[j] {
        let n2 = lemma_literal_string_from(e, m2, lits, j + 1);
        assert(halts(e, m, n2 + 1));
        assert(run(e, m, n2 + 1) == run(e, m2, n2));
        n2 + 1
    } else {
        assert(halts(e, m2, 0));
        assert(halts(e, m, 1));
        assert(run(e, m, 1) == run(e, m2, 0));
        if j < lits.len() && e.start + j < e.end {
            assert(e.string.char_at(e.start + j) != lits[j]);
        }
        1
    }
}

/// A match of a literal-string pattern, `<LITERAL> c` for each char of `lits` and then
/// `<SUCCESS>`, stops, and succeeds exactly where the subject goes on from the start
/// position with the chars of `lits`, within the range; it then ends after them (when the
/// whole subject need not match and the match need not advance).
pub proof fn lemma_literal_string_match(e: Env, m: Machine, lits: Seq<u32>)
    requires
        env_ok(e),
        e.start <= e.end,
        e.pattern == literal_codes(lits) + seq![1u32],
        e.pattern.len() <= usize::MAX,
        !e.match_all,
        !e.must_advance,
        m.context_stack.len() == 0,
    ensures
        match_terminates(e, with_first_context(e, m, start_offset(e), true)),
        match_result(e, with_first_context(e, m, start_offset(e), true)).has_matched
            == subject_continues_with(e, lits),
        match_result(e, with_first_context(e, m, start_offset(e), true)).has_matched ==> match_result(
            e,
            with_first_context(e, m, start_offset(e), true),
        ).string_position == e.start + lits.len(),
{
    lemma_attempt_offsets(e, start_offset(e));
    let m1 = with_first_context(e, m, start_offset(e), true);
    assert(m1.context_stack =~= seq![literal_context(e, 0)]);
    let n = lemma_literal_string_from(e, m1, lits, 0);
    lemma_run_fuel(e, m1, n, choose|k: nat| halts(e, m1, k));
}

impl<'a> State<'a> {
    /// A state for matching `pattern_codes` over `string` between `start` and `end`, both
    /// clamped to the subject: `end` to its length, `start` to `end`.
    pub fn new(
        string: StrDrive<'a>,
        start: usize,
        end: usize,
        flags: SreFlag,
        pattern_codes: &'a [u32],
    ) -> (r: Self)
        ensures
            r.string == string,
            r._flags == flags,
            r.pattern_codes == pattern_codes,
            r.end == (if end <= string@.count() {
                end
            } else {
                string@.count() as usize
            }),
            r.start == (if start <= r.end {
                start
            } else {
                r.end
            }),
            r.start <= r.end <= string@.count(),
            !r.match_all,
            !r.must_advance,
            r.machine() == fresh_machine(r.start),
            machine_within(r.env(), r.machine()),
    {
        let count = string.count();
        let end = if end <= count {
            end
        } else {
            count
        };
        let start = if start <= end {
            start
        } else {
            end
        };
        let r = Self {
            string,
            start,
            end,
            _flags: flags,
            pattern_codes,
            marks: Vec::new(),
            lastindex: -1isize,
            marks_stack: Vec::new(),
            context_stack: Vec::new(),
            branch_stack: Vec::new(),
            min_repeat_one_stack: Vec::new(),
            repeat_one_stack: Vec::new(),
            repeat_stack: Vec::new(),
            min_until_stack: Vec::new(),
            max_until_stack: Vec::new(),
            string_position: start,
            popped_context: None,
            has_matched: false,
            match_all: false,
            must_advance: false,
        };
        assert(r.machine().marks_stack =~= Seq::<(Seq<Option<usize>>, isize)>::empty());
        r
    }

    /// Clears the marks and the matching stacks and moves back to the start position, for
    /// another attempt.
    pub fn reset(&mut self)
        ensures
            final(self).env() == old(self).env(),
            final(self).string == old(self).string,
            final(self).pattern_codes == old(self).pattern_codes,
            final(self).machine() == spec_reset(old(self).env(), old(self).machine()),
    {
        self.lastindex = -1;
        self.marks.clear();
        self.marks_stack.clear();
        self.context_stack.clear();
        self.branch_stack.clear();
        self.min_repeat_one_stack.clear();
        self.repeat_one_stack.clear();
        self.repeat_stack.clear();
        self.string_position = self.start;
        self.popped_context = None;
        self.has_matched = false;
        assert(self.machine().marks_stack =~= Seq::<(Seq<Option<usize>>, isize)>::empty());
    }

    /// Runs the matching loop until the context stack is empty; `has_matched` then tells
    /// whether the last context finished with a match.
    fn _match(self) -> (r: Self)
        requires
            match_terminates(self.env(), self.machine()),
        ensures
            r.env() == self.env(),
            r.string == self.string,
            r.pattern_codes == self.pattern_codes,
            r.machine() == match_result(self.env(), self.machine()),
    {
        let mut st = self;
        let ghost e = st.env();
        let ghost m0 = st.machine();
        let ghost n0 = choose|n: nat| halts(e, m0, n);
        let ghost mut fuel = n0;
        loop
            invariant
                st.env() == e,
                st.string == self.string,
                st.pattern_codes == self.pattern_codes,
                halts(e, m0, n0),
                halts(e, st.machine(), fuel),
                run(e, st.machine(), fuel) == run(e, m0, n0),
            ensures
                st.env() == e,
                st.string == self.string,
                st.pattern_codes == self.pattern_codes,
                st.machine().context_stack.len() == 0,
                halts(e, st.machine(), fuel),
                run(e, st.machine(), fuel) == run(e, m0, n0),
            decreases fuel,
        {
            let ghost pre = st.machine();
            match st.context_stack.pop() {
                None => {
                    break ;
                },
                Some(ctx) => {
                    let mut drive = StateContext { state: st, ctx, next_ctx: None };
                    run_context(&mut drive);
                    let StateContext { state, ctx, next_ctx } = drive;
                    st = state;
                    if ctx.has_matched.is_some() {
                        st.popped_context = Some(ctx);
                    } else {
                        st.context_stack.push(ctx);
                        if let Some(next_ctx) = next_ctx {
                            st.context_stack.push(next_ctx);
                        }
                    }
                    proof {
                        assert(spec_step(e, pre) == Some(st.machine()));
                        fuel = (fuel - 1) as nat;
                    }
                },
            }
        }
        proof {
            lemma_run_fuel(e, m0, n0, choose|n: nat| halts(e, m0, n));
        }
        st.has_matched = st.popped_context.unwrap().has_matched == Some(true);
        st
    }

    /// Matches the pattern at the start position.
    pub fn pymatch(self) -> (r: Self)
        requires
            match_terminates(
                self.env(),
                with_first_context(self.env(), self.machine(), start_offset(self.env()), true),
            ),
        ensures
            r.env() == self.env(),
            r.string == self.string,
            r.pattern_codes == self.pattern_codes,
            r.machine() == match_result(
                self.env(),
                with_first_context(self.env(), self.machine(), start_offset(self.env()), true),
            ),
            env_ok(self.env()) && self.start <= self.end && machine_within(
                self.env(),
                self.machine(),
            ) ==> r.string_position <= r.end,
    {
        proof {
            if env_ok(self.env()) && self.start <= self.end && machine_within(
                self.env(),
                self.machine(),
            ) {
                let m1 = with_first_context(
                    self.env(),
                    self.machine(),
                    start_offset(self.env()),
                    true,
                );
                lemma_first_context_within(self.env(), self.machine(), start_offset(self.env()), true);
                lemma_match_stays_within(self.env(), m1);
            }
        }
        let mut st = self;
        let ctx = MatchContext {
            string_position: st.start,
            string_offset: st.string.offset(0, st.start),
            code_position: 0,
            has_matched: None,
            toplevel: true,
            handler: None,
        };
        st.context_stack.push(ctx);
        st._match()
    }

    /// Searches for the first start position, from `start` to `end`, at which the pattern
    /// matches; `start` is left at that position.
    pub fn search(self) -> (r: Self)
        requires
            search_terminates(self.env(), self.machine()),
        ensures
            (r.env(), r.machine()) == search_result(self.env(), self.machine()),
            r.string == self.string,
            r.pattern_codes == self.pattern_codes,
            self.start <= self.end ==> {
                &&& self.start <= r.start <= self.end
                &&& r.env() == (Env { start: r.start, must_advance: false, ..self.env() })
                &&& (!r.has_matched ==> r.start == self.end)
            },
            self.start > self.end ==> r.env() == self.env() && r.machine() == self.machine(),
            env_ok(self.env()) && self.start <= self.end && machine_within(
                self.env(),
                self.machine(),
            ) ==> r.string_position <= r.end,
    {
        let mut st = self;
        if st.start > st.end {
            return st;
        }
        proof {
            lemma_search_bounds(st.env(), st.machine());
            if env_ok(st.env()) && machine_within(st.env(), st.machine()) {
                lemma_search_stays_within(st.env(), st.machine());
            }
        }
        let ghost e0 = st.env();
        let ghost m0 = st.machine();
        let mut start_offset = st.string.offset(0, st.start);
        let ctx = MatchContext {
            string_position: st.start,
            string_offset: start_offset,
            code_position: 0,
            has_matched: None,
            toplevel: true,
            handler: None,
        };
        st.context_stack.push(ctx);
        st = st._match();
        st.must_advance = false;
        while !st.has_matched && st.start < st.end
            invariant
                st.string == self.string,
                st.pattern_codes == self.pattern_codes,
                search_loop_ok(st.env(), st.machine(), start_offset),
                search_loop_result(st.env(), st.machine(), start_offset) == search_result(
                    e0,
                    m0,
                ),
            decreases st.end - st.start,
        {
            st.start += 1;
            start_offset = st.string.offset(start_offset, 1);
            st.reset();
            let ctx = MatchContext {
                string_position: st.start,
                string_offset: start_offset,
                code_position: 0,
                has_matched: None,
                toplevel: false,
                handler: None,
            };
            st.context_stack.push(ctx);
            st = st._match();
        }
        st
    }
}

} // verus!
